//! The error type shared by every fallible operation of the library.

use vstd::prelude::*;

verus! {

/// Why an operation refused its input.
#[derive(Debug, Clone, Copy, PartialEq, Eq, Structural)]
pub enum Error {
    /// The leading tag byte names no format that this library reads.
    FormatError,
    /// The stream ends before the bytes that it announces.
    TruncatedInput,
    /// Bytes are left over after a complete stream.
    TrailingBytes,
    /// The requested index width is neither two nor four bytes.
    InvalidWidth,
    /// A caller-side requirement does not hold, such as an index that
    /// reaches past the vertex count.
    PreconditionViolation,
}

impl Error {
    /// The numeric status that stands for this error on a C-style boundary.
    pub open spec fn spec_code(self) -> int {
        match self {
            Error::FormatError => -1,
            Error::TruncatedInput => -2,
            Error::TrailingBytes => -3,
            Error::InvalidWidth => -4,
            Error::PreconditionViolation => -5,
        }
    }

    /// Returns the numeric status of this error; distinct errors have
    /// distinct, negative codes.
    pub fn code(&self) -> (c: i32)
        ensures
            c == self.spec_code(),
            c < 0,
    {
        match self {
            Error::FormatError => -1,
            Error::TruncatedInput => -2,
            Error::TrailingBytes => -3,
            Error::InvalidWidth => -4,
            Error::PreconditionViolation => -5,
        }
    }
}

} // verus!
