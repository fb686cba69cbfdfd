//! Views over vertex data: a buffer of records of one size, of which the
//! library reads nothing but a position of three 32-bit floats, and that only
//! as bit patterns.

use vstd::prelude::*;
use crate::error::Error;

verus! {

/// One attribute of a vertex buffer: `size` bytes at the start of every
/// record of `stride` bytes.
#[derive(Debug, Copy, Clone)]
pub struct VertexStream<'a> {
    data: &'a [u8],
    stride: usize,
    size: usize,
}

/// Whether a buffer of `len` bytes can be read as records of `stride` bytes
/// with an attribute of `size` bytes in each.
pub open spec fn stream_fits(len: int, stride: int, size: int) -> bool {
    stride > 0 && len % stride == 0 && size <= stride
}

impl<'a> VertexStream<'a> {
    /// The bytes of the buffer.
    pub closed spec fn spec_data(&self) -> Seq<u8> {
        self.data@
    }

    /// The distance in bytes from one record to the next.
    pub closed spec fn spec_stride(&self) -> int {
        self.stride as int
    }

    /// The size in bytes of the attribute.
    pub closed spec fn spec_size(&self) -> int {
        self.size as int
    }

    /// A stream holds whole records, and its attribute fits in a record.
    pub open spec fn wf(&self) -> bool {
        stream_fits(self.spec_data().len() as int, self.spec_stride(), self.spec_size())
    }

    /// Makes a stream over `data`. The length of `data` must be a multiple
    /// of `stride`, which cannot be 0, and `size` must not exceed `stride`.
    pub fn new(data: &'a [u8], stride: usize, size: usize) -> (r: Result<VertexStream<'a>, Error>)
        ensures
            match r {
                Ok(s) => {
                    &&& stream_fits(data@.len() as int, stride as int, size as int)
                    &&& s.wf()
                    &&& s.spec_data() == data@
                    &&& s.spec_stride() == stride
                    &&& s.spec_size() == size
                },
                Err(e) => e == Error::PreconditionViolation && !stream_fits(
                    data@.len() as int,
                    stride as int,
                    size as int,
                ),
            },
    {
        if stride == 0 || data.len() % stride != 0 || size > stride {
            return Err(Error::PreconditionViolation);
        }
        Ok(VertexStream { data, stride, size })
    }

    /// The bytes of the buffer.
    pub fn data(&self) -> (d: &'a [u8])
        ensures
            d@ == self.spec_data(),
    {
        self.data
    }

    /// The distance in bytes from one record to the next.
    pub fn stride(&self) -> (n: usize)
        ensures
            n == self.spec_stride(),
    {
        self.stride
    }

    /// The size in bytes of the attribute.
    pub fn size(&self) -> (n: usize)
        ensures
            n == self.spec_size(),
    {
        self.size
    }
}

/// The 32-bit pattern that four bytes spell, lowest byte first.
pub open spec fn le_u32(s: Seq<u8>, at: int) -> u32 {
    (s[at] + 0x100 * s[at + 1] + 0x1_0000 * s[at + 2] + 0x100_0000 * s[at + 3]) as u32
}

/// A vertex buffer with a position of three 32-bit floats in every record.
pub struct VertexDataAdapter<'a> {
    /// The bytes of the buffer.
    pub data: &'a [u8],
    /// How many records the buffer holds.
    pub vertex_count: usize,
    /// The size in bytes of a record.
    pub vertex_stride: usize,
    /// Where in a record the position starts.
    pub position_offset: usize,
}

/// Whether a buffer of `len` bytes can be read as records of `stride` bytes
/// with a position of twelve bytes at `offset` in each.
pub open spec fn adapter_fits(len: int, stride: int, offset: int) -> bool {
    stride > 0 && len % stride == 0 && offset + 12 <= stride
}

impl<'a> VertexDataAdapter<'a> {
    /// Whether the position of the record `vertex` can be read: the record
    /// is one of the buffer's, and its position lies inside the buffer.
    pub open spec fn readable(&self, vertex: int) -> bool {
        &&& 0 <= vertex < self.vertex_count
        &&& vertex * self.vertex_stride + self.position_offset + 12 <= self.data@.len()
    }

    /// The position of the record `vertex`, as three bit patterns.
    pub open spec fn spec_xyz_bits(&self, vertex: int) -> Seq<u32> {
        let at = vertex * self.vertex_stride + self.position_offset;
        seq![le_u32(self.data@, at), le_u32(self.data@, at + 4), le_u32(self.data@, at + 8)]
    }

    /// Makes an adapter over `data`. The length of `data` must be a multiple
    /// of `vertex_stride`, which cannot be 0, and the twelve bytes of a
    /// position at `position_offset` must lie inside a record.
    pub fn new(data: &'a [u8], vertex_stride: usize, position_offset: usize) -> (r: Result<
        VertexDataAdapter<'a>,
        Error,
    >)
        ensures
            match r {
                Ok(a) => {
                    &&& adapter_fits(
                        data@.len() as int,
                        vertex_stride as int,
                        position_offset as int,
                    )
                    &&& a.data@ == data@
                    &&& a.vertex_stride == vertex_stride
                    &&& a.position_offset == position_offset
                    &&& a.vertex_count == data@.len() / vertex_stride as nat
                    &&& forall|v: int| 0 <= v < a.vertex_count ==> a.readable(v)
                },
                Err(e) => e == Error::PreconditionViolation && !adapter_fits(
                    data@.len() as int,
                    vertex_stride as int,
                    position_offset as int,
                ),
            },
    {
        if vertex_stride == 0 || data.len() % vertex_stride != 0 || vertex_stride < 12
            || position_offset > vertex_stride - 12 {
            return Err(Error::PreconditionViolation);
        }
        let vertex_count: usize = data.len() / vertex_stride;
        let adapter = VertexDataAdapter { data, vertex_count, vertex_stride, position_offset };
        assert forall|v: int| 0 <= v < vertex_count implies #[trigger] adapter.readable(v) by {
            assert((v + 1) * vertex_stride <= vertex_count * vertex_stride) by (nonlinear_arith)
                requires
                    v + 1 <= vertex_count,
                    vertex_stride > 0,
            ;
            assert((v + 1) * vertex_stride == v * vertex_stride + vertex_stride)
                by (nonlinear_arith);
            assert(vertex_count * vertex_stride == data@.len()) by {
                vstd::arithmetic::div_mod::lemma_fundamental_div_mod(
                    data@.len() as int,
                    vertex_stride as int,
                );
                assert(vertex_count * vertex_stride == vertex_stride * vertex_count)
                    by (nonlinear_arith);
            }
        }
        Ok(adapter)
    }

    /// Reads the position of the record `vertex` as three bit patterns, each
    /// spelled lowest byte first. A record that the buffer does not hold is
    /// refused.
    pub fn xyz_bits_at(&self, vertex: usize) -> (r: Result<[u32; 3], Error>)
        ensures
            match r {
                Ok(p) => self.readable(vertex as int) && p@ == self.spec_xyz_bits(vertex as int),
                Err(e) => e == Error::PreconditionViolation && !self.readable(vertex as int),
            },
    {
        if vertex >= self.vertex_count {
            return Err(Error::PreconditionViolation);
        }
        let len: usize = self.data.len();
        let at: usize = match vertex.checked_mul(self.vertex_stride) {
            Some(start) => match start.checked_add(self.position_offset) {
                Some(at) => at,
                None => {
                    return Err(Error::PreconditionViolation);
                },
            },
            None => {
                return Err(Error::PreconditionViolation);
            },
        };
        if len < 12 || at > len - 12 {
            return Err(Error::PreconditionViolation);
        }
        let p: [u32; 3] = [
            read_le_u32(self.data, at),
            read_le_u32(self.data, at + 4),
            read_le_u32(self.data, at + 8),
        ];
        assert(p@ =~= self.spec_xyz_bits(vertex as int));
        Ok(p)
    }
}

/// Reads four bytes at `at` as a 32-bit pattern, lowest byte first.
pub fn read_le_u32(data: &[u8], at: usize) -> (r: u32)
    requires
        at + 4 <= data.len(),
    ensures
        r == le_u32(data@, at as int),
{
    data[at] as u32 + 0x100 * (data[at + 1] as u32) + 0x1_0000 * (data[at + 2] as u32)
        + 0x100_0000 * (data[at + 3] as u32)
}

} // verus!
