//! Index streams: triangles as triples of vertex indices.

use vstd::prelude::*;
use crate::error::Error;

verus! {

/// The `i`-th triangle of an index stream.
pub open spec fn tri_at(s: Seq<u32>, i: int) -> (u32, u32, u32) {
    (s[3 * i], s[3 * i + 1], s[3 * i + 2])
}

/// A stream is valid for a mesh of `vertex_count` vertices when it holds whole
/// triangles and every index names a vertex.
pub open spec fn valid_index_stream(indices: Seq<u32>, vertex_count: int) -> bool {
    &&& indices.len() % 3 == 0
    &&& forall|i: int| 0 <= i < indices.len() ==> (#[trigger] indices[i]) < vertex_count
}

/// Tells whether `indices` is a valid stream for `vertex_count` vertices.
pub fn is_valid_index_stream(indices: &[u32], vertex_count: usize) -> (ok: bool)
    ensures
        ok == valid_index_stream(indices@, vertex_count as int),
{
    if indices.len() % 3 != 0 {
        return false;
    }
    let mut i: usize = 0;
    while i < indices.len()
        invariant
            i <= indices.len(),
            forall|k: int| 0 <= k < i ==> (#[trigger] indices@[k]) < vertex_count,
        decreases indices.len() - i,
    {
        if indices[i] as usize >= vertex_count {
            return false;
        }
        i = i + 1;
    }
    true
}

/// The 16-bit form of a stream: every index reduced modulo 65536.
pub open spec fn narrow_indices(indices: Seq<u32>) -> Seq<u16> {
    Seq::new(indices.len(), |i: int| (indices[i] % 0x1_0000) as u16)
}

/// The 32-bit form of a 16-bit stream.
pub open spec fn widen_indices(indices: Seq<u16>) -> Seq<u32> {
    Seq::new(indices.len(), |i: int| indices[i] as u32)
}

/// Converts a stream to 16-bit indices. An index that does not fit in 16
/// bits, that is one above 65535, is refused; otherwise no index changes its
/// value.
pub fn convert_indices_32_to_16(indices: &[u32]) -> (r: Result<Vec<u16>, Error>)
    ensures
        match r {
            Ok(v) => {
                &&& widen_indices(v@) == indices@
                &&& v@ == narrow_indices(indices@)
                &&& forall|i: int| 0 <= i < indices.len() ==> indices@[i] <= 65535
            },
            Err(e) => e == Error::PreconditionViolation && exists|i: int|
                0 <= i < indices.len() && indices@[i] > 65535,
        },
{
    let mut result: Vec<u16> = Vec::with_capacity(indices.len());
    let mut i: usize = 0;
    while i < indices.len()
        invariant
            i <= indices.len(),
            result@ == narrow_indices(indices@.take(i as int)),
            forall|k: int| 0 <= k < i ==> indices@[k] <= 65535,
        decreases indices.len() - i,
    {
        let index: u32 = indices[i];
        if index > 65535 {
            return Err(Error::PreconditionViolation);
        }
        result.push(index as u16);
        assert(result@ =~= narrow_indices(indices@.take(i + 1)));
        i = i + 1;
    }
    assert(indices@.take(i as int) =~= indices@);
    proof {
        lemma_narrow_widen(indices@);
    }
    Ok(result)
}

/// Converts a 16-bit stream to 32-bit indices; this cannot fail.
pub fn convert_indices_16_to_32(indices: &[u16]) -> (r: Result<Vec<u32>, Error>)
    ensures
        r.is_ok(),
        r.unwrap()@ == widen_indices(indices@),
{
    let mut result: Vec<u32> = Vec::with_capacity(indices.len());
    let mut i: usize = 0;
    while i < indices.len()
        invariant
            i <= indices.len(),
            result@ == widen_indices(indices@.take(i as int)),
        decreases indices.len() - i,
    {
        result.push(indices[i] as u32);
        assert(result@ =~= widen_indices(indices@.take(i + 1)));
        i = i + 1;
    }
    assert(indices@.take(i as int) =~= indices@);
    Ok(result)
}

/// Widening a narrowed stream gives the stream back where every index is
/// below 65536.
pub proof fn lemma_narrow_widen(indices: Seq<u32>)
    requires
        forall|i: int| 0 <= i < indices.len() ==> indices[i] < 0x1_0000,
    ensures
        widen_indices(narrow_indices(indices)) == indices,
{
    assert(widen_indices(narrow_indices(indices)) =~= indices);
}

} // verus!
