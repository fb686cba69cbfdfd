//! Which corners of an index stream name which vertex: for every vertex the
//! first position of the stream that names it, and for every position the
//! next position that names the same vertex.

use vstd::prelude::*;
use crate::indices::valid_index_stream;
use crate::vertex_fetch::first_touch;

verus! {

/// Whether a triangle names a corner twice.
pub open spec fn degenerate(t: (u32, u32, u32)) -> bool {
    t.0 == t.1 || t.1 == t.2 || t.0 == t.2
}

/// Tells whether a triangle names a corner twice.
pub fn is_degenerate(t: (u32, u32, u32)) -> (b: bool)
    ensures
        b == degenerate(t),
{
    t.0 == t.1 || t.1 == t.2 || t.0 == t.2
}

/// The chains of the corners of a stream.
pub struct CornerChains {
    head: Vec<usize>,
    next: Vec<usize>,
}

impl CornerChains {
    /// The chains are those of the stream `indices` in a mesh of
    /// `vertex_count` vertices.
    pub closed spec fn wf(&self, indices: Seq<u32>, vertex_count: int) -> bool {
        &&& self.head@.len() == vertex_count
        &&& self.next@.len() == indices.len()
        &&& forall|v: int|
            0 <= v < vertex_count ==> (#[trigger] self.head@[v]) == first_touch(indices, v, 0)
        &&& forall|p: int|
            0 <= p < indices.len() ==> (#[trigger] self.next@[p]) == first_touch(
                indices,
                indices[p] as int,
                p + 1,
            )
    }

    /// Links the corners of `indices`.
    pub fn new(indices: &[u32], vertex_count: usize) -> (r: Self)
        requires
            valid_index_stream(indices@, vertex_count as int),
        ensures
            r.wf(indices@, vertex_count as int),
    {
        let total: usize = indices.len();
        let mut head: Vec<usize> = Vec::new();
        let mut v: usize = 0;
        while v < vertex_count
            invariant
                v <= vertex_count,
                head@.len() == v,
                forall|j: int| 0 <= j < v ==> head@[j] == total,
            decreases vertex_count - v,
        {
            head.push(total);
            v = v + 1;
        }
        let mut next: Vec<usize> = Vec::new();
        let mut p: usize = 0;
        while p < total
            invariant
                p <= total,
                next@.len() == p,
            decreases total - p,
        {
            next.push(total);
            p = p + 1;
        }
        let mut i: usize = total;
        while i > 0
            invariant
                i <= total,
                total == indices@.len(),
                valid_index_stream(indices@, vertex_count as int),
                head@.len() == vertex_count,
                next@.len() == total,
                forall|v: int|
                    0 <= v < vertex_count ==> (#[trigger] head@[v]) == first_touch(
                        indices@,
                        v,
                        i as int,
                    ),
                forall|p: int|
                    i <= p < total ==> (#[trigger] next@[p]) == first_touch(
                        indices@,
                        indices@[p] as int,
                        p + 1,
                    ),
            decreases i,
        {
            i = i - 1;
            let v: usize = indices[i] as usize;
            next[i] = head[v];
            head[v] = i;
        }
        CornerChains { head, next }
    }

    /// The first position that names the vertex `v`; the length of the
    /// stream if none does.
    pub fn first(&self, v: usize, Ghost(indices): Ghost<Seq<u32>>) -> (p: usize)
        requires
            self.wf(indices, self.spec_vertex_count()),
            v < self.spec_vertex_count(),
        ensures
            p == first_touch(indices, v as int, 0),
    {
        self.head[v]
    }

    /// The next position behind `p` that names the vertex of `p`; the length
    /// of the stream if none does.
    pub fn after(&self, p: usize, Ghost(indices): Ghost<Seq<u32>>) -> (q: usize)
        requires
            self.wf(indices, self.spec_vertex_count()),
            p < indices.len(),
        ensures
            q == first_touch(indices, indices[p as int] as int, p + 1),
    {
        self.next[p]
    }

    /// How many vertices the mesh has.
    pub closed spec fn spec_vertex_count(&self) -> int {
        self.head@.len() as int
    }

    /// The chains know the size of their mesh.
    pub proof fn lemma_vertex_count(&self, indices: Seq<u32>, vertex_count: int)
        requires
            self.wf(indices, vertex_count),
        ensures
            self.spec_vertex_count() == vertex_count,
    {
    }
}

} // verus!
