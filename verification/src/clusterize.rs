//! Meshlets: small clusters of triangles, each with its own list of vertices
//! and a micro index buffer into that list.

use vstd::prelude::*;
use vstd::slice::slice_subrange;

verus! {

/// Where one meshlet lies in the two shared buffers of a [`Meshlets`].
#[derive(Debug, Clone, Copy, PartialEq, Eq, Structural)]
pub struct MeshletRange {
    /// Where the meshlet's vertices start in the vertex buffer.
    pub vertex_offset: u32,
    /// Where the meshlet's micro indices start in the triangle buffer.
    pub triangle_offset: u32,
    /// How many vertices the meshlet uses.
    pub vertex_count: u32,
    /// How many triangles the meshlet has.
    pub triangle_count: u32,
}

impl MeshletRange {
    /// The range lies inside buffers of the given lengths.
    pub open spec fn fits(self, vertices: int, triangles: int) -> bool {
        &&& self.vertex_offset + self.vertex_count <= vertices
        &&& self.triangle_offset + 3 * self.triangle_count <= triangles
    }

    /// Where the vertices of the range end.
    pub open spec fn vertex_end(self) -> int {
        self.vertex_offset + self.vertex_count
    }

    /// Where the micro indices of the range end, rounded up to a multiple of
    /// four: the micro indices of every meshlet start at such a place.
    pub open spec fn triangle_end(self) -> int {
        self.triangle_offset + (3 * self.triangle_count + 3) / 4 * 4
    }
}

/// How much of the two shared buffers the meshlets up to `last` take, where
/// `last` is the meshlet that lies last in both: the length of the vertex
/// buffer and the length of the triangle buffer.
pub fn meshlet_extent(last: MeshletRange) -> (r: (usize, usize))
    requires
        last.vertex_end() <= usize::MAX,
        last.triangle_end() <= usize::MAX,
    ensures
        r.0 == last.vertex_end(),
        r.1 == last.triangle_end(),
{
    let vertices: usize = last.vertex_offset as usize + last.vertex_count as usize;
    let rounded: u64 = (3 * (last.triangle_count as u64) + 3) / 4 * 4;
    let triangles: usize = last.triangle_offset as usize + rounded as usize;
    (vertices, triangles)
}

/// One meshlet: the mesh vertices that it uses, and its triangles as triples
/// of positions in that list.
#[derive(Copy, Clone)]
pub struct Meshlet<'data> {
    pub vertices: &'data [u32],
    pub triangles: &'data [u8],
}

/// A set of meshlets that share a vertex buffer and a triangle buffer.
pub struct Meshlets {
    pub meshlets: Vec<MeshletRange>,
    pub vertices: Vec<u32>,
    pub triangles: Vec<u8>,
}

impl Meshlets {
    /// Every meshlet lies inside the two buffers.
    pub open spec fn wf(&self) -> bool {
        forall|i: int|
            0 <= i < self.meshlets@.len() ==> (#[trigger] self.meshlets@[i]).fits(
                self.vertices@.len() as int,
                self.triangles@.len() as int,
            )
    }

    /// The vertices of the `i`-th meshlet.
    pub open spec fn spec_vertices(&self, i: int) -> Seq<u32> {
        let m = self.meshlets@[i];
        self.vertices@.subrange(m.vertex_offset as int, m.vertex_offset + m.vertex_count)
    }

    /// The micro indices of the `i`-th meshlet, three for each triangle.
    pub open spec fn spec_triangles(&self, i: int) -> Seq<u8> {
        let m = self.meshlets@[i];
        self.triangles@.subrange(
            m.triangle_offset as int,
            m.triangle_offset + 3 * m.triangle_count,
        )
    }

    /// How many meshlets there are.
    #[inline]
    pub fn len(&self) -> (n: usize)
        ensures
            n == self.meshlets@.len(),
    {
        self.meshlets.len()
    }

    /// Whether there is no meshlet.
    #[inline]
    pub fn is_empty(&self) -> (b: bool)
        ensures
            b == (self.meshlets@.len() == 0),
    {
        self.meshlets.len() == 0
    }

    /// The `idx`-th meshlet.
    #[inline]
    pub fn get(&self, idx: usize) -> (m: Meshlet<'_>)
        requires
            idx < self.meshlets@.len(),
            self.meshlets@[idx as int].fits(
                self.vertices@.len() as int,
                self.triangles@.len() as int,
            ),
        ensures
            m.vertices@ == self.spec_vertices(idx as int),
            m.triangles@ == self.spec_triangles(idx as int),
    {
        let range = self.meshlets[idx];
        let vertices: &[u32] = self.vertices.as_slice();
        let triangles: &[u8] = self.triangles.as_slice();
        assert(vertices@.len() <= usize::MAX && triangles@.len() <= usize::MAX) by {
            vstd::slice::axiom_spec_len(vertices);
            vstd::slice::axiom_spec_len(triangles);
        }
        assert(range.fits(self.vertices@.len() as int, self.triangles@.len() as int));
        let v0: usize = range.vertex_offset as usize;
        let v1: usize = v0 + range.vertex_count as usize;
        let t0: usize = range.triangle_offset as usize;
        let t1: usize = t0 + 3 * (range.triangle_count as usize);
        Meshlet {
            vertices: slice_subrange(vertices, v0, v1),
            triangles: slice_subrange(triangles, t0, t1),
        }
    }

    /// All meshlets, in order.
    pub fn iter(&self) -> (all: Vec<Meshlet<'_>>)
        requires
            self.wf(),
        ensures
            all@.len() == self.meshlets@.len(),
            forall|i: int|
                0 <= i < all@.len() ==> {
                    &&& (#[trigger] all@[i]).vertices@ == self.spec_vertices(i)
                    &&& all@[i].triangles@ == self.spec_triangles(i)
                },
    {
        let mut all: Vec<Meshlet<'_>> = Vec::new();
        let mut i: usize = 0;
        while i < self.meshlets.len()
            invariant
                self.wf(),
                i <= self.meshlets@.len(),
                all@.len() == i,
                forall|k: int|
                    0 <= k < i ==> {
                        &&& (#[trigger] all@[k]).vertices@ == self.spec_vertices(k)
                        &&& all@[k].triangles@ == self.spec_triangles(k)
                    },
            decreases self.meshlets@.len() - i,
        {
            all.push(self.get(i));
            i = i + 1;
        }
        all
    }
}

} // verus!
