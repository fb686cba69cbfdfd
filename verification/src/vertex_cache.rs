//! Vertex cache optimization: the triangles of a mesh in an order that lets a
//! small cache of transformed vertices serve as many corners as it can.
//!
//! Two orders are made. The scored order rates every vertex by its place in
//! a simulated cache and by the number of triangles that still need it, and
//! always draws the triangle whose corners rate highest. The fanned order
//! draws the triangles around one vertex after the other and picks the next
//! vertex among those just drawn, by when they leave a cache of a given size.
//! Both are heuristics, so each result is measured on the cache: the fast
//! operation returns the fanned order, the thorough one whichever of the two
//! orders misses the cache less often, and neither returns an order that
//! misses the cache more often than the input did.

use vstd::prelude::*;
use vstd::slice::slice_to_vec;
use crate::analyze::{analyze_vertex_cache, cache_misses};
use crate::fan_order::{fanned, fanned_order};
use crate::indices::{tri_at, valid_index_stream};
use crate::reorder::{
    is_reordering, is_reordering_by, lemma_reordering_keeps_triangles, ordered, triangles,
};
use crate::score_order::{scored, scored_order, SCORE_CACHE_SIZE};

verus! {

/// The size of the cache that the thorough order is made for, and on which
/// its result is measured.
pub const SCORED_CACHE_SIZE: usize = SCORE_CACHE_SIZE;

/// Of two streams the one that misses a cache of `cache_size` vertices less
/// often; the first if they miss it alike.
pub open spec fn fewer(first: Seq<u32>, second: Seq<u32>, cache_size: int) -> Seq<u32> {
    if cache_misses(first, cache_size) <= cache_misses(second, cache_size) {
        first
    } else {
        second
    }
}

/// What [`optimize_vertex_cache_fifo`] returns: the fanned order for the
/// cache, or the input where that misses the cache less often.
pub open spec fn fifo_optimized(indices: Seq<u32>, vertex_count: int, cache_size: u32) -> Seq<u32> {
    fewer(
        ordered(indices, fanned_order(indices, vertex_count, cache_size as u64)),
        indices,
        cache_size as int,
    )
}

/// What [`optimize_vertex_cache`] returns: of the scored order, the fanned
/// order and the input the one that misses a cache of [`SCORED_CACHE_SIZE`]
/// vertices least often; among equals the scored order before the fanned
/// order before the input.
pub open spec fn cache_optimized(indices: Seq<u32>, vertex_count: int) -> Seq<u32> {
    fewer(
        fewer(
            ordered(indices, scored_order(indices, vertex_count)),
            ordered(indices, fanned_order(indices, vertex_count, SCORED_CACHE_SIZE as u64)),
            SCORED_CACHE_SIZE as int,
        ),
        indices,
        SCORED_CACHE_SIZE as int,
    )
}

/// A stream in the order of its input is a reordering of it.
pub proof fn lemma_reordering_same(input: Seq<u32>)
    requires
        input.len() % 3 == 0,
    ensures
        is_reordering(input, input),
{
    let order = Seq::new(input.len() / 3, |k: int| k);
    assert(is_reordering_by(input, input, order));
}

/// A reordering of a valid stream is a valid stream.
pub proof fn lemma_reordering_valid(out: Seq<u32>, input: Seq<u32>, vertex_count: int)
    requires
        is_reordering(out, input),
        valid_index_stream(input, vertex_count),
    ensures
        valid_index_stream(out, vertex_count),
{
    let order = choose|order: Seq<int>| is_reordering_by(out, input, order);
    assert forall|i: int| 0 <= i < out.len() implies (#[trigger] out[i]) < vertex_count by {
        let k = i / 3;
        let t = order[k];
        assert(tri_at(out, k) == tri_at(input, t));
        assert(input[3 * t] < vertex_count);
        assert(input[3 * t + 1] < vertex_count);
        assert(input[3 * t + 2] < vertex_count);
        assert(i == 3 * k || i == 3 * k + 1 || i == 3 * k + 2);
    }
}

/// A reordering of a reordering is a reordering.
pub proof fn lemma_reordering_twice(a: Seq<u32>, b: Seq<u32>, c: Seq<u32>)
    requires
        is_reordering(a, b),
        is_reordering(b, c),
    ensures
        is_reordering(a, c),
{
    let p = choose|order: Seq<int>| is_reordering_by(a, b, order);
    let q = choose|order: Seq<int>| is_reordering_by(b, c, order);
    let r = Seq::new(p.len(), |k: int| q[p[k]]);
    assert forall|k: int| 0 <= k < r.len() implies #[trigger] tri_at(a, k) == tri_at(c, r[k]) by {
        assert(tri_at(a, k) == tri_at(b, p[k]));
        assert(tri_at(b, p[k]) == tri_at(c, q[p[k]]));
    }
    assert(r.no_duplicates()) by {
        assert forall|x: int, y: int| 0 <= x < r.len() && 0 <= y < r.len() && x != y implies r[x]
            != r[y] by {
            assert(p[x] != p[y]);
            assert(q[p[x]] != q[p[y]]);
        }
    }
    assert(is_reordering_by(a, c, r));
}

/// Of two orders of the triangles of `indices`, the one that misses a cache
/// of `cache_size` vertices less often; the first if they miss it alike.
fn fewer_misses(
    first: Vec<u32>,
    second: Vec<u32>,
    indices: &[u32],
    vertex_count: usize,
    cache_size: usize,
) -> (out: Vec<u32>)
    requires
        valid_index_stream(indices@, vertex_count as int),
        is_reordering(first@, indices@),
        is_reordering(second@, indices@),
    ensures
        is_reordering(out@, indices@),
        out@ == fewer(first@, second@, cache_size as int),
{
    proof {
        lemma_reordering_valid(first@, indices@, vertex_count as int);
        lemma_reordering_valid(second@, indices@, vertex_count as int);
    }
    let a = analyze_vertex_cache(first.as_slice(), vertex_count, cache_size, 0, 0);
    let b = analyze_vertex_cache(second.as_slice(), vertex_count, cache_size, 0, 0);
    if a.vertices_transformed <= b.vertices_transformed {
        first
    } else {
        second
    }
}

/// Reorders the triangles of a mesh for a cache of transformed vertices.
///
/// The result is exactly [`cache_optimized`]. It holds every triangle of
/// `indices` once, with its corners as they stand in `indices`, and it
/// misses a first-in-first-out cache of [`SCORED_CACHE_SIZE`] vertices no
/// more often than `indices` does.
pub fn optimize_vertex_cache(indices: &[u32], vertex_count: usize) -> (out: Vec<u32>)
    requires
        valid_index_stream(indices@, vertex_count as int),
    ensures
        out@ == cache_optimized(indices@, vertex_count as int),
        is_reordering(out@, indices@),
        triangles(out@).to_multiset() == triangles(indices@).to_multiset(),
        valid_index_stream(out@, vertex_count as int),
        cache_misses(out@, SCORED_CACHE_SIZE as int) <= cache_misses(
            indices@,
            SCORED_CACHE_SIZE as int,
        ),
{
    proof {
        lemma_reordering_same(indices@);
    }
    let by_score = scored(indices, vertex_count);
    let by_fan = fanned(indices, vertex_count, SCORED_CACHE_SIZE as u64);
    let best = fewer_misses(by_score, by_fan, indices, vertex_count, SCORED_CACHE_SIZE);
    let out = fewer_misses(best, slice_to_vec(indices), indices, vertex_count, SCORED_CACHE_SIZE);
    proof {
        lemma_reordering_valid(out@, indices@, vertex_count as int);
        lemma_reordering_keeps_triangles(out@, indices@);
    }
    out
}

/// Writes `from` over `to`.
fn write_back(to: &mut [u32], from: &Vec<u32>)
    requires
        old(to)@.len() == from@.len(),
    ensures
        final(to)@ == from@,
{
    let n: usize = from.len();
    let mut i: usize = 0;
    while i < n
        invariant
            i <= n,
            n == from@.len(),
            to@.len() == n,
            forall|k: int| 0 <= k < i ==> to@[k] == from@[k],
        decreases n - i,
    {
        to[i] = from[i];
        i = i + 1;
    }
    assert(to@ =~= from@);
}

/// Reorders the triangles of a mesh for a cache of transformed vertices, in
/// place; see [`optimize_vertex_cache`].
pub fn optimize_vertex_cache_in_place(indices: &mut [u32], vertex_count: usize)
    requires
        valid_index_stream(old(indices)@, vertex_count as int),
    ensures
        final(indices)@ == cache_optimized(old(indices)@, vertex_count as int),
        is_reordering(final(indices)@, old(indices)@),
        triangles(final(indices)@).to_multiset() == triangles(old(indices)@).to_multiset(),
        valid_index_stream(final(indices)@, vertex_count as int),
        cache_misses(final(indices)@, SCORED_CACHE_SIZE as int) <= cache_misses(
            old(indices)@,
            SCORED_CACHE_SIZE as int,
        ),
{
    let out = optimize_vertex_cache(indices, vertex_count);
    write_back(indices, &out);
}

/// Reorders the triangles of a mesh for a first-in-first-out cache of
/// `cache_size` transformed vertices, by fanning out around one vertex after
/// the other.
///
/// This takes less time than [`optimize_vertex_cache`] and gives a worse
/// order. The result is exactly [`fifo_optimized`]. It holds every triangle
/// of `indices` once, with its corners as they stand in `indices`, and it
/// misses a cache of `cache_size` vertices no more often than `indices`
/// does.
pub fn optimize_vertex_cache_fifo(indices: &[u32], vertex_count: usize, cache_size: u32) -> (out:
    Vec<u32>)
    requires
        valid_index_stream(indices@, vertex_count as int),
    ensures
        out@ == fifo_optimized(indices@, vertex_count as int, cache_size),
        is_reordering(out@, indices@),
        triangles(out@).to_multiset() == triangles(indices@).to_multiset(),
        valid_index_stream(out@, vertex_count as int),
        cache_misses(out@, cache_size as int) <= cache_misses(indices@, cache_size as int),
{
    proof {
        lemma_reordering_same(indices@);
    }
    let by_fan = fanned(indices, vertex_count, cache_size as u64);
    let out = fewer_misses(
        by_fan,
        slice_to_vec(indices),
        indices,
        vertex_count,
        cache_size as usize,
    );
    proof {
        lemma_reordering_valid(out@, indices@, vertex_count as int);
        lemma_reordering_keeps_triangles(out@, indices@);
    }
    out
}

/// Reorders the triangles of a mesh for a first-in-first-out cache, in place;
/// see [`optimize_vertex_cache_fifo`].
pub fn optimize_vertex_cache_fifo_in_place(
    indices: &mut [u32],
    vertex_count: usize,
    cache_size: u32,
)
    requires
        valid_index_stream(old(indices)@, vertex_count as int),
    ensures
        final(indices)@ == fifo_optimized(old(indices)@, vertex_count as int, cache_size),
        is_reordering(final(indices)@, old(indices)@),
        triangles(final(indices)@).to_multiset() == triangles(old(indices)@).to_multiset(),
        valid_index_stream(final(indices)@, vertex_count as int),
        cache_misses(final(indices)@, cache_size as int) <= cache_misses(
            old(indices)@,
            cache_size as int,
        ),
{
    let out = optimize_vertex_cache_fifo(indices, vertex_count, cache_size);
    write_back(indices, &out);
}

} // verus!
