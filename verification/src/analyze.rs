//! Statistics of an index stream on a simulated vertex cache.
//!
//! The cache holds the vertices transformed last, at most `cache_size` of
//! them, and drops the oldest when a new one enters: a hit does not renew a
//! vertex. Vertices are transformed in warps of at most `warp_size`, and
//! triangles are handed on in groups of at most `primgroup_size`; a triangle
//! that does not fit in the warp or in the group empties the cache. A size
//! of 0 stands for no limit.

use vstd::prelude::*;
use crate::indices::{tri_at, valid_index_stream};
use crate::vertex_fetch::{touch_count, touched};

verus! {

/// The state of the simulation between two triangles.
pub struct CacheSim {
    /// The vertices in the cache, oldest first.
    pub cache: Seq<u32>,
    /// How many vertices the current warp holds.
    pub warp: int,
    /// How many triangles the current group holds.
    pub prim: int,
    /// How many vertices were transformed.
    pub transformed: int,
    /// How many warps were closed.
    pub warps: int,
}

/// The state before the first triangle.
pub open spec fn sim_start() -> CacheSim {
    CacheSim { cache: Seq::<u32>::empty(), warp: 0, prim: 0, transformed: 0, warps: 0 }
}

/// The cache once `v` entered it, the oldest vertex leaving if it was full.
pub open spec fn cache_push(cache: Seq<u32>, v: u32, cache_size: int) -> Seq<u32> {
    if cache.len() + 1 > cache_size {
        cache.push(v).subrange(cache.len() + 1 - cache_size, cache.len() as int + 1)
    } else {
        cache.push(v)
    }
}

/// Whether the vertex `v` is in the cache.
pub open spec fn in_cache(cache: Seq<u32>, v: int) -> bool {
    exists|k: int| 0 <= k < cache.len() && #[trigger] cache[k] == v
}

/// 1 if `v` is not in the cache, 0 if it is.
pub open spec fn miss(cache: Seq<u32>, v: u32) -> int {
    if in_cache(cache, v as int) {
        0
    } else {
        1
    }
}

/// The cache once the vertex `v` was asked for.
pub open spec fn cache_touch(cache: Seq<u32>, v: u32, cache_size: int) -> Seq<u32> {
    if in_cache(cache, v as int) {
        cache
    } else {
        cache_push(cache, v, cache_size)
    }
}

/// The cache once the triangle `t` was drawn.
#[verifier::opaque]
pub open spec fn cache_after(cache: Seq<u32>, t: (u32, u32, u32), cache_size: int) -> Seq<u32> {
    cache_touch(cache_touch(cache_touch(cache, t.0, cache_size), t.1, cache_size), t.2, cache_size)
}

/// How many corners of the triangle `t` are transformed when it is drawn.
#[verifier::opaque]
pub open spec fn triangle_misses(cache: Seq<u32>, t: (u32, u32, u32), cache_size: int) -> int {
    miss(cache, t.0) + miss(cache_touch(cache, t.0, cache_size), t.1) + miss(
        cache_touch(cache_touch(cache, t.0, cache_size), t.1, cache_size),
        t.2,
    )
}

/// The state once the vertex `v` was asked for: a vertex in the cache costs
/// nothing, any other is transformed and enters the cache and the warp.
pub open spec fn sim_vertex(s: CacheSim, v: u32, cache_size: int) -> CacheSim {
    if in_cache(s.cache, v as int) {
        s
    } else {
        CacheSim {
            cache: cache_push(s.cache, v, cache_size),
            warp: s.warp + 1,
            transformed: s.transformed + 1,
            ..s
        }
    }
}

/// Whether the triangle `t` empties the cache before it is drawn: the group
/// is full, or the warp has no room for the vertices that `t` misses.
pub open spec fn sim_flushes(s: CacheSim, t: (u32, u32, u32), warp_size: int, prim_size: int)
    -> bool {
    (prim_size > 0 && s.prim == prim_size) || (warp_size > 0 && s.warp + miss(s.cache, t.0)
        + miss(s.cache, t.1) + miss(s.cache, t.2) > warp_size)
}

/// The state once the cache was emptied: the warp, if it held anything, is
/// closed.
pub open spec fn sim_flush(s: CacheSim) -> CacheSim {
    CacheSim {
        cache: Seq::<u32>::empty(),
        warp: 0,
        prim: 0,
        warps: s.warps + if s.warp > 0 {
            1int
        } else {
            0int
        },
        ..s
    }
}

/// The state once the triangle `t` was drawn.
pub open spec fn sim_triangle(
    s: CacheSim,
    t: (u32, u32, u32),
    cache_size: int,
    warp_size: int,
    prim_size: int,
) -> CacheSim {
    let s0 = if sim_flushes(s, t, warp_size, prim_size) {
        sim_flush(s)
    } else {
        s
    };
    let s3 = sim_vertex(
        sim_vertex(sim_vertex(s0, t.0, cache_size), t.1, cache_size),
        t.2,
        cache_size,
    );
    CacheSim { prim: s3.prim + 1, ..s3 }
}

/// The state once the first `i` triangles of `indices` were drawn.
pub open spec fn sim_run(
    indices: Seq<u32>,
    i: int,
    cache_size: int,
    warp_size: int,
    prim_size: int,
) -> CacheSim
    decreases i,
{
    if i <= 0 {
        sim_start()
    } else {
        sim_triangle(
            sim_run(indices, i - 1, cache_size, warp_size, prim_size),
            tri_at(indices, i - 1),
            cache_size,
            warp_size,
            prim_size,
        )
    }
}

/// How many vertices are transformed when `indices` is drawn with a cache of
/// `cache_size` vertices and no other limit.
pub open spec fn cache_misses(indices: Seq<u32>, cache_size: int) -> int {
    sim_run(indices, indices.len() as int / 3, cache_size, 0, 0).transformed
}

/// Every vertex in the cache is one that the first `k` indices name.
pub open spec fn cache_is_named(cache: Seq<u32>, indices: Seq<u32>, k: int) -> bool {
    forall|j: int| 0 <= j < cache.len() ==> touched(indices, k, #[trigger] cache[j] as int)
}

/// A vertex is transformed at the latest when it is first named: asking for
/// the vertex at the position `k` keeps the count of transformed vertices at
/// or above the count of different vertices named, and adds at most one.
pub proof fn lemma_vertex_is_transformed(
    s: CacheSim,
    indices: Seq<u32>,
    k: int,
    cache_size: int,
)
    requires
        0 <= cache_size,
        0 <= k < indices.len(),
        cache_is_named(s.cache, indices, k),
        touch_count(indices, k) <= s.transformed <= k,
    ensures
        cache_is_named(sim_vertex(s, indices[k], cache_size).cache, indices, k + 1),
        touch_count(indices, k + 1) <= sim_vertex(s, indices[k], cache_size).transformed <= k + 1,
        sim_vertex(s, indices[k], cache_size).warp >= s.warp,
        sim_vertex(s, indices[k], cache_size).prim == s.prim,
{
    let v = indices[k];
    let after = sim_vertex(s, v, cache_size);
    assert(touched(indices, k + 1, v as int));
    if in_cache(s.cache, v as int) {
        let j = choose|j: int| 0 <= j < s.cache.len() && #[trigger] s.cache[j] == v as int;
        assert(touched(indices, k, s.cache[j] as int));
    }
    assert forall|j: int| 0 <= j < after.cache.len() implies touched(
        indices,
        k + 1,
        #[trigger] after.cache[j] as int,
    ) by {
        let w = after.cache[j];
        let pushed = s.cache.push(v);
        let x = if in_cache(s.cache, v as int) {
            j
        } else if s.cache.len() + 1 > cache_size {
            j + s.cache.len() + 1 - cache_size
        } else {
            j
        };
        if x < s.cache.len() {
            assert(s.cache[x] == w);
            assert(touched(indices, k, s.cache[x] as int));
            let y = choose|y: int| 0 <= y < k && y < indices.len() && #[trigger] indices[y] == w;
            assert(indices[y] == w);
        } else {
            assert(pushed[x] == v);
        }
    }
}

/// No order misses the cache less often than it names different vertices,
/// nor more often than it has corners: a vertex is transformed at the latest
/// when it is first named, and a corner costs at most one transformation.
pub proof fn lemma_misses_bounds(indices: Seq<u32>, cache_size: int, i: int)
    requires
        0 <= cache_size,
        0 <= i <= indices.len() / 3,
    ensures
        touch_count(indices, 3 * i) <= sim_run(indices, i, cache_size, 0, 0).transformed <= 3 * i,
        cache_is_named(sim_run(indices, i, cache_size, 0, 0).cache, indices, 3 * i),
    decreases i,
{
    if i > 0 {
        lemma_misses_bounds(indices, cache_size, i - 1);
        let s = sim_run(indices, i - 1, cache_size, 0, 0);
        let k = 3 * (i - 1);
        let t = tri_at(indices, i - 1);
        assert(!sim_flushes(s, t, 0, 0));
        lemma_vertex_is_transformed(s, indices, k, cache_size);
        let s1 = sim_vertex(s, t.0, cache_size);
        lemma_vertex_is_transformed(s1, indices, k + 1, cache_size);
        let s2 = sim_vertex(s1, t.1, cache_size);
        lemma_vertex_is_transformed(s2, indices, k + 2, cache_size);
    }
}

/// The cache misses of a stream of whole triangles lie between the number of
/// different vertices that it names and the number of its corners, whatever
/// the size of the cache: no order of a mesh does better than one
/// transformation for each vertex.
pub proof fn lemma_cache_misses_bounds(indices: Seq<u32>, cache_size: int)
    requires
        0 <= cache_size,
        indices.len() % 3 == 0,
    ensures
        touch_count(indices, indices.len() as int) <= cache_misses(indices, cache_size)
            <= indices.len(),
{
    lemma_misses_bounds(indices, cache_size, indices.len() as int / 3);
}

/// What the simulation counts.
#[derive(Debug, Clone, Copy, PartialEq, Eq, Structural)]
pub struct VertexCacheStatistics {
    /// How many vertices were transformed.
    pub vertices_transformed: usize,
    /// How many warps were run.
    pub warps_executed: usize,
    /// How many triangles were drawn.
    pub triangle_count: usize,
    /// How many different vertices the stream names.
    pub unique_vertices: usize,
}

/// The simulation as compiled code holds it: every vertex transformed since
/// the cache was last emptied, the position of the oldest that is still in
/// the cache, and a mark on every vertex that is in the cache.
pub(crate) struct CacheState {
    history: Vec<u32>,
    head: usize,
    present: Vec<bool>,
    warp: usize,
    prim: usize,
    transformed: usize,
    warps: usize,
}

impl CacheState {
    pub(crate) closed spec fn cache(&self) -> Seq<u32> {
        self.history@.subrange(self.head as int, self.history@.len() as int)
    }

    pub(crate) closed spec fn model(&self) -> CacheSim {
        CacheSim {
            cache: self.cache(),
            warp: self.warp as int,
            prim: self.prim as int,
            transformed: self.transformed as int,
            warps: self.warps as int,
        }
    }

    pub(crate) closed spec fn wf(&self, cache_size: int) -> bool {
        &&& self.head <= self.history@.len()
        &&& self.cache().len() <= cache_size
        &&& self.cache().no_duplicates()
        &&& forall|k: int| 0 <= k < self.cache().len() ==> (#[trigger] self.cache()[k])
            < self.present@.len()
        &&& forall|v: int|
            0 <= v < self.present@.len() ==> (#[trigger] self.present@[v]) == in_cache(
                self.cache(),
                v,
            )
    }

    /// How many vertices the mesh has.
    pub(crate) closed spec fn vertex_count(&self) -> int {
        self.present@.len() as int
    }

    pub(crate) fn new(vertex_count: usize) -> (r: Self)
        ensures
            r.model() == sim_start(),
            r.cache() == Seq::<u32>::empty(),
            r.vertex_count() == vertex_count,
            forall|cache_size: int| 0 <= cache_size ==> r.wf(cache_size),
    {
        let mut present: Vec<bool> = Vec::new();
        let mut v: usize = 0;
        while v < vertex_count
            invariant
                v <= vertex_count,
                present@.len() == v,
                forall|k: int| 0 <= k < v ==> !present@[k],
            decreases vertex_count - v,
        {
            present.push(false);
            v = v + 1;
        }
        let r = CacheState {
            history: Vec::new(),
            head: 0,
            present,
            warp: 0,
            prim: 0,
            transformed: 0,
            warps: 0,
        };
        assert(r.cache() =~= Seq::<u32>::empty());
        r
    }

    /// Whether the vertex `v` is in the cache.
    fn holds(&self, v: u32, cache_size: usize) -> (b: bool)
        requires
            self.wf(cache_size as int),
            v < self.present@.len(),
        ensures
            b == in_cache(self.cache(), v as int),
    {
        self.present[v as usize]
    }

    /// Empties the cache and closes the warp.
    fn flush(&mut self, cache_size: usize)
        requires
            old(self).wf(cache_size as int),
            old(self).warps < usize::MAX,
        ensures
            final(self).wf(cache_size as int),
            final(self).present@.len() == old(self).present@.len(),
            final(self).model() == sim_flush(old(self).model()),
    {
        let mut k: usize = self.head;
        let end: usize = self.history.len();
        while k < end
            invariant
                self.head <= k <= end,
                end == self.history@.len(),
                self.history@ == old(self).history@,
                self.head == old(self).head,
                self.present@.len() == old(self).present@.len(),
                old(self).wf(cache_size as int),
                self.warp == old(self).warp,
                self.prim == old(self).prim,
                self.warps == old(self).warps,
                self.transformed == old(self).transformed,
                forall|v: int|
                    0 <= v < self.present@.len() ==> (#[trigger] self.present@[v]) == in_cache(
                        self.history@.subrange(k as int, end as int),
                        v,
                    ),
            decreases end - k,
        {
            let v: u32 = self.history[k];
            assert(old(self).cache()[k - self.head] == v);
            self.present[v as usize] = false;
            proof {
                let rest = self.history@.subrange(k as int, end as int);
                let next = self.history@.subrange(k + 1, end as int);
                assert forall|w: int| 0 <= w < self.present@.len() implies (
                #[trigger] self.present@[w]) == in_cache(next, w) by {
                    if in_cache(next, w) {
                        let x = choose|x: int| 0 <= x < next.len() && #[trigger] next[x] == w;
                        assert(rest[x + 1] == w);
                        if w == v {
                            assert(old(self).cache()[k - self.head] == old(self).cache()[k + 1 + x
                                - self.head]);
                        }
                    } else if in_cache(rest, w) {
                        let x = choose|x: int| 0 <= x < rest.len() && #[trigger] rest[x] == w;
                        if x > 0 {
                            assert(next[x - 1] == w);
                        }
                    }
                }
            }
            k = k + 1;
        }
        self.head = end;
        if self.warp > 0 {
            self.warps = self.warps + 1;
        }
        self.warp = 0;
        self.prim = 0;
        assert(self.cache() =~= Seq::<u32>::empty());
    }

    /// Asks for the vertex `v`.
    fn touch(&mut self, v: u32, cache_size: usize)
        requires
            old(self).wf(cache_size as int),
            v < old(self).present@.len(),
            old(self).warp < usize::MAX,
            old(self).transformed < usize::MAX,
        ensures
            final(self).wf(cache_size as int),
            final(self).present@.len() == old(self).present@.len(),
            final(self).model() == sim_vertex(old(self).model(), v, cache_size as int),
    {
        if self.present[v as usize] {
            return ;
        }
        let ghost before = self.cache();
        self.transformed = self.transformed + 1;
        self.warp = self.warp + 1;
        if cache_size == 0 {
            assert(self.cache() =~= cache_push(before, v, 0));
            return ;
        }
        if self.history.len() - self.head >= cache_size {
            let oldest: u32 = self.history[self.head];
            assert(before[0] == oldest);
            self.present[oldest as usize] = false;
            self.head = self.head + 1;
            proof {
                let now = self.cache();
                assert(now =~= before.subrange(1, before.len() as int));
                assert forall|w: int| 0 <= w < self.present@.len() implies (
                #[trigger] self.present@[w]) == in_cache(now, w) by {
                    if in_cache(now, w) {
                        let x = choose|x: int| 0 <= x < now.len() && #[trigger] now[x] == w;
                        assert(before[x + 1] == w);
                        if w == oldest {
                            assert(before[0] == before[x + 1]);
                        }
                    } else if in_cache(before, w) {
                        let x = choose|x: int| 0 <= x < before.len() && #[trigger] before[x] == w;
                        if x > 0 {
                            assert(now[x - 1] == w);
                        }
                    }
                }
            }
        }
        let ghost kept = self.cache();
        self.history.push(v);
        self.present[v as usize] = true;
        proof {
            let now = self.cache();
            assert(now =~= kept.push(v));
            assert(now =~= cache_push(before, v, cache_size as int));
            assert forall|w: int| 0 <= w < self.present@.len() implies (
            #[trigger] self.present@[w]) == in_cache(now, w) by {
                if in_cache(now, w) {
                    let x = choose|x: int| 0 <= x < now.len() && #[trigger] now[x] == w;
                    if x < kept.len() {
                        assert(kept[x] == w);
                    }
                } else {
                    if in_cache(kept, w) {
                        let x = choose|x: int| 0 <= x < kept.len() && #[trigger] kept[x] == w;
                        assert(now[x] == w);
                    }
                    assert(now[kept.len() as int] == v);
                }
            }
            assert(now.no_duplicates()) by {
                assert forall|x: int, y: int|
                    0 <= x < now.len() && 0 <= y < now.len() && x != y implies now[x]
                    != now[y] by {
                    if x < kept.len() && y < kept.len() {
                        assert(kept[x] != kept[y]);
                    } else if x < kept.len() {
                        assert(kept[x] == now[x]);
                        assert(in_cache(kept, now[x] as int));
                    } else if y < kept.len() {
                        assert(kept[y] == now[y]);
                        assert(in_cache(kept, now[y] as int));
                    }
                }
            }
        }
    }
}

impl CacheState {
    /// Draws the triangle `t` and returns how many of its corners were
    /// transformed.
    pub(crate) fn draw(&mut self, t: (u32, u32, u32), cache_size: usize) -> (m: usize)
        requires
            old(self).wf(cache_size as int),
            t.0 < old(self).vertex_count(),
            t.1 < old(self).vertex_count(),
            t.2 < old(self).vertex_count(),
        ensures
            final(self).wf(cache_size as int),
            final(self).vertex_count() == old(self).vertex_count(),
            final(self).cache() == cache_after(old(self).cache(), t, cache_size as int),
            m == triangle_misses(old(self).cache(), t, cache_size as int),
            m <= 3,
    {
        reveal(cache_after);
        reveal(triangle_misses);
        self.transformed = 0;
        self.warp = 0;
        self.touch(t.0, cache_size);
        self.touch(t.1, cache_size);
        self.touch(t.2, cache_size);
        self.transformed
    }

    /// Empties the cache.
    pub(crate) fn clear(&mut self, cache_size: usize)
        requires
            old(self).wf(cache_size as int),
        ensures
            final(self).wf(cache_size as int),
            final(self).vertex_count() == old(self).vertex_count(),
            final(self).cache() == Seq::<u32>::empty(),
    {
        self.warps = 0;
        self.flush(cache_size);
    }
}

/// Simulates a vertex cache on `indices` and counts what it costs.
///
/// `cache_size` is the size of the cache, `warp_size` the most vertices in a
/// warp, `primgroup_size` the most triangles in a group; 0 stands for no
/// limit on warps or groups.
pub fn analyze_vertex_cache(
    indices: &[u32],
    vertex_count: usize,
    cache_size: usize,
    warp_size: usize,
    primgroup_size: usize,
) -> (r: VertexCacheStatistics)
    requires
        valid_index_stream(indices@, vertex_count as int),
    ensures
        r.triangle_count == indices@.len() / 3,
        r.vertices_transformed == sim_run(
            indices@,
            indices@.len() as int / 3,
            cache_size as int,
            warp_size as int,
            primgroup_size as int,
        ).transformed,
        r.warps_executed == sim_run(
            indices@,
            indices@.len() as int / 3,
            cache_size as int,
            warp_size as int,
            primgroup_size as int,
        ).warps + if sim_run(
            indices@,
            indices@.len() as int / 3,
            cache_size as int,
            warp_size as int,
            primgroup_size as int,
        ).warp > 0 {
            1int
        } else {
            0int
        },
        r.unique_vertices == touch_count(indices@, indices@.len() as int),
{
    let n: usize = indices.len() / 3;
    let mut state = CacheState::new(vertex_count);
    let mut i: usize = 0;
    while i < n
        invariant
            i <= n,
            3 * n <= indices.len(),
            valid_index_stream(indices@, vertex_count as int),
            state.wf(cache_size as int),
            state.present@.len() == vertex_count,
            state.model() == sim_run(
                indices@,
                i as int,
                cache_size as int,
                warp_size as int,
                primgroup_size as int,
            ),
            state.transformed <= 3 * i,
            state.warp <= 3 * i,
            state.warps <= i,
            state.prim <= i,
        decreases n - i,
    {
        let a: u32 = indices[3 * i];
        let b: u32 = indices[3 * i + 1];
        let c: u32 = indices[3 * i + 2];
        assert((a, b, c) == tri_at(indices@, i as int));
        let mut missing: usize = 0;
        if !state.holds(a, cache_size) {
            missing = missing + 1;
        }
        if !state.holds(b, cache_size) {
            missing = missing + 1;
        }
        if !state.holds(c, cache_size) {
            missing = missing + 1;
        }
        if (primgroup_size > 0 && state.prim == primgroup_size) || (warp_size > 0 && state.warp
            + missing > warp_size) {
            state.flush(cache_size);
        }
        state.touch(a, cache_size);
        state.touch(b, cache_size);
        state.touch(c, cache_size);
        state.prim = state.prim + 1;
        i = i + 1;
    }
    let unique: usize = count_unique(indices, vertex_count);
    VertexCacheStatistics {
        vertices_transformed: state.transformed,
        warps_executed: state.warps + if state.warp > 0 {
            1usize
        } else {
            0usize
        },
        triangle_count: n,
        unique_vertices: unique,
    }
}

/// The size in bytes of a line of the simulated memory cache.
pub const FETCH_LINE_SIZE: usize = 64;

/// How many lines the simulated memory cache has.
pub const FETCH_LINE_COUNT: usize = 2048;

/// The state of the memory cache between two lines: for every place of the
/// cache the number of the memory line that it holds, counted from 1, or 0
/// for none; and the bytes fetched so far.
pub struct FetchSim {
    /// What every place of the cache holds.
    pub lines: Seq<int>,
    /// How many bytes were fetched from memory.
    pub bytes: int,
}

/// The state before the first fetch.
pub open spec fn fetch_start() -> FetchSim {
    FetchSim { lines: Seq::new(FETCH_LINE_COUNT as nat, |k: int| 0int), bytes: 0 }
}

/// The state once the memory line `tag` was asked for: a line goes to the
/// place that its number names, and is fetched unless that place holds it.
pub open spec fn fetch_line(s: FetchSim, tag: int) -> FetchSim {
    let place = tag % (FETCH_LINE_COUNT as int);
    FetchSim {
        lines: s.lines.update(place, tag + 1),
        bytes: s.bytes + if s.lines[place] == tag + 1 {
            0int
        } else {
            FETCH_LINE_SIZE as int
        },
    }
}

/// The state once the memory lines from `from` up to `to` were asked for.
pub open spec fn fetch_lines(s: FetchSim, from: int, to: int) -> FetchSim
    decreases to - from,
{
    if from >= to {
        s
    } else {
        fetch_line(fetch_lines(s, from, to - 1), to - 1)
    }
}

/// The cache keeps its places, whatever is asked for.
pub proof fn lemma_fetch_lines_len(s: FetchSim, from: int, to: int)
    requires
        s.lines.len() == FETCH_LINE_COUNT,
    ensures
        fetch_lines(s, from, to).lines.len() == s.lines.len(),
    decreases to - from,
{
    if from < to {
        lemma_fetch_lines_len(s, from, to - 1);
    }
}

/// The cache keeps its places through a whole stream.
pub proof fn lemma_fetch_run_len(indices: Seq<u32>, i: int, vertex_size: int)
    ensures
        fetch_run(indices, i, vertex_size).lines.len() == FETCH_LINE_COUNT,
    decreases i,
{
    if i > 0 {
        let v = indices[i - 1] as int;
        lemma_fetch_run_len(indices, i - 1, vertex_size);
        lemma_fetch_lines_len(
            fetch_run(indices, i - 1, vertex_size),
            (v * vertex_size) / (FETCH_LINE_SIZE as int),
            last_line(v, vertex_size),
        );
    }
}

/// The memory line behind the last byte of the vertex `v`.
pub open spec fn last_line(v: int, vertex_size: int) -> int {
    (v * vertex_size + vertex_size + FETCH_LINE_SIZE - 1) / (FETCH_LINE_SIZE as int)
}

/// The state once the vertices of the first `i` indices were fetched, each
/// with all the memory lines that it touches.
pub open spec fn fetch_run(indices: Seq<u32>, i: int, vertex_size: int) -> FetchSim
    decreases i,
{
    if i <= 0 {
        fetch_start()
    } else {
        let v = indices[i - 1] as int;
        fetch_lines(
            fetch_run(indices, i - 1, vertex_size),
            (v * vertex_size) / (FETCH_LINE_SIZE as int),
            last_line(v, vertex_size),
        )
    }
}

/// What the simulation of vertex fetches counts.
#[derive(Debug, Clone, Copy, PartialEq, Eq, Structural)]
pub struct VertexFetchStatistics {
    /// How many bytes were fetched from memory.
    pub bytes_fetched: usize,
    /// How many different vertices the stream names.
    pub unique_vertices: usize,
    /// The size in bytes of a vertex.
    pub vertex_size: usize,
}

/// Simulates the memory cache behind the vertex buffer on `indices` and
/// counts the bytes that are fetched.
///
/// The overfetch of the stream is the quotient of the bytes fetched and the
/// bytes of the vertices that it names. Where the count of bytes does not
/// fit, the largest number is returned for it.
pub fn analyze_vertex_fetch(indices: &[u32], vertex_count: usize, vertex_size: usize) -> (r:
    VertexFetchStatistics)
    requires
        valid_index_stream(indices@, vertex_count as int),
    ensures
        r.vertex_size == vertex_size,
        r.unique_vertices == touch_count(indices@, indices@.len() as int),
        r.bytes_fetched == if fetch_run(indices@, indices@.len() as int, vertex_size as int).bytes
            <= usize::MAX {
            fetch_run(indices@, indices@.len() as int, vertex_size as int).bytes
        } else {
            usize::MAX as int
        },
{
    let mut lines: Vec<u128> = Vec::new();
    let mut k: usize = 0;
    while k < FETCH_LINE_COUNT
        invariant
            k <= FETCH_LINE_COUNT,
            lines@.len() == k,
            forall|j: int| 0 <= j < k ==> lines@[j] == 0,
        decreases FETCH_LINE_COUNT - k,
    {
        lines.push(0);
        k = k + 1;
    }
    let mut bytes: usize = 0;
    let mut i: usize = 0;
    while i < indices.len()
        invariant
            i <= indices.len(),
            lines@.len() == FETCH_LINE_COUNT,
            0 <= fetch_run(indices@, i as int, vertex_size as int).bytes,
            bytes == if fetch_run(indices@, i as int, vertex_size as int).bytes <= usize::MAX {
                fetch_run(indices@, i as int, vertex_size as int).bytes
            } else {
                usize::MAX as int
            },
            forall|j: int|
                0 <= j < FETCH_LINE_COUNT ==> (#[trigger] lines@[j]) as int == fetch_run(
                    indices@,
                    i as int,
                    vertex_size as int,
                ).lines[j],
        decreases indices.len() - i,
    {
        let v: u128 = indices[i] as u128;
        let size: u128 = vertex_size as u128;
        assert(v * size <= 0xffff_ffff * 0xffff_ffff_ffff_ffff) by (nonlinear_arith)
            requires
                0 <= v <= 0xffff_ffff,
                0 <= size <= 0xffff_ffff_ffff_ffff,
        ;
        let first: u128 = (v * size) / 64;
        let last: u128 = (v * size + size + 63) / 64;
        let ghost start = fetch_run(indices@, i as int, vertex_size as int);
        proof {
            lemma_fetch_run_len(indices@, i as int, vertex_size as int);
        }
        let mut tag: u128 = first;
        while tag < last
            invariant
                first <= tag <= last,
                last <= 0x1_0000_0000_0000_0000_0000_0000,
                lines@.len() == FETCH_LINE_COUNT,
                start.lines.len() == FETCH_LINE_COUNT,
                0 <= fetch_lines(start, first as int, tag as int).bytes,
                bytes == if fetch_lines(start, first as int, tag as int).bytes <= usize::MAX {
                    fetch_lines(start, first as int, tag as int).bytes
                } else {
                    usize::MAX as int
                },
                forall|j: int|
                    0 <= j < FETCH_LINE_COUNT ==> (#[trigger] lines@[j]) as int == fetch_lines(
                        start,
                        first as int,
                        tag as int,
                    ).lines[j],
            decreases last - tag,
        {
            proof {
                lemma_fetch_lines_len(start, first as int, tag as int);
            }
            let place: usize = (tag % 2048) as usize;
            if lines[place] != tag + 1 {
                bytes = match bytes.checked_add(FETCH_LINE_SIZE) {
                    Some(more) => more,
                    None => usize::MAX,
                };
            }
            lines[place] = tag + 1;
            tag = tag + 1;
        }
        i = i + 1;
    }
    let unique: usize = count_unique(indices, vertex_count);
    VertexFetchStatistics { bytes_fetched: bytes, unique_vertices: unique, vertex_size }
}

/// How many different vertices `indices` names.
fn count_unique(indices: &[u32], vertex_count: usize) -> (unique: usize)
    requires
        valid_index_stream(indices@, vertex_count as int),
    ensures
        unique == touch_count(indices@, indices@.len() as int),
{
    let mut seen: Vec<bool> = Vec::new();
    let mut v: usize = 0;
    while v < vertex_count
        invariant
            v <= vertex_count,
            seen@.len() == v,
            forall|k: int| 0 <= k < v ==> !seen@[k],
        decreases vertex_count - v,
    {
        seen.push(false);
        v = v + 1;
    }
    let mut unique: usize = 0;
    let mut k: usize = 0;
    while k < indices.len()
        invariant
            k <= indices.len(),
            valid_index_stream(indices@, vertex_count as int),
            seen@.len() == vertex_count,
            unique == touch_count(indices@, k as int),
            unique <= k,
            forall|w: int|
                0 <= w < vertex_count ==> (#[trigger] seen@[w]) == touched(indices@, k as int, w),
        decreases indices.len() - k,
    {
        let x: usize = indices[k] as usize;
        if !seen[x] {
            seen[x] = true;
            unique = unique + 1;
        }
        proof {
            assert forall|w: int| 0 <= w < vertex_count implies (#[trigger] seen@[w]) == touched(
                indices@,
                k + 1,
                w,
            ) by {
                if touched(indices@, k + 1, w) {
                    let j = choose|j: int|
                        0 <= j < k + 1 && j < indices@.len() && #[trigger] indices@[j] == w;
                    if j < k {
                        assert(touched(indices@, k as int, w));
                    }
                } else if touched(indices@, k as int, w) {
                    let j = choose|j: int|
                        0 <= j < k && j < indices@.len() && #[trigger] indices@[j] == w;
                    assert(indices@[j] == w);
                }
                if w == x {
                    assert(indices@[k as int] == w);
                }
            }
        }
        k = k + 1;
    }
    unique
}

} // verus!
