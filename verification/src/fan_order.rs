//! The fanned order: the triangles around one vertex after the other.
//!
//! All triangles of the current vertex that are not drawn yet are drawn, in
//! the order of the input. The next vertex is picked among the corners just
//! drawn: one that still has triangles, by preference one whose triangles can
//! all be drawn before it leaves a first-in-first-out cache of the given
//! size, and among those the one that entered the cache first. Where no
//! corner has triangles left, the vertices drawn earlier are tried, latest
//! first, and then the vertices of the mesh in their order. Triangles that
//! name a corner twice belong to no vertex and are drawn at the end.

use vstd::prelude::*;
use crate::adjacency::{degenerate, is_degenerate, CornerChains};
use crate::indices::{tri_at, valid_index_stream};
use crate::reorder::{completed, is_reordering, ordered, Emitter};
use crate::vertex_fetch::{first_touch, lemma_first_touch};

verus! {

/// The count of `v` in `counts`, one up.
pub open spec fn count_up(counts: Seq<u32>, v: u32) -> Seq<u32> {
    counts.update(v as int, vstd::wrapping::u32_specs::wrapping_add(counts[v as int], 1))
}

/// The count of `v` in `counts`, one down.
pub open spec fn count_down(counts: Seq<u32>, v: u32) -> Seq<u32> {
    counts.update(v as int, vstd::wrapping::u32_specs::wrapping_sub(counts[v as int], 1))
}

/// For every vertex the number of the first `i` triangles that have it as a
/// corner, triangles that name a corner twice left out.
pub open spec fn valences(indices: Seq<u32>, vertex_count: int, i: int) -> Seq<u32>
    decreases i,
{
    if i <= 0 {
        Seq::new(vertex_count as nat, |v: int| 0u32)
    } else {
        let counts = valences(indices, vertex_count, i - 1);
        let t = tri_at(indices, i - 1);
        if degenerate(t) {
            counts
        } else {
            count_up(count_up(count_up(counts, t.0), t.1), t.2)
        }
    }
}

/// What the fanned order keeps between two triangles.
pub struct FanModel {
    /// The triangles drawn so far.
    pub order: Seq<int>,
    /// For every vertex the number of its triangles that are not drawn yet.
    pub live: Seq<u32>,
    /// For every vertex the time at which it last entered the cache.
    pub stamps: Seq<u64>,
    /// The time.
    pub stamp: u64,
    /// The corners drawn so far that were not tried as a dead end yet.
    pub drawn: Seq<u32>,
    /// The first vertex of the mesh that was not tried as a dead end yet.
    pub cursor: int,
}

/// The state once the vertex `v` was asked of the cache: it enters unless it
/// is among the `cache_size` vertices that entered last.
pub open spec fn stamp_vertex(m: FanModel, v: u32, cache_size: u64) -> FanModel {
    if vstd::wrapping::u64_specs::wrapping_sub(m.stamp, m.stamps[v as int]) > cache_size {
        FanModel {
            stamps: m.stamps.update(v as int, m.stamp),
            stamp: vstd::wrapping::u64_specs::wrapping_add(m.stamp, 1),
            ..m
        }
    } else {
        m
    }
}

/// The state once the triangle `t` was looked at: it is drawn unless it is
/// drawn already or names a corner twice.
pub open spec fn fan_visit(indices: Seq<u32>, m: FanModel, t: int, cache_size: u64) -> FanModel {
    let c = tri_at(indices, t);
    if degenerate(c) || m.order.contains(t) {
        m
    } else {
        let m1 = FanModel {
            order: m.order.push(t),
            drawn: m.drawn.push(c.0).push(c.1).push(c.2),
            live: count_down(count_down(count_down(m.live, c.0), c.1), c.2),
            ..m
        };
        stamp_vertex(stamp_vertex(stamp_vertex(m1, c.0, cache_size), c.1, cache_size), c.2, cache_size)
    }
}

/// The state once the triangles of the vertex `v` were looked at whose
/// corner `v` stands at or behind the position `p`.
pub open spec fn fan_from(indices: Seq<u32>, m: FanModel, v: int, p: int, cache_size: u64)
    -> FanModel
    decreases indices.len() - p,
{
    if p < 0 || p >= indices.len() {
        m
    } else if indices[p] == v {
        fan_from(indices, fan_visit(indices, m, p / 3, cache_size), v, p + 1, cache_size)
    } else {
        fan_from(indices, m, v, p + 1, cache_size)
    }
}

/// How good the vertex `v` is as the next to fan around: 0 if it has no
/// triangle left, else 1, or its age in the cache and 1 if it stays in the
/// cache while its triangles are drawn.
pub open spec fn neighbor_rank(m: FanModel, v: u32, cache_size: u64) -> u64 {
    let left = m.live[v as int];
    let age = vstd::wrapping::u64_specs::wrapping_sub(m.stamp, m.stamps[v as int]);
    let needs = vstd::wrapping::u64_specs::wrapping_add(
        vstd::wrapping::u64_specs::wrapping_mul(left as u64, 2),
        age,
    );
    if left == 0 {
        0
    } else if needs <= cache_size {
        vstd::wrapping::u64_specs::wrapping_add(age, 1)
    } else {
        1
    }
}

/// The best of the corners drawn from the position `k` of the stack on, given
/// the best `best` with the rank `rank` in front of `k`: the first of the
/// highest rank above 0.
pub open spec fn neighbor_from(
    m: FanModel,
    k: int,
    best: Option<int>,
    rank: u64,
    cache_size: u64,
) -> Option<int>
    decreases m.drawn.len() - k,
{
    if k < 0 || k >= m.drawn.len() {
        best
    } else {
        let v = m.drawn[k];
        let r = neighbor_rank(m, v, cache_size);
        if r > 0 && (best.is_none() || r > rank) {
            neighbor_from(m, k + 1, Some(v as int), r, cache_size)
        } else {
            neighbor_from(m, k + 1, best, rank, cache_size)
        }
    }
}

/// The latest corner on the stack that still has triangles, and the stack
/// without it and without those above it; nothing and the empty stack if
/// there is none.
pub open spec fn pop_dead_end(drawn: Seq<u32>, live: Seq<u32>) -> (Option<int>, Seq<u32>)
    decreases drawn.len(),
{
    if drawn.len() == 0 {
        (None, drawn)
    } else if live[drawn.last() as int] > 0 {
        (Some(drawn.last() as int), drawn.drop_last())
    } else {
        pop_dead_end(drawn.drop_last(), live)
    }
}

/// The first vertex at or behind `cursor` that still has triangles; the
/// number of vertices if there is none.
pub open spec fn scan_live(live: Seq<u32>, cursor: int) -> int
    decreases live.len() - cursor,
{
    if cursor < 0 || cursor >= live.len() {
        live.len() as int
    } else if live[cursor] > 0 {
        cursor
    } else {
        scan_live(live, cursor + 1)
    }
}

/// The vertex to go on with where no corner just drawn has triangles left,
/// and the state without the vertices that were tried.
pub open spec fn dead_end(m: FanModel) -> (Option<int>, FanModel) {
    let (v, rest) = pop_dead_end(m.drawn, m.live);
    if v.is_some() {
        (v, FanModel { drawn: rest, ..m })
    } else {
        let c = scan_live(m.live, m.cursor);
        (
            if c < m.live.len() {
                Some(c)
            } else {
                None
            },
            FanModel { drawn: rest, cursor: c, ..m },
        )
    }
}

/// The state at the end of the fanned order, from the state `m` with the
/// vertex `current` to fan around and at most `left` triangles to draw.
pub open spec fn fan_run(
    indices: Seq<u32>,
    m: FanModel,
    current: Option<int>,
    cache_size: u64,
    left: int,
) -> FanModel
    decreases left,
{
    if left <= 0 || current.is_none() {
        m
    } else {
        let m1 = fan_from(indices, m, current.unwrap(), 0, cache_size);
        let emitted = m1.order.len() - m.order.len();
        if emitted <= 0 || emitted > left {
            m1
        } else {
            let near = neighbor_from(m1, m.drawn.len() as int, None, 0, cache_size);
            if near.is_some() {
                fan_run(indices, m1, near, cache_size, left - emitted)
            } else {
                fan_run(indices, dead_end(m1).1, dead_end(m1).0, cache_size, left - emitted)
            }
        }
    }
}

/// The state before the first triangle.
pub open spec fn fan_start(indices: Seq<u32>, vertex_count: int, cache_size: u64) -> FanModel {
    FanModel {
        order: Seq::<int>::empty(),
        live: valences(indices, vertex_count, indices.len() as int / 3),
        stamps: Seq::new(vertex_count as nat, |v: int| 0u64),
        stamp: vstd::wrapping::u64_specs::wrapping_add(cache_size, 1),
        drawn: Seq::<u32>::empty(),
        cursor: 0,
    }
}

/// The fanned order of the triangles of `indices` for a cache of
/// `cache_size` vertices.
pub open spec fn fanned_order(indices: Seq<u32>, vertex_count: int, cache_size: u64) -> Seq<int> {
    let n = indices.len() as int / 3;
    let m0 = fan_start(indices, vertex_count, cache_size);
    completed(fan_run(indices, dead_end(m0).1, dead_end(m0).0, cache_size, n).order, n, 0)
}

/// Positions that do not name the vertex `v` change nothing.
pub proof fn lemma_fan_skip(indices: Seq<u32>, m: FanModel, v: int, p: int, cache_size: u64)
    requires
        0 <= p <= indices.len(),
    ensures
        fan_from(indices, m, v, p, cache_size) == fan_from(
            indices,
            m,
            v,
            first_touch(indices, v, p),
            cache_size,
        ),
    decreases indices.len() - p,
{
    if p < indices.len() && indices[p] != v {
        lemma_fan_skip(indices, m, v, p + 1, cache_size);
    }
}

/// The fanned order as compiled code holds it.
struct FanState {
    emitter: Emitter,
    live: Vec<u32>,
    stamps: Vec<u64>,
    stamp: u64,
    drawn: Vec<u32>,
    cursor: usize,
}

impl FanState {
    spec fn model(&self) -> FanModel {
        FanModel {
            order: self.emitter.spec_order(),
            live: self.live@,
            stamps: self.stamps@,
            stamp: self.stamp,
            drawn: self.drawn@,
            cursor: self.cursor as int,
        }
    }

    spec fn wf(&self, indices: Seq<u32>, vertex_count: int) -> bool {
        &&& valid_index_stream(indices, vertex_count)
        &&& self.emitter.wf(indices)
        &&& self.live@.len() == vertex_count
        &&& self.stamps@.len() == vertex_count
        &&& self.cursor <= vertex_count
        &&& forall|k: int| 0 <= k < self.drawn@.len() ==> (#[trigger] self.drawn@[k]) < vertex_count
    }

    /// Asks the cache for the vertex `v`.
    fn stamp_vertex(&mut self, v: u32, cache_size: u64, Ghost(indices): Ghost<Seq<u32>>)
        requires
            old(self).wf(indices, old(self).live@.len() as int),
            v < old(self).live@.len(),
        ensures
            final(self).wf(indices, old(self).live@.len() as int),
            final(self).model() == stamp_vertex(old(self).model(), v, cache_size),
    {
        let age: u64 = self.stamp.wrapping_sub(self.stamps[v as usize]);
        if age > cache_size {
            self.stamps[v as usize] = self.stamp;
            self.stamp = self.stamp.wrapping_add(1);
        }
    }

    /// Looks at the triangle `t`.
    fn visit(&mut self, indices: &[u32], t: usize, cache_size: u64)
        requires
            old(self).wf(indices@, old(self).live@.len() as int),
            t < indices@.len() / 3,
        ensures
            final(self).wf(indices@, old(self).live@.len() as int),
            final(self).model() == fan_visit(indices@, old(self).model(), t as int, cache_size),
            final(self).live@.len() == old(self).live@.len(),
    {
        let total: usize = indices.len();
        let c = (indices[3 * t], indices[3 * t + 1], indices[3 * t + 2]);
        assert(c == tri_at(indices@, t as int));
        proof {
            self.emitter.lemma_order(indices@);
        }
        if is_degenerate(c) || self.emitter.is_done(indices, t) {
            return ;
        }
        let emitted = self.emitter.try_emit(indices, t);
        assert(emitted);
        self.drawn.push(c.0);
        self.drawn.push(c.1);
        self.drawn.push(c.2);
        let a: u32 = self.live[c.0 as usize];
        self.live[c.0 as usize] = a.wrapping_sub(1);
        let b: u32 = self.live[c.1 as usize];
        self.live[c.1 as usize] = b.wrapping_sub(1);
        let d: u32 = self.live[c.2 as usize];
        self.live[c.2 as usize] = d.wrapping_sub(1);
        self.stamp_vertex(c.0, cache_size, Ghost(indices@));
        self.stamp_vertex(c.1, cache_size, Ghost(indices@));
        self.stamp_vertex(c.2, cache_size, Ghost(indices@));
    }

    /// Draws the triangles of the vertex `v` that are not drawn yet.
    fn fan(&mut self, indices: &[u32], chains: &CornerChains, v: usize, cache_size: u64)
        requires
            old(self).wf(indices@, old(self).live@.len() as int),
            chains.wf(indices@, old(self).live@.len() as int),
            v < old(self).live@.len(),
        ensures
            final(self).wf(indices@, old(self).live@.len() as int),
            final(self).live@.len() == old(self).live@.len(),
            final(self).model() == fan_from(indices@, old(self).model(), v as int, 0, cache_size),
    {
        let total: usize = indices.len();
        proof {
            chains.lemma_vertex_count(indices@, self.live@.len() as int);
            lemma_fan_skip(indices@, self.model(), v as int, 0, cache_size);
            lemma_first_touch(indices@, v as int, 0);
        }
        let mut p: usize = chains.first(v, Ghost(indices@));
        while p < total
            invariant
                p <= total,
                total == indices@.len(),
                self.wf(indices@, old(self).live@.len() as int),
                self.live@.len() == old(self).live@.len(),
                chains.wf(indices@, old(self).live@.len() as int),
                chains.spec_vertex_count() == old(self).live@.len(),
                p < total ==> indices@[p as int] == v,
                fan_from(indices@, self.model(), v as int, p as int, cache_size) == fan_from(
                    indices@,
                    old(self).model(),
                    v as int,
                    0,
                    cache_size,
                ),
            decreases total - p,
        {
            self.visit(indices, p / 3, cache_size);
            proof {
                lemma_fan_skip(indices@, self.model(), v as int, p + 1, cache_size);
                lemma_first_touch(indices@, v as int, p + 1);
            }
            p = chains.after(p, Ghost(indices@));
        }
    }

    /// The rank of the vertex `v` as the next to fan around.
    fn rank(&self, v: u32, cache_size: u64) -> (r: u64)
        requires
            v < self.live@.len(),
            self.stamps@.len() == self.live@.len(),
        ensures
            r == neighbor_rank(self.model(), v, cache_size),
    {
        let left: u32 = self.live[v as usize];
        let age: u64 = self.stamp.wrapping_sub(self.stamps[v as usize]);
        let needs: u64 = (left as u64).wrapping_mul(2).wrapping_add(age);
        if left == 0 {
            0
        } else if needs <= cache_size {
            age.wrapping_add(1)
        } else {
            1
        }
    }

    /// The best of the corners drawn from the position `from` of the stack
    /// on.
    fn neighbor(&self, from: usize, cache_size: u64, Ghost(indices): Ghost<Seq<u32>>) -> (best:
        Option<usize>)
        requires
            self.wf(indices, self.live@.len() as int),
        ensures
            match best {
                Some(v) => v < self.live@.len() && neighbor_from(
                    self.model(),
                    from as int,
                    None,
                    0,
                    cache_size,
                ) == Some(v as int),
                None => neighbor_from(self.model(), from as int, None, 0, cache_size).is_none(),
            },
    {
        let mut best: Option<usize> = None;
        let mut best_rank: u64 = 0;
        let mut k: usize = from;
        while k < self.drawn.len()
            invariant
                self.wf(indices, self.live@.len() as int),
                match best {
                    Some(v) => v < self.live@.len() && neighbor_from(
                        self.model(),
                        k as int,
                        Some(v as int),
                        best_rank,
                        cache_size,
                    ) == neighbor_from(self.model(), from as int, None, 0, cache_size),
                    None => neighbor_from(self.model(), k as int, None, best_rank, cache_size)
                        == neighbor_from(self.model(), from as int, None, 0, cache_size),
                },
            decreases self.drawn@.len() - k,
        {
            let v: u32 = self.drawn[k];
            let r: u64 = self.rank(v, cache_size);
            if r > 0 && (best.is_none() || r > best_rank) {
                best = Some(v as usize);
                best_rank = r;
            }
            k = k + 1;
        }
        best
    }

    /// The vertex to go on with where no corner just drawn has triangles
    /// left.
    fn dead_end(&mut self, Ghost(indices): Ghost<Seq<u32>>) -> (v: Option<usize>)
        requires
            old(self).wf(indices, old(self).live@.len() as int),
        ensures
            final(self).wf(indices, old(self).live@.len() as int),
            final(self).live@.len() == old(self).live@.len(),
            final(self).model() == dead_end(old(self).model()).1,
            match v {
                Some(w) => w < old(self).live@.len() && dead_end(old(self).model()).0 == Some(
                    w as int,
                ),
                None => dead_end(old(self).model()).0.is_none(),
            },
    {
        let ghost start = self.model();
        while self.drawn.len() > 0
            invariant
                self.wf(indices, old(self).live@.len() as int),
                self.live@ == old(self).live@,
                self.stamps@ == old(self).stamps@,
                self.stamp == old(self).stamp,
                self.cursor == old(self).cursor,
                self.emitter.spec_order() == old(self).emitter.spec_order(),
                start == old(self).model(),
                pop_dead_end(self.drawn@, self.live@) == pop_dead_end(start.drawn, start.live),
            decreases self.drawn@.len(),
        {
            let ghost before = self.drawn@;
            let v: u32 = self.drawn[self.drawn.len() - 1];
            self.drawn.pop();
            assert(self.drawn@ =~= before.drop_last());
            assert(before.last() == v);
            if self.live[v as usize] > 0 {
                proof {
                    assert(pop_dead_end(before, self.live@) == (
                        Some(v as int),
                        before.drop_last(),
                    ));
                    assert(self.model() =~= dead_end(start).1);
                }
                return Some(v as usize);
            }
        }
        let vertex_count: usize = self.live.len();
        while self.cursor < vertex_count
            invariant
                self.wf(indices, old(self).live@.len() as int),
                vertex_count == self.live@.len(),
                self.live@ == old(self).live@,
                self.stamps@ == old(self).stamps@,
                self.stamp == old(self).stamp,
                self.drawn@.len() == 0,
                self.emitter.spec_order() == old(self).emitter.spec_order(),
                start == old(self).model(),
                pop_dead_end(start.drawn, start.live) == (None::<int>, self.drawn@),
                scan_live(self.live@, self.cursor as int) == scan_live(start.live, start.cursor),
            decreases vertex_count - self.cursor,
        {
            if self.live[self.cursor] > 0 {
                proof {
                    assert(scan_live(self.live@, self.cursor as int) == self.cursor);
                    assert(self.model() =~= dead_end(start).1);
                }
                return Some(self.cursor);
            }
            self.cursor = self.cursor + 1;
        }
        proof {
            assert(scan_live(self.live@, self.cursor as int) == self.live@.len());
            assert(self.model() =~= dead_end(start).1);
        }
        None
    }
}

/// For every vertex the number of the triangles that have it as a corner,
/// triangles that name a corner twice left out.
pub fn count_valences(indices: &[u32], vertex_count: usize) -> (counts: Vec<u32>)
    requires
        valid_index_stream(indices@, vertex_count as int),
    ensures
        counts@ == valences(indices@, vertex_count as int, indices@.len() as int / 3),
        counts@.len() == vertex_count,
{
    let total: usize = indices.len();
    let n: usize = total / 3;
    let mut counts: Vec<u32> = Vec::new();
    let mut v: usize = 0;
    while v < vertex_count
        invariant
            v <= vertex_count,
            counts@.len() == v,
            forall|k: int| 0 <= k < v ==> counts@[k] == 0,
        decreases vertex_count - v,
    {
        counts.push(0);
        v = v + 1;
    }
    assert(counts@ =~= valences(indices@, vertex_count as int, 0));
    let mut t: usize = 0;
    while t < n
        invariant
            t <= n,
            n == total / 3,
            total == indices@.len(),
            valid_index_stream(indices@, vertex_count as int),
            counts@.len() == vertex_count,
            counts@ == valences(indices@, vertex_count as int, t as int),
        decreases n - t,
    {
        let c = (indices[3 * t], indices[3 * t + 1], indices[3 * t + 2]);
        assert(c == tri_at(indices@, t as int));
        if !is_degenerate(c) {
            let a: u32 = counts[c.0 as usize];
            counts[c.0 as usize] = a.wrapping_add(1);
            let b: u32 = counts[c.1 as usize];
            counts[c.1 as usize] = b.wrapping_add(1);
            let d: u32 = counts[c.2 as usize];
            counts[c.2 as usize] = d.wrapping_add(1);
        }
        t = t + 1;
    }
    counts
}

/// A list of `n` zeros.
fn zero_stamps(n: usize) -> (v: Vec<u64>)
    ensures
        v@ == Seq::new(n as nat, |k: int| 0u64),
{
    let mut v: Vec<u64> = Vec::new();
    let mut i: usize = 0;
    while i < n
        invariant
            i <= n,
            v@.len() == i,
            forall|k: int| 0 <= k < i ==> v@[k] == 0,
        decreases n - i,
    {
        v.push(0);
        i = i + 1;
    }
    assert(v@ =~= Seq::new(n as nat, |k: int| 0u64));
    v
}

/// The triangles of `indices` in the fanned order for a cache of
/// `cache_size` vertices.
pub fn fanned(indices: &[u32], vertex_count: usize, cache_size: u64) -> (out: Vec<u32>)
    requires
        valid_index_stream(indices@, vertex_count as int),
    ensures
        out@ == ordered(indices@, fanned_order(indices@, vertex_count as int, cache_size)),
        is_reordering(out@, indices@),
{
    let n: usize = indices.len() / 3;
    let chains = CornerChains::new(indices, vertex_count);
    let mut state = FanState {
        emitter: Emitter::new(indices),
        live: count_valences(indices, vertex_count),
        stamps: zero_stamps(vertex_count),
        stamp: cache_size.wrapping_add(1),
        drawn: Vec::new(),
        cursor: 0,
    };
    proof {
        state.emitter.lemma_order(indices@);
        assert(state.emitter.spec_order() =~= Seq::<int>::empty());
        assert(state.model() == fan_start(indices@, vertex_count as int, cache_size));
    }
    let ghost start = state.model();
    let mut current: Option<usize> = state.dead_end(Ghost(indices@));
    let ghost first = state.model();
    let ghost first_current: Option<int> = dead_end(start).0;
    let mut left: usize = n;
    proof {
        state.emitter.lemma_order(indices@);
    }
    loop
        invariant_except_break
            left <= n - state.emitter.spec_count(),
            match current {
                Some(v) => v < vertex_count && fan_run(
                    indices@,
                    state.model(),
                    Some(v as int),
                    cache_size,
                    left as int,
                ) == fan_run(indices@, first, first_current, cache_size, n as int),
                None => fan_run(indices@, state.model(), None, cache_size, left as int)
                    == fan_run(indices@, first, first_current, cache_size, n as int),
            },
        invariant
            n == indices@.len() / 3,
            left <= n,
            state.wf(indices@, vertex_count as int),
            chains.wf(indices@, vertex_count as int),
        ensures
            state.wf(indices@, vertex_count as int),
            state.model() == fan_run(indices@, first, first_current, cache_size, n as int),
        decreases left,
    {
        if left == 0 {
            break ;
        }
        let v: usize = match current {
            Some(v) => v,
            None => {
                break ;
            },
        };
        let ghost before = state.model();
        proof {
            state.emitter.lemma_order(indices@);
        }
        let count_before: usize = state.emitter.count(indices);
        let stack: usize = state.drawn.len();
        state.fan(indices, &chains, v, cache_size);
        let count_after: usize = state.emitter.count(indices);
        let ghost fanned = state.model();
        proof {
            state.emitter.lemma_order(indices@);
            assert(fanned == fan_from(indices@, before, v as int, 0, cache_size));
            assert(count_after - count_before == fanned.order.len() - before.order.len());
        }
        if count_after <= count_before || count_after - count_before > left {
            proof {
                assert(fan_run(indices@, before, Some(v as int), cache_size, left as int)
                    == fanned);
            }
            break ;
        }
        let emitted: usize = count_after - count_before;
        let near = state.neighbor(stack, cache_size, Ghost(indices@));
        match near {
            Some(w) => {
                current = Some(w);
                proof {
                    assert(fan_run(indices@, before, Some(v as int), cache_size, left as int)
                        == fan_run(
                        indices@,
                        fanned,
                        Some(w as int),
                        cache_size,
                        left - emitted,
                    ));
                }
            },
            None => {
                current = state.dead_end(Ghost(indices@));
                proof {
                    state.emitter.lemma_order(indices@);
                    assert(fan_run(indices@, before, Some(v as int), cache_size, left as int)
                        == fan_run(
                        indices@,
                        dead_end(fanned).1,
                        dead_end(fanned).0,
                        cache_size,
                        left - emitted,
                    ));
                }
            },
        }
        left = left - emitted;
    }
    state.emitter.finish(indices)
}

} // verus!
