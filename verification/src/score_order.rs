//! The scored order: always the triangle whose corners are worth most.
//!
//! A vertex is worth more the nearer it is to the front of a simulated cache
//! and the fewer triangles still need it, so that the cache is used and
//! fans are finished. The simulated cache holds the corners of the triangles
//! drawn last, newest first. After every triangle the vertices of the cache
//! are rated anew, and with them the triangles that have them as corners;
//! the best of those triangles is drawn next. Where the cache leads
//! nowhere, the first triangle of the input that is not drawn yet is drawn.
//! Triangles that name a corner twice are rated with no vertex.

use vstd::prelude::*;
use crate::adjacency::{degenerate, is_degenerate, CornerChains};
use crate::fan_order::{count_down, count_valences, valences};
use crate::indices::{tri_at, valid_index_stream};
use crate::reorder::{completed, is_reordering, ordered, Emitter};
use crate::vertex_fetch::{first_touch, lemma_first_touch};

verus! {

/// The size of the simulated cache.
pub const SCORE_CACHE_SIZE: usize = 16;

/// What a place in the cache is worth, in thousandths: the three corners of
/// the triangle drawn last count alike, the others from 1000 at the fourth
/// place down to 76 at the last; nothing behind the cache.
pub open spec fn cache_score(place: int) -> int {
    if place < 0 || place >= SCORE_CACHE_SIZE {
        0
    } else if place < 3 {
        600
    } else {
        ((SCORE_CACHE_SIZE - place) * 1000) / 13
    }
}

/// What the number of triangles that still need a vertex is worth, in
/// thousandths: about 2000 over the square root of the number.
pub open spec fn valence_score(live: u32) -> int {
    if live == 0 {
        0
    } else if live == 1 {
        2000
    } else if live == 2 {
        1414
    } else if live == 3 {
        1155
    } else if live == 4 {
        1000
    } else if live == 5 {
        894
    } else if live == 6 {
        816
    } else if live == 7 {
        756
    } else if live == 8 {
        707
    } else if live <= 12 {
        620
    } else if live <= 20 {
        500
    } else {
        400
    }
}

/// What a vertex is worth at the place `place` of the cache, or behind the
/// cache, that `live` triangles still need; a vertex that no triangle needs
/// is worth less than any other.
pub open spec fn vertex_score(place: int, live: u32) -> i64 {
    if live == 0 {
        -1000i64
    } else {
        (cache_score(place) + valence_score(live)) as i64
    }
}

/// What the scored order keeps between two triangles.
pub struct ScoreModel {
    /// The triangles drawn so far.
    pub order: Seq<int>,
    /// For every vertex the number of its triangles that are not drawn yet.
    pub live: Seq<u32>,
    /// What every vertex is worth.
    pub vertex_scores: Seq<i64>,
    /// What every triangle is worth: the sum of its corners.
    pub triangle_scores: Seq<i64>,
    /// The simulated cache, newest first.
    pub cache: Seq<u32>,
}

/// The best triangle found so far, and what it is worth.
pub struct Best {
    pub triangle: Option<int>,
    pub score: i64,
}

/// What the triangle `t` is worth before anything is drawn.
pub open spec fn first_triangle_score(indices: Seq<u32>, scores: Seq<i64>, t: int) -> i64 {
    let c = tri_at(indices, t);
    if degenerate(c) {
        0
    } else {
        vstd::wrapping::i64_specs::wrapping_add(
            vstd::wrapping::i64_specs::wrapping_add(scores[c.0 as int], scores[c.1 as int]),
            scores[c.2 as int],
        )
    }
}

/// The state before the first triangle.
pub open spec fn score_start(indices: Seq<u32>, vertex_count: int) -> ScoreModel {
    let live = valences(indices, vertex_count, indices.len() as int / 3);
    let scores = Seq::new(vertex_count as nat, |v: int| vertex_score(-1, live[v]));
    ScoreModel {
        order: Seq::<int>::empty(),
        live: live,
        vertex_scores: scores,
        triangle_scores: Seq::new(
            indices.len() / 3,
            |t: int| first_triangle_score(indices, scores, t),
        ),
        cache: Seq::<u32>::empty(),
    }
}

/// Those of the first `k` vertices of the cache that are no corner of `t`.
pub open spec fn keep_others(cache: Seq<u32>, t: (u32, u32, u32), k: int) -> Seq<u32>
    decreases k,
{
    if k <= 0 {
        Seq::<u32>::empty()
    } else {
        let w = cache[k - 1];
        if w != t.0 && w != t.1 && w != t.2 {
            keep_others(cache, t, k - 1).push(w)
        } else {
            keep_others(cache, t, k - 1)
        }
    }
}

/// The state and the best triangle once the triangles of the vertex `w` were
/// rated anew whose corner `w` stands at or behind the position `p`: each of
/// them that is not drawn and names no corner twice changes by `change`.
pub open spec fn rescore_from(
    indices: Seq<u32>,
    m: ScoreModel,
    best: Best,
    w: int,
    change: i64,
    p: int,
) -> (ScoreModel, Best)
    decreases indices.len() - p,
{
    if p < 0 || p >= indices.len() {
        (m, best)
    } else if indices[p] != w || degenerate(tri_at(indices, p / 3)) || m.order.contains(p / 3) {
        rescore_from(indices, m, best, w, change, p + 1)
    } else {
        let now = vstd::wrapping::i64_specs::wrapping_add(m.triangle_scores[p / 3], change);
        rescore_from(
            indices,
            ScoreModel { triangle_scores: m.triangle_scores.update(p / 3, now), ..m },
            if now > best.score {
                Best { triangle: Some(p / 3), score: now }
            } else {
                best
            },
            w,
            change,
            p + 1,
        )
    }
}

/// The state and the best triangle once the vertex `w` at the place `place`
/// of the new cache was rated anew, and its triangles with it.
pub open spec fn rescore_vertex(indices: Seq<u32>, m: ScoreModel, best: Best, w: u32, place: int)
    -> (ScoreModel, Best) {
    let score = vertex_score(place, m.live[w as int]);
    let change = vstd::wrapping::i64_specs::wrapping_sub(score, m.vertex_scores[w as int]);
    rescore_from(
        indices,
        ScoreModel { vertex_scores: m.vertex_scores.update(w as int, score), ..m },
        best,
        w as int,
        change,
        0,
    )
}

/// The state and the best triangle once the vertices of the new cache from
/// the place `place` on were rated anew.
pub open spec fn rescore_cache(
    indices: Seq<u32>,
    m: ScoreModel,
    best: Best,
    cache: Seq<u32>,
    place: int,
) -> (ScoreModel, Best)
    decreases cache.len() - place,
{
    if place < 0 || place >= cache.len() {
        (m, best)
    } else {
        let r = rescore_vertex(indices, m, best, cache[place], place);
        rescore_cache(indices, r.0, r.1, cache, place + 1)
    }
}

/// The state once the triangle `t` was drawn, and the triangle to draw next
/// if the cache leads to one.
pub open spec fn score_step(indices: Seq<u32>, m: ScoreModel, t: int) -> (ScoreModel, Option<int>) {
    let c = tri_at(indices, t);
    let drawn = ScoreModel { order: m.order.push(t), ..m };
    if degenerate(c) {
        (drawn, None)
    } else {
        let m1 = ScoreModel {
            live: count_down(count_down(count_down(m.live, c.0), c.1), c.2),
            ..drawn
        };
        let cache = seq![c.0, c.1, c.2] + keep_others(m.cache, c, m.cache.len() as int);
        let r = rescore_cache(indices, m1, Best { triangle: None, score: i64::MIN }, cache, 0);
        (
            ScoreModel {
                cache: if cache.len() > SCORE_CACHE_SIZE {
                    cache.take(SCORE_CACHE_SIZE as int)
                } else {
                    cache
                },
                ..r.0
            },
            r.1.triangle,
        )
    }
}

/// The first triangle at or behind `from` that the order does not hold; `n`
/// if it holds them all.
pub open spec fn least_missing(order: Seq<int>, n: int, from: int) -> int
    decreases n - from,
{
    if from >= n {
        n
    } else if order.contains(from) {
        least_missing(order, n, from + 1)
    } else {
        from
    }
}

/// The triangle to draw: the one that the cache led to, if it is not drawn
/// yet, else the first triangle of the input that is not drawn.
pub open spec fn pick(order: Seq<int>, n: int, current: Option<int>) -> int {
    if current.is_some() && 0 <= current.unwrap() < n && !order.contains(current.unwrap()) {
        current.unwrap()
    } else {
        least_missing(order, n, 0)
    }
}

/// The state at the end of the scored order, from the state `m` with the
/// triangle `current` in view and `left` triangles to draw.
pub open spec fn score_run(indices: Seq<u32>, m: ScoreModel, current: Option<int>, left: int)
    -> ScoreModel
    decreases left,
{
    if left <= 0 {
        m
    } else {
        let t = pick(m.order, indices.len() as int / 3, current);
        let r = score_step(indices, m, t);
        score_run(indices, r.0, r.1, left - 1)
    }
}

/// The scored order of the triangles of `indices`.
pub open spec fn scored_order(indices: Seq<u32>, vertex_count: int) -> Seq<int> {
    let n = indices.len() as int / 3;
    completed(score_run(indices, score_start(indices, vertex_count), Some(0), n).order, n, 0)
}

/// Positions that do not name the vertex `w` change nothing.
pub proof fn lemma_rescore_skip(
    indices: Seq<u32>,
    m: ScoreModel,
    best: Best,
    w: int,
    change: i64,
    p: int,
)
    requires
        0 <= p <= indices.len(),
    ensures
        rescore_from(indices, m, best, w, change, p) == rescore_from(
            indices,
            m,
            best,
            w,
            change,
            first_touch(indices, w, p),
        ),
    decreases indices.len() - p,
{
    if p < indices.len() && indices[p] != w {
        lemma_rescore_skip(indices, m, best, w, change, p + 1);
    }
}

/// The first triangle that an order does not hold is the one in front of
/// which it holds all.
pub proof fn lemma_least_missing(order: Seq<int>, n: int, from: int, t: int)
    requires
        from <= t < n,
        !order.contains(t),
        forall|u: int| from <= u < t ==> order.contains(u),
    ensures
        least_missing(order, n, from) == t,
    decreases t - from,
{
    if from < t {
        lemma_least_missing(order, n, from + 1, t);
    }
}

/// Computes what a place in the cache is worth.
fn cache_score_of(place: usize) -> (r: i64)
    ensures
        r == cache_score(place as int),
        0 <= r <= 1000,
{
    if place >= SCORE_CACHE_SIZE {
        0
    } else if place < 3 {
        600
    } else {
        (((SCORE_CACHE_SIZE - place) * 1000) / 13) as i64
    }
}

/// Computes what a number of triangles left is worth.
fn valence_score_of(live: u32) -> (r: i64)
    ensures
        r == valence_score(live),
        0 <= r <= 2000,
{
    if live == 0 {
        0
    } else if live == 1 {
        2000
    } else if live == 2 {
        1414
    } else if live == 3 {
        1155
    } else if live == 4 {
        1000
    } else if live == 5 {
        894
    } else if live == 6 {
        816
    } else if live == 7 {
        756
    } else if live == 8 {
        707
    } else if live <= 12 {
        620
    } else if live <= 20 {
        500
    } else {
        400
    }
}

/// Computes what a vertex is worth at the place `place`, or behind the cache
/// if there is no such place.
fn vertex_score_of(place: Option<usize>, live: u32) -> (r: i64)
    ensures
        r == vertex_score(
            match place {
                Some(p) => p as int,
                None => -1,
            },
            live,
        ),
{
    if live == 0 {
        -1000
    } else {
        let c: i64 = match place {
            Some(p) => cache_score_of(p),
            None => 0,
        };
        c + valence_score_of(live)
    }
}

/// The scored order as compiled code holds it.
struct ScoreState {
    emitter: Emitter,
    live: Vec<u32>,
    vertex_scores: Vec<i64>,
    triangle_scores: Vec<i64>,
    cache: Vec<u32>,
}

/// The best triangle found so far as compiled code holds it.
struct BestFound {
    triangle: Option<usize>,
    score: i64,
}

impl BestFound {
    spec fn model(&self) -> Best {
        Best {
            triangle: match self.triangle {
                Some(t) => Some(t as int),
                None => None,
            },
            score: self.score,
        }
    }
}

impl ScoreState {
    spec fn model(&self) -> ScoreModel {
        ScoreModel {
            order: self.emitter.spec_order(),
            live: self.live@,
            vertex_scores: self.vertex_scores@,
            triangle_scores: self.triangle_scores@,
            cache: self.cache@,
        }
    }

    spec fn wf(&self, indices: Seq<u32>, vertex_count: int) -> bool {
        &&& valid_index_stream(indices, vertex_count)
        &&& self.emitter.wf(indices)
        &&& self.live@.len() == vertex_count
        &&& self.vertex_scores@.len() == vertex_count
        &&& self.triangle_scores@.len() == indices.len() / 3
        &&& forall|k: int| 0 <= k < self.cache@.len() ==> (#[trigger] self.cache@[k]) < vertex_count
    }

    /// Rates the triangles of the vertex `w` anew.
    fn rescore_triangles(
        &mut self,
        indices: &[u32],
        chains: &CornerChains,
        w: u32,
        change: i64,
        best: &mut BestFound,
    )
        requires
            old(self).wf(indices@, old(self).live@.len() as int),
            chains.wf(indices@, old(self).live@.len() as int),
            w < old(self).live@.len(),
        ensures
            final(self).wf(indices@, old(self).live@.len() as int),
            final(self).live@.len() == old(self).live@.len(),
            final(self).cache@ == old(self).cache@,
            final(self).emitter.spec_order() == old(self).emitter.spec_order(),
            (final(self).model(), final(best).model()) == rescore_from(
                indices@,
                old(self).model(),
                old(best).model(),
                w as int,
                change,
                0,
            ),
    {
        let total: usize = indices.len();
        proof {
            chains.lemma_vertex_count(indices@, self.live@.len() as int);
            lemma_rescore_skip(indices@, self.model(), best.model(), w as int, change, 0);
            lemma_first_touch(indices@, w as int, 0);
        }
        let mut p: usize = chains.first(w as usize, Ghost(indices@));
        while p < total
            invariant
                p <= total,
                total == indices@.len(),
                self.wf(indices@, old(self).live@.len() as int),
                self.live@.len() == old(self).live@.len(),
                self.cache@ == old(self).cache@,
                self.emitter.spec_order() == old(self).emitter.spec_order(),
                chains.wf(indices@, old(self).live@.len() as int),
                chains.spec_vertex_count() == old(self).live@.len(),
                p < total ==> indices@[p as int] == w,
                rescore_from(indices@, self.model(), best.model(), w as int, change, p as int)
                    == rescore_from(
                    indices@,
                    old(self).model(),
                    old(best).model(),
                    w as int,
                    change,
                    0,
                ),
            decreases total - p,
        {
            let u: usize = p / 3;
            let c = (indices[3 * u], indices[3 * u + 1], indices[3 * u + 2]);
            assert(c == tri_at(indices@, u as int));
            proof {
                self.emitter.lemma_order(indices@);
            }
            if !is_degenerate(c) && !self.emitter.is_done(indices, u) {
                let now: i64 = self.triangle_scores[u].wrapping_add(change);
                self.triangle_scores[u] = now;
                if now > best.score {
                    best.triangle = Some(u);
                    best.score = now;
                }
            }
            proof {
                lemma_rescore_skip(indices@, self.model(), best.model(), w as int, change, p + 1);
                lemma_first_touch(indices@, w as int, p + 1);
            }
            p = chains.after(p, Ghost(indices@));
        }
    }

    /// Rates the vertex `w` at the place `place` of the new cache anew, and
    /// its triangles with it.
    fn rescore_vertex(
        &mut self,
        indices: &[u32],
        chains: &CornerChains,
        w: u32,
        place: usize,
        best: &mut BestFound,
    )
        requires
            old(self).wf(indices@, old(self).live@.len() as int),
            chains.wf(indices@, old(self).live@.len() as int),
            w < old(self).live@.len(),
        ensures
            final(self).wf(indices@, old(self).live@.len() as int),
            final(self).live@.len() == old(self).live@.len(),
            final(self).cache@ == old(self).cache@,
            final(self).emitter.spec_order() == old(self).emitter.spec_order(),
            (final(self).model(), final(best).model()) == rescore_vertex(
                indices@,
                old(self).model(),
                old(best).model(),
                w,
                place as int,
            ),
    {
        let at: Option<usize> = if place < SCORE_CACHE_SIZE {
            Some(place)
        } else {
            None
        };
        let score: i64 = vertex_score_of(at, self.live[w as usize]);
        assert(score == vertex_score(place as int, self.live@[w as int]));
        let change: i64 = score.wrapping_sub(self.vertex_scores[w as usize]);
        self.vertex_scores[w as usize] = score;
        self.rescore_triangles(indices, chains, w, change, best);
    }

    /// Draws the triangle `t` into the state: counts it off its corners, puts
    /// the corners in front of the cache and rates the cache anew. Returns
    /// the best triangle that the cache leads to.
    fn account(&mut self, indices: &[u32], chains: &CornerChains, t: usize, Ghost(before): Ghost<
        ScoreModel,
    >) -> (next: Option<usize>)
        requires
            old(self).wf(indices@, old(self).live@.len() as int),
            chains.wf(indices@, old(self).live@.len() as int),
            t < indices@.len() / 3,
            old(self).model() == (ScoreModel { order: before.order.push(t as int), ..before }),
        ensures
            final(self).wf(indices@, old(self).live@.len() as int),
            final(self).live@.len() == old(self).live@.len(),
            final(self).emitter.spec_order() == old(self).emitter.spec_order(),
            final(self).model() == score_step(indices@, before, t as int).0,
            match next {
                Some(u) => score_step(indices@, before, t as int).1 == Some(u as int),
                None => score_step(indices@, before, t as int).1.is_none(),
            },
    {
        let total: usize = indices.len();
        let c = (indices[3 * t], indices[3 * t + 1], indices[3 * t + 2]);
        assert(c == tri_at(indices@, t as int));
        if is_degenerate(c) {
            return None;
        }
        let a: u32 = self.live[c.0 as usize];
        self.live[c.0 as usize] = a.wrapping_sub(1);
        let b: u32 = self.live[c.1 as usize];
        self.live[c.1 as usize] = b.wrapping_sub(1);
        let d: u32 = self.live[c.2 as usize];
        self.live[c.2 as usize] = d.wrapping_sub(1);
        let mut cache: Vec<u32> = Vec::new();
        cache.push(c.0);
        cache.push(c.1);
        cache.push(c.2);
        let mut k: usize = 0;
        while k < self.cache.len()
            invariant
                k <= self.cache@.len(),
                self.wf(indices@, old(self).live@.len() as int),
                c.0 < old(self).live@.len(),
                c.1 < old(self).live@.len(),
                c.2 < old(self).live@.len(),
                cache@ == seq![c.0, c.1, c.2] + keep_others(self.cache@, c, k as int),
                forall|j: int| 0 <= j < cache@.len() ==> (#[trigger] cache@[j]) < old(
                    self,
                ).live@.len(),
            decreases self.cache@.len() - k,
        {
            let w: u32 = self.cache[k];
            if w != c.0 && w != c.1 && w != c.2 {
                cache.push(w);
            }
            assert(cache@ =~= seq![c.0, c.1, c.2] + keep_others(self.cache@, c, k + 1));
            k = k + 1;
        }
        let ghost m1 = self.model();
        let mut best = BestFound { triangle: None, score: i64::MIN };
        let ghost best0 = best.model();
        let mut place: usize = 0;
        while place < cache.len()
            invariant
                place <= cache@.len(),
                self.wf(indices@, old(self).live@.len() as int),
                self.live@.len() == old(self).live@.len(),
                self.cache@ == old(self).cache@,
                self.emitter.spec_order() == old(self).emitter.spec_order(),
                chains.wf(indices@, old(self).live@.len() as int),
                forall|j: int| 0 <= j < cache@.len() ==> (#[trigger] cache@[j]) < old(
                    self,
                ).live@.len(),
                rescore_cache(indices@, self.model(), best.model(), cache@, place as int)
                    == rescore_cache(indices@, m1, best0, cache@, 0),
            decreases cache@.len() - place,
        {
            let w: u32 = cache[place];
            self.rescore_vertex(indices, chains, w, place, &mut best);
            place = place + 1;
        }
        if cache.len() > SCORE_CACHE_SIZE {
            let ghost full = cache@;
            cache.truncate(SCORE_CACHE_SIZE);
            assert(cache@ =~= full.take(SCORE_CACHE_SIZE as int));
        }
        self.cache = cache;
        best.triangle
    }
}

/// The triangles of `indices` in the scored order.
pub fn scored(indices: &[u32], vertex_count: usize) -> (out: Vec<u32>)
    requires
        valid_index_stream(indices@, vertex_count as int),
    ensures
        out@ == ordered(indices@, scored_order(indices@, vertex_count as int)),
        is_reordering(out@, indices@),
{
    let total: usize = indices.len();
    let n: usize = total / 3;
    let chains = CornerChains::new(indices, vertex_count);
    let live: Vec<u32> = count_valences(indices, vertex_count);
    let mut vertex_scores: Vec<i64> = Vec::new();
    let mut v: usize = 0;
    while v < vertex_count
        invariant
            v <= vertex_count,
            live@.len() == vertex_count,
            vertex_scores@.len() == v,
            forall|k: int| 0 <= k < v ==> vertex_scores@[k] == vertex_score(-1, live@[k]),
        decreases vertex_count - v,
    {
        vertex_scores.push(vertex_score_of(None, live[v]));
        v = v + 1;
    }
    let mut triangle_scores: Vec<i64> = Vec::new();
    let mut t: usize = 0;
    while t < n
        invariant
            t <= n,
            n == total / 3,
            total == indices@.len(),
            valid_index_stream(indices@, vertex_count as int),
            vertex_scores@.len() == vertex_count,
            triangle_scores@.len() == t,
            forall|k: int|
                0 <= k < t ==> triangle_scores@[k] == first_triangle_score(
                    indices@,
                    vertex_scores@,
                    k,
                ),
        decreases n - t,
    {
        let c = (indices[3 * t], indices[3 * t + 1], indices[3 * t + 2]);
        assert(c == tri_at(indices@, t as int));
        let score: i64 = if is_degenerate(c) {
            0
        } else {
            vertex_scores[c.0 as usize].wrapping_add(vertex_scores[c.1 as usize]).wrapping_add(
                vertex_scores[c.2 as usize],
            )
        };
        triangle_scores.push(score);
        t = t + 1;
    }
    let mut state = ScoreState {
        emitter: Emitter::new(indices),
        live,
        vertex_scores,
        triangle_scores,
        cache: Vec::new(),
    };
    proof {
        state.emitter.lemma_order(indices@);
        assert(state.emitter.spec_order() =~= Seq::<int>::empty());
        let start = score_start(indices@, vertex_count as int);
        assert(state.vertex_scores@ =~= start.vertex_scores);
        assert(state.triangle_scores@ =~= start.triangle_scores);
        assert(state.model() =~= start);
    }
    let ghost start = state.model();
    let mut current: Option<usize> = Some(0);
    let mut left: usize = n;
    while left > 0
        invariant
            n == indices@.len() / 3,
            total == indices@.len(),
            state.wf(indices@, vertex_count as int),
            chains.wf(indices@, vertex_count as int),
            left == n - state.emitter.spec_count(),
            score_run(
                indices@,
                state.model(),
                match current {
                    Some(c) => Some(c as int),
                    None => None,
                },
                left as int,
            ) == score_run(indices@, start, Some(0int), n as int),
        decreases left,
    {
        let ghost before = state.model();
        let ghost view: Option<int> = match current {
            Some(c) => Some(c as int),
            None => None,
        };
        proof {
            state.emitter.lemma_order(indices@);
        }
        let seen: usize = match current {
            Some(c) => c,
            None => n,
        };
        let t: usize = if state.emitter.try_emit(indices, seen) {
            seen
        } else {
            let ghost emitter0 = state.emitter;
            match state.emitter.emit_next(indices) {
                Some(t) => {
                    proof {
                        emitter0.lemma_order(indices@);
                        assert forall|u: int| 0 <= u < t implies before.order.contains(u) by {
                            assert(emitter0.spec_done(u));
                        }
                        assert(!before.order.contains(t as int)) by {
                            assert(!emitter0.spec_done(t as int));
                        }
                        lemma_least_missing(before.order, n as int, 0, t as int);
                    }
                    t
                },
                None => {
                    assert(false);
                    0
                },
            }
        };
        assert(t == pick(before.order, n as int, view));
        let next = state.account(indices, &chains, t, Ghost(before));
        proof {
            state.emitter.lemma_order(indices@);
        }
        current = next;
        left = left - 1;
    }
    proof {
        assert(state.model().order == score_run(indices@, start, Some(0int), n as int).order);
    }
    state.emitter.finish(indices)
}

} // verus!
