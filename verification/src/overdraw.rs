//! Overdraw optimization: the triangles of a mesh that is already ordered for
//! the vertex cache, cut into clusters that are drawn in a new order.
//!
//! The work has two halves with numbers of another kind between them. The
//! first half cuts the stream into clusters, which is a matter of cache
//! misses alone. Then every cluster needs a sort key that says how soon it
//! should be drawn; the keys come from the positions of the vertices and are
//! made outside this module. The second half draws the clusters by their
//! keys, smallest first, clusters with the same key in their old order, and
//! keeps the new order only if the vertex cache does not pay too much for it.

use vstd::prelude::*;
use crate::analyze::{
    analyze_vertex_cache, cache_after, cache_misses, triangle_misses, CacheState,
};
use crate::indices::{tri_at, valid_index_stream};
use crate::reorder::{is_reordering, Emitter};

verus! {

/// The size of the cache on which clusters are measured.
pub const OVERDRAW_CACHE_SIZE: usize = 16;

/// How many different sort keys there are: keys are below this number.
pub const SORT_KEY_COUNT: usize = 2048;

/// Cluster starts for a stream of `n` triangles: the first cluster starts at
/// the first triangle, every other behind the one before, and all start at a
/// triangle of the stream. A stream without triangles has no cluster.
pub open spec fn valid_clusters(clusters: Seq<u32>, n: int) -> bool {
    &&& n == 0 ==> clusters.len() == 0
    &&& n > 0 ==> clusters.len() > 0 && clusters[0] == 0
    &&& forall|k: int| 0 <= k < clusters.len() ==> (#[trigger] clusters[k]) < n
    &&& forall|k: int| 0 < k < clusters.len() ==> clusters[k - 1] < #[trigger] clusters[k]
}

/// The cache once the triangles from `from` up to `to` were drawn, empty
/// before the first of them.
pub open spec fn cache_from(indices: Seq<u32>, from: int, to: int) -> Seq<u32>
    decreases to - from,
{
    if to <= from {
        Seq::<u32>::empty()
    } else {
        cache_after(
            cache_from(indices, from, to - 1),
            tri_at(indices, to - 1),
            OVERDRAW_CACHE_SIZE as int,
        )
    }
}

/// How many corners are transformed when the triangles from `from` up to
/// `to` are drawn, the cache being empty before the first of them.
pub open spec fn misses_from(indices: Seq<u32>, from: int, to: int) -> int
    decreases to - from,
{
    if to <= from {
        0
    } else {
        misses_from(indices, from, to - 1) + triangle_misses(
            cache_from(indices, from, to - 1),
            tri_at(indices, to - 1),
            OVERDRAW_CACHE_SIZE as int,
        )
    }
}

/// Whether a patch starts at the triangle `i`: the first triangle starts
/// one, and so does every triangle that finds none of its corners in the
/// cache.
pub open spec fn starts_patch(indices: Seq<u32>, i: int) -> bool {
    i == 0 || triangle_misses(
        cache_from(indices, 0, i),
        tri_at(indices, i),
        OVERDRAW_CACHE_SIZE as int,
    ) == 3
}

/// The triangles among the first `i` at which a patch starts.
pub open spec fn patch_starts(indices: Seq<u32>, i: int) -> Seq<u32>
    decreases i,
{
    if i <= 0 {
        Seq::<u32>::empty()
    } else if starts_patch(indices, i - 1) {
        patch_starts(indices, i - 1).push((i - 1) as u32)
    } else {
        patch_starts(indices, i - 1)
    }
}

/// Whether `misses / faces` is at most `num / den` times `all_misses /
/// all_faces`.
#[verifier::opaque]
pub open spec fn within_threshold(
    misses: int,
    faces: int,
    all_misses: int,
    all_faces: int,
    num: int,
    den: int,
) -> bool {
    misses * all_faces * den <= all_misses * faces * num
}

/// The triangle at which the piece starts that is open before the triangle
/// `i` of the patch from `start` up to `end`. A piece is closed behind the
/// triangle with which it misses the cache, counted from an empty cache at
/// its start, no more than the threshold allows against the whole patch.
#[verifier::opaque]
pub open spec fn piece_start(
    indices: Seq<u32>,
    start: int,
    end: int,
    num: int,
    den: int,
    i: int,
) -> int
    decreases i - start,
{
    if i <= start {
        start
    } else {
        let p = piece_start(indices, start, end, num, den, i - 1);
        if within_threshold(
            misses_from(indices, p, i),
            i - p,
            misses_from(indices, start, end),
            end - start,
            num,
            den,
        ) {
            i
        } else {
            p
        }
    }
}

/// Whether a piece is closed behind the triangle `i`.
pub open spec fn closes(indices: Seq<u32>, start: int, end: int, num: int, den: int, i: int)
    -> bool {
    piece_start(indices, start, end, num, den, i + 1) == i + 1
}

/// The triangles inside the patch, up to `i`, at which a piece starts.
#[verifier::opaque]
pub open spec fn piece_cuts(indices: Seq<u32>, start: int, end: int, num: int, den: int, i: int)
    -> Seq<u32>
    decreases i - start,
{
    if i <= start {
        Seq::<u32>::empty()
    } else if closes(indices, start, end, num, den, i - 1) && i < end {
        piece_cuts(indices, start, end, num, den, i - 1).push(i as u32)
    } else {
        piece_cuts(indices, start, end, num, den, i - 1)
    }
}

/// The clusters of the patch from `start` up to `end`: its pieces, the last
/// one joined to the one before it unless the last triangle closed it.
pub open spec fn patch_pieces(indices: Seq<u32>, start: int, end: int, num: int, den: int) -> Seq<
    u32,
> {
    let cuts = seq![start as u32] + piece_cuts(indices, start, end, num, den, end);
    if cuts.len() > 1 && !closes(indices, start, end, num, den, end - 1) {
        cuts.drop_last()
    } else {
        cuts
    }
}

/// The clusters of the first `it` patches.
pub open spec fn pieces_upto(
    indices: Seq<u32>,
    patches: Seq<u32>,
    num: int,
    den: int,
    it: int,
) -> Seq<u32>
    decreases it,
{
    if it <= 0 {
        Seq::<u32>::empty()
    } else {
        pieces_upto(indices, patches, num, den, it - 1) + patch_pieces(
            indices,
            patches[it - 1] as int,
            cluster_end(patches, it - 1, indices.len() as int / 3),
            num,
            den,
        )
    }
}

/// The clusters of a stream for the threshold `num / den`.
pub open spec fn overdraw_clusters_spec(indices: Seq<u32>, num: int, den: int) -> Seq<u32> {
    let patches = patch_starts(indices, indices.len() as int / 3);
    pieces_upto(indices, patches, num, den, patches.len() as int)
}

/// Drawing more triangles misses the cache no less; a triangle misses it at
/// most three times.
pub proof fn lemma_misses_from(indices: Seq<u32>, from: int, to: int)
    requires
        from <= to,
    ensures
        0 <= misses_from(indices, from, to) <= 3 * (to - from),
    decreases to - from,
{
    reveal(triangle_misses);
    if from < to {
        lemma_misses_from(indices, from, to - 1);
    }
}

/// Tells whether `misses / faces` is at most `num / den` times `all_misses /
/// all_faces`, without a division.
fn is_within_threshold(
    misses: usize,
    faces: usize,
    all_misses: usize,
    all_faces: usize,
    num: u32,
    den: u32,
) -> (r: bool)
    requires
        faces <= u32::MAX,
        all_faces <= u32::MAX,
        misses <= 3 * faces,
        all_misses <= 3 * all_faces,
    ensures
        r == within_threshold(
            misses as int,
            faces as int,
            all_misses as int,
            all_faces as int,
            num as int,
            den as int,
        ),
{
    reveal(within_threshold);
    let m: u128 = misses as u128;
    let f: u128 = faces as u128;
    let am: u128 = all_misses as u128;
    let af: u128 = all_faces as u128;
    assert(m * af <= 0x3_0000_0000 * 0x1_0000_0000 && am * f <= 0x3_0000_0000 * 0x1_0000_0000)
        by (nonlinear_arith)
        requires
            0 <= m <= 0x3_0000_0000,
            0 <= f <= 0x1_0000_0000,
            0 <= am <= 0x3_0000_0000,
            0 <= af <= 0x1_0000_0000,
    ;
    let left: u128 = m * af;
    let right: u128 = am * f;
    assert(left * den <= 0x3_0000_0000_0000_0000 * 0x1_0000_0000 && right * num
        <= 0x3_0000_0000_0000_0000 * 0x1_0000_0000) by (nonlinear_arith)
        requires
            0 <= left <= 0x3_0000_0000_0000_0000,
            0 <= right <= 0x3_0000_0000_0000_0000,
            0 <= den <= 0x1_0000_0000,
            0 <= num <= 0x1_0000_0000,
    ;
    left * (den as u128) <= right * (num as u128)
}

/// The corners of the triangle `t`.
fn triangle(indices: &[u32], t: usize) -> (r: (u32, u32, u32))
    requires
        3 * t + 2 < indices@.len(),
    ensures
        r == tri_at(indices@, t as int),
{
    let total: usize = indices.len();
    (indices[3 * t], indices[3 * t + 1], indices[3 * t + 2])
}

/// What one more triangle adds to the cuts of a patch: the triangle behind
/// it, if it closes a piece and is not the last of the patch.
pub proof fn lemma_piece_cuts_step(
    indices: Seq<u32>,
    start: int,
    end: int,
    num: int,
    den: int,
    i: int,
)
    requires
        start <= i,
    ensures
        piece_cuts(indices, start, end, num, den, start) == Seq::<u32>::empty(),
        piece_cuts(indices, start, end, num, den, i + 1) == if closes(
            indices,
            start,
            end,
            num,
            den,
            i,
        ) && i + 1 < end {
            piece_cuts(indices, start, end, num, den, i).push((i + 1) as u32)
        } else {
            piece_cuts(indices, start, end, num, den, i)
        },
        piece_start(indices, start, end, num, den, start) == start,
{
    reveal(piece_cuts);
    reveal(piece_start);
}

/// A cluster start behind the last one, in front of the end, keeps a list of
/// cluster starts valid.
pub proof fn lemma_push_cluster(clusters: Seq<u32>, n: int, x: u32)
    requires
        valid_clusters(clusters, n),
        clusters.len() > 0,
        clusters[clusters.len() - 1] < x < n,
    ensures
        valid_clusters(clusters.push(x), n),
{
    let pushed = clusters.push(x);
    assert forall|k: int| 0 < k < pushed.len() implies pushed[k - 1] < #[trigger] pushed[k] by {
        if k < clusters.len() {
            assert(clusters[k - 1] < clusters[k]);
        }
    }
}

/// The first cluster start of a patch, behind all clusters in front of the
/// patch, keeps the list valid.
pub proof fn lemma_push_patch(clusters: Seq<u32>, start: int, end: int)
    requires
        valid_clusters(clusters, start),
        0 <= start < end,
        start <= u32::MAX,
    ensures
        valid_clusters(clusters.push(start as u32), end),
{
    let pushed = clusters.push(start as u32);
    assert forall|k: int| 0 < k < pushed.len() implies pushed[k - 1] < #[trigger] pushed[k] by {
        if k < clusters.len() {
            assert(clusters[k - 1] < clusters[k]);
        } else {
            assert(clusters[k - 1] < start);
        }
    }
    assert forall|k: int| 0 <= k < pushed.len() implies (#[trigger] pushed[k]) < end by {
        if k < clusters.len() {
            assert(clusters[k] < start);
        }
    }
}

/// A list of cluster starts without its last stays valid, as long as one is
/// left.
pub proof fn lemma_pop_cluster(clusters: Seq<u32>, n: int)
    requires
        valid_clusters(clusters, n),
        clusters.len() > 1,
    ensures
        valid_clusters(clusters.drop_last(), n),
{
    let popped = clusters.drop_last();
    assert forall|k: int| 0 < k < popped.len() implies popped[k - 1] < #[trigger] popped[k] by {
        assert(clusters[k - 1] < clusters[k]);
    }
    assert forall|k: int| 0 <= k < popped.len() implies (#[trigger] popped[k]) < n by {
        assert(clusters[k] < n);
    }
}

/// How many corners are transformed when the patch from `start` up to `end`
/// is drawn; the cache is empty afterwards as before.
fn measure_patch(indices: &[u32], start: usize, end: usize, state: &mut CacheState) -> (misses:
    usize)
    requires
        start < end,
        3 * end <= indices@.len(),
        valid_index_stream(indices@, old(state).vertex_count()),
        old(state).wf(OVERDRAW_CACHE_SIZE as int),
    ensures
        final(state).wf(OVERDRAW_CACHE_SIZE as int),
        final(state).vertex_count() == old(state).vertex_count(),
        final(state).cache() == Seq::<u32>::empty(),
        misses == misses_from(indices@, start as int, end as int),
        misses <= 3 * (end - start),
{
    let total: usize = indices.len();
    state.clear(OVERDRAW_CACHE_SIZE);
    let mut misses: usize = 0;
    let mut i: usize = start;
    while i < end
        invariant
            start <= i <= end,
            3 * end <= total,
            total == indices@.len(),
            valid_index_stream(indices@, state.vertex_count()),
            state.wf(OVERDRAW_CACHE_SIZE as int),
            state.vertex_count() == old(state).vertex_count(),
            state.cache() == cache_from(indices@, start as int, i as int),
            misses == misses_from(indices@, start as int, i as int),
            misses <= 3 * (i - start),
        decreases end - i,
    {
        let t = triangle(indices, i);
        let m: usize = state.draw(t, OVERDRAW_CACHE_SIZE);
        misses = misses + m;
        i = i + 1;
    }
    state.clear(OVERDRAW_CACHE_SIZE);
    misses
}

/// Draws the triangle `i` of a patch into the piece that starts at `piece`,
/// and tells whether the piece is closed behind it; the cache is then empty
/// for the next piece. Returns that and the misses of the piece so far, or 0
/// for a new piece.
fn draw_into_piece(
    indices: &[u32],
    start: usize,
    end: usize,
    i: usize,
    piece: usize,
    running: usize,
    patch_misses: usize,
    state: &mut CacheState,
    num: u32,
    den: u32,
) -> (r: (bool, usize))
    requires
        start <= piece <= i < end,
        3 * end <= indices@.len(),
        end <= u32::MAX,
        valid_index_stream(indices@, old(state).vertex_count()),
        old(state).wf(OVERDRAW_CACHE_SIZE as int),
        patch_misses == misses_from(indices@, start as int, end as int),
        patch_misses <= 3 * (end - start),
        piece == piece_start(indices@, start as int, end as int, num as int, den as int, i as int),
        old(state).cache() == cache_from(indices@, piece as int, i as int),
        running == misses_from(indices@, piece as int, i as int),
        running <= 3 * (i - piece),
    ensures
        final(state).wf(OVERDRAW_CACHE_SIZE as int),
        final(state).vertex_count() == old(state).vertex_count(),
        r.0 == closes(indices@, start as int, end as int, num as int, den as int, i as int),
        ({
            let next = if r.0 {
                i + 1
            } else {
                piece as int
            };
            &&& next == piece_start(
                indices@,
                start as int,
                end as int,
                num as int,
                den as int,
                i + 1,
            )
            &&& final(state).cache() == cache_from(indices@, next, i + 1)
            &&& r.1 == misses_from(indices@, next, i + 1)
            &&& r.1 <= 3 * (i + 1 - next)
        }),
{
    reveal(piece_start);
    let total: usize = indices.len();
    let t = triangle(indices, i);
    let m: usize = state.draw(t, OVERDRAW_CACHE_SIZE);
    let now: usize = running + m;
    assert(now == misses_from(indices@, piece as int, i + 1));
    if is_within_threshold(now, i + 1 - piece, patch_misses, end - start, num, den) {
        state.clear(OVERDRAW_CACHE_SIZE);
        (true, 0)
    } else {
        (false, now)
    }
}

/// Cuts the patch from `start` up to `end` into pieces, and appends the
/// triangle at which each cluster of the patch starts to `soft`.
fn cut_patch(
    indices: &[u32],
    start: usize,
    end: usize,
    state: &mut CacheState,
    num: u32,
    den: u32,
    soft: &mut Vec<u32>,
)
    requires
        start < end,
        3 * end <= indices@.len(),
        end <= u32::MAX,
        valid_index_stream(indices@, old(state).vertex_count()),
        old(state).wf(OVERDRAW_CACHE_SIZE as int),
        valid_clusters(old(soft)@, start as int),
    ensures
        final(state).wf(OVERDRAW_CACHE_SIZE as int),
        final(state).vertex_count() == old(state).vertex_count(),
        valid_clusters(final(soft)@, end as int),
        final(soft)@ == old(soft)@ + patch_pieces(
            indices@,
            start as int,
            end as int,
            num as int,
            den as int,
        ),
{
    let ghost s = indices@;
    let ghost soft0 = soft@;
    let patch_misses: usize = measure_patch(indices, start, end, state);
    let first: usize = soft.len();
    proof {
        lemma_push_patch(soft0, start as int, end as int);
        lemma_piece_cuts_step(s, start as int, end as int, num as int, den as int, start as int);
    }
    soft.push(start as u32);
    let mut piece: usize = start;
    let mut running: usize = 0;
    let mut closed: bool = false;
    let mut i: usize = start;
    while i < end
        invariant
            start <= piece <= i <= end,
            start < end,
            s == indices@,
            3 * end <= indices@.len(),
            end <= u32::MAX,
            valid_index_stream(indices@, state.vertex_count()),
            state.wf(OVERDRAW_CACHE_SIZE as int),
            state.vertex_count() == old(state).vertex_count(),
            patch_misses == misses_from(s, start as int, end as int),
            patch_misses <= 3 * (end - start),
            piece == piece_start(s, start as int, end as int, num as int, den as int, i as int),
            state.cache() == cache_from(s, piece as int, i as int),
            running == misses_from(s, piece as int, i as int),
            running <= 3 * (i - piece),
            i > start ==> closed == closes(
                s,
                start as int,
                end as int,
                num as int,
                den as int,
                i - 1,
            ),
            soft@.len() == first + 1 + piece_cuts(
                s,
                start as int,
                end as int,
                num as int,
                den as int,
                i as int,
            ).len(),
            soft@ == soft0.push(start as u32) + piece_cuts(
                s,
                start as int,
                end as int,
                num as int,
                den as int,
                i as int,
            ),
            soft@[soft@.len() - 1] <= i,
            valid_clusters(soft@, end as int),
        decreases end - i,
    {
        let (shut, misses) = draw_into_piece(
            indices,
            start,
            end,
            i,
            piece,
            running,
            patch_misses,
            state,
            num,
            den,
        );
        let ghost before = soft@;
        let ghost cuts = piece_cuts(s, start as int, end as int, num as int, den as int, i as int);
        proof {
            lemma_piece_cuts_step(s, start as int, end as int, num as int, den as int, i as int);
        }
        if shut {
            if i + 1 < end {
                proof {
                    lemma_push_cluster(before, end as int, (i + 1) as u32);
                }
                soft.push((i + 1) as u32);
                assert(soft@ =~= soft0.push(start as u32) + cuts.push((i + 1) as u32));
            }
            piece = i + 1;
        }
        running = misses;
        closed = shut;
        i = i + 1;
    }
    proof {
        lemma_patch_tail(soft0, s, start as int, end as int, num as int, den as int, soft@, closed);
    }
    if soft.len() > first + 1 && !closed {
        let ghost full = soft@;
        soft.pop();
        assert(soft@ =~= full.drop_last());
    }
}

/// The cuts of a patch behind the clusters in front of it, without the last
/// cut if the last piece was left open, are the clusters of the patch behind
/// those in front.
pub proof fn lemma_patch_tail(
    front: Seq<u32>,
    indices: Seq<u32>,
    start: int,
    end: int,
    num: int,
    den: int,
    now: Seq<u32>,
    closed: bool,
)
    requires
        0 <= start < end,
        now == front.push(start as u32) + piece_cuts(indices, start, end, num, den, end),
        closed == closes(indices, start, end, num, den, end - 1),
        valid_clusters(now, end),
    ensures
        front + patch_pieces(indices, start, end, num, den) == if now.len() > front.len() + 1
            && !closed {
            now.drop_last()
        } else {
            now
        },
        valid_clusters(
            if now.len() > front.len() + 1 && !closed {
                now.drop_last()
            } else {
                now
            },
            end,
        ),
{
    let cuts = piece_cuts(indices, start, end, num, den, end);
    let all = seq![start as u32] + cuts;
    assert(now =~= front + all);
    if now.len() > front.len() + 1 && !closed {
        lemma_pop_cluster(now, end);
        assert(now.drop_last() =~= front + all.drop_last());
    }
}

/// Cuts a stream that is ordered for the vertex cache into clusters.
///
/// A patch starts wherever a triangle finds none of its corners in a cache of
/// [`OVERDRAW_CACHE_SIZE`] vertices, which mostly means that a new part of
/// the mesh begins. A patch is cut into pieces: a piece ends with the
/// triangle at which its triangles, drawn with an empty cache before the
/// first, miss the cache no more than `threshold_num / threshold_den` times
/// as often as the whole patch does. The last piece of a patch is joined to
/// the piece before it, unless the last triangle ended it. The larger the
/// threshold, the smaller the clusters.
///
/// Returns the triangle at which each cluster starts.
pub fn overdraw_clusters(
    indices: &[u32],
    vertex_count: usize,
    threshold_num: u32,
    threshold_den: u32,
) -> (clusters: Vec<u32>)
    requires
        valid_index_stream(indices@, vertex_count as int),
        indices@.len() / 3 <= u32::MAX,
    ensures
        clusters@ == overdraw_clusters_spec(
            indices@,
            threshold_num as int,
            threshold_den as int,
        ),
        valid_clusters(clusters@, indices@.len() as int / 3),
{
    let n: usize = indices.len() / 3;
    let mut state = CacheState::new(vertex_count);
    let mut hard: Vec<u32> = Vec::new();
    let mut i: usize = 0;
    while i < n
        invariant
            i <= n,
            n == indices@.len() / 3,
            n <= u32::MAX,
            3 * n <= indices.len(),
            valid_index_stream(indices@, vertex_count as int),
            state.wf(OVERDRAW_CACHE_SIZE as int),
            state.vertex_count() == vertex_count,
            state.cache() == cache_from(indices@, 0, i as int),
            hard@ == patch_starts(indices@, i as int),
            valid_clusters(hard@, i as int),
        decreases n - i,
    {
        let t = triangle(indices, i);
        let m: usize = state.draw(t, OVERDRAW_CACHE_SIZE);
        if i == 0 || m == 3 {
            hard.push(i as u32);
        }
        i = i + 1;
    }
    let mut soft: Vec<u32> = Vec::new();
    let mut it: usize = 0;
    while it < hard.len()
        invariant
            it <= hard@.len(),
            n == indices@.len() / 3,
            n <= u32::MAX,
            3 * n <= indices.len(),
            valid_index_stream(indices@, vertex_count as int),
            state.wf(OVERDRAW_CACHE_SIZE as int),
            state.vertex_count() == vertex_count,
            hard@ == patch_starts(indices@, n as int),
            valid_clusters(hard@, n as int),
            soft@ == pieces_upto(
                indices@,
                hard@,
                threshold_num as int,
                threshold_den as int,
                it as int,
            ),
            it < hard@.len() ==> valid_clusters(soft@, hard@[it as int] as int),
            it == hard@.len() ==> valid_clusters(soft@, n as int),
        decreases hard@.len() - it,
    {
        let start: usize = hard[it] as usize;
        let end: usize = if it + 1 < hard.len() {
            hard[it + 1] as usize
        } else {
            n
        };
        assert(start < end <= n);
        cut_patch(indices, start, end, &mut state, threshold_num, threshold_den, &mut soft);
        it = it + 1;
    }
    soft
}

/// The key of the cluster `c`: a number below [`SORT_KEY_COUNT`]. A cluster
/// without a key, or with one that is too large, has the last key.
pub open spec fn key_at(keys: Seq<u16>, c: int) -> int {
    if 0 <= c < keys.len() && keys[c] < SORT_KEY_COUNT {
        keys[c] as int
    } else {
        SORT_KEY_COUNT - 1
    }
}

/// The triangle behind the last of the cluster `c`, in a stream of `n`
/// triangles.
pub open spec fn cluster_end(clusters: Seq<u32>, c: int, n: int) -> int {
    if c + 1 < clusters.len() {
        clusters[c + 1] as int
    } else {
        n
    }
}

/// The indices of the cluster `c`.
pub open spec fn cluster_indices(indices: Seq<u32>, clusters: Seq<u32>, c: int) -> Seq<u32> {
    indices.subrange(3 * clusters[c], 3 * cluster_end(clusters, c, indices.len() as int / 3))
}

/// The clusters with a key below `k`, and those of the first `c` clusters
/// that have the key `k`: by their keys, and in their order where the keys
/// are the same.
pub open spec fn drawn(indices: Seq<u32>, clusters: Seq<u32>, keys: Seq<u16>, k: int, c: int)
    -> Seq<u32>
    decreases k, c,
{
    if c > 0 {
        drawn(indices, clusters, keys, k, c - 1) + if key_at(keys, c - 1) == k {
            cluster_indices(indices, clusters, c - 1)
        } else {
            Seq::<u32>::empty()
        }
    } else if k > 0 {
        drawn(indices, clusters, keys, k - 1, clusters.len() as int)
    } else {
        Seq::<u32>::empty()
    }
}

/// The stream with its clusters in the order of their keys: clusters with
/// smaller keys first, clusters with the same key in their old order.
pub open spec fn sorted_clusters(indices: Seq<u32>, clusters: Seq<u32>, keys: Seq<u16>) -> Seq<
    u32,
> {
    drawn(indices, clusters, keys, SORT_KEY_COUNT as int, 0)
}

/// Whether the cluster `d` comes before the cluster `c` with the key `k`.
pub open spec fn drawn_before(keys: Seq<u16>, d: int, k: int, c: int) -> bool {
    key_at(keys, d) < k || (key_at(keys, d) == k && d < c)
}

/// The first of the `count` clusters at or behind `from` that has the key
/// `k`; `count` if there is none.
pub open spec fn next_with_key(keys: Seq<u16>, count: int, k: int, from: int) -> int
    decreases count - from,
{
    if from < 0 || from >= count {
        count
    } else if key_at(keys, from) == k {
        from
    } else {
        next_with_key(keys, count, k, from + 1)
    }
}

/// The last of the first `upto` clusters that starts at or before the
/// triangle `t`; -1 if there is none.
pub open spec fn cluster_of(clusters: Seq<u32>, t: int, upto: int) -> int
    decreases upto,
{
    if upto <= 0 {
        -1
    } else if clusters[upto - 1] <= t {
        upto - 1
    } else {
        cluster_of(clusters, t, upto - 1)
    }
}

/// Where the search for a key ends: at a cluster with the key, with no such
/// cluster in front of it.
pub proof fn lemma_next_with_key(keys: Seq<u16>, count: int, k: int, from: int)
    requires
        0 <= from <= count,
    ensures
        from <= next_with_key(keys, count, k, from) <= count,
        next_with_key(keys, count, k, from) < count ==> key_at(
            keys,
            next_with_key(keys, count, k, from),
        ) == k,
        forall|d: int| from <= d < next_with_key(keys, count, k, from) ==> key_at(keys, d) != k,
    decreases count - from,
{
    if from < count && key_at(keys, from) != k {
        lemma_next_with_key(keys, count, k, from + 1);
    }
}

/// Clusters without the key `k` add nothing to what is drawn for `k`.
pub proof fn lemma_drawn_skip(
    indices: Seq<u32>,
    clusters: Seq<u32>,
    keys: Seq<u16>,
    k: int,
    from: int,
    to: int,
)
    requires
        0 <= from <= to,
        forall|d: int| from <= d < to ==> key_at(keys, d) != k,
    ensures
        drawn(indices, clusters, keys, k, to) == drawn(indices, clusters, keys, k, from),
    decreases to - from,
{
    if from < to {
        lemma_drawn_skip(indices, clusters, keys, k, from, to - 1);
        assert(drawn(indices, clusters, keys, k, to) =~= drawn(indices, clusters, keys, k, to - 1));
    }
}

/// Clusters start in their order.
pub proof fn lemma_clusters_sorted(clusters: Seq<u32>, n: int, i: int, j: int)
    requires
        valid_clusters(clusters, n),
        0 <= i < j < clusters.len(),
    ensures
        clusters[i] < clusters[j],
    decreases j - i,
{
    if i + 1 < j {
        lemma_clusters_sorted(clusters, n, i, j - 1);
    }
    assert(clusters[j - 1] < clusters[j]);
}

/// Every triangle lies in one cluster, and in no other.
pub proof fn lemma_cluster_of(clusters: Seq<u32>, n: int, t: int, upto: int)
    requires
        valid_clusters(clusters, n),
        0 <= t < n,
        0 < upto <= clusters.len(),
    ensures
        0 <= cluster_of(clusters, t, upto) < upto,
        clusters[cluster_of(clusters, t, upto)] <= t,
        forall|e: int| cluster_of(clusters, t, upto) < e < upto ==> t < clusters[e],
    decreases upto,
{
    if clusters[upto - 1] > t {
        assert(upto > 1);
        lemma_cluster_of(clusters, n, t, upto - 1);
    }
}

/// The cluster of a triangle is the one between whose start and end it lies.
pub proof fn lemma_cluster_is(clusters: Seq<u32>, n: int, t: int, c: int)
    requires
        valid_clusters(clusters, n),
        0 <= c < clusters.len(),
        clusters[c] <= t < cluster_end(clusters, c, n),
    ensures
        cluster_of(clusters, t, clusters.len() as int) == c,
        t < n,
{
    if c + 1 < clusters.len() {
        assert(clusters[c + 1] < n);
    }
    lemma_cluster_of(clusters, n, t, clusters.len() as int);
    let d = cluster_of(clusters, t, clusters.len() as int);
    if d < c {
        assert(t < clusters[c]);
    } else if d > c {
        if c + 1 < d {
            lemma_clusters_sorted(clusters, n, c + 1, d);
        }
    }
}

/// The cluster of a triangle holds the triangle.
pub proof fn lemma_cluster_holds(clusters: Seq<u32>, n: int, t: int)
    requires
        valid_clusters(clusters, n),
        0 <= t < n,
    ensures
        0 <= cluster_of(clusters, t, clusters.len() as int) < clusters.len(),
        clusters[cluster_of(clusters, t, clusters.len() as int)] <= t < cluster_end(
            clusters,
            cluster_of(clusters, t, clusters.len() as int),
            n,
        ),
{
    lemma_cluster_of(clusters, n, t, clusters.len() as int);
}

/// For every key the first cluster that has it, and for every cluster the
/// next cluster with the same key.
fn key_chains(keys: &[u16], count: usize) -> (r: (Vec<usize>, Vec<usize>))
    ensures
        r.0@.len() == SORT_KEY_COUNT,
        r.1@.len() == count,
        forall|k: int|
            0 <= k < SORT_KEY_COUNT ==> (#[trigger] r.0@[k]) == next_with_key(
                keys@,
                count as int,
                k,
                0,
            ),
        forall|c: int|
            0 <= c < count ==> (#[trigger] r.1@[c]) == next_with_key(
                keys@,
                count as int,
                key_at(keys@, c),
                c + 1,
            ),
{
    let mut head: Vec<usize> = Vec::new();
    let mut k: usize = 0;
    while k < SORT_KEY_COUNT
        invariant
            k <= SORT_KEY_COUNT,
            head@.len() == k,
            forall|j: int| 0 <= j < k ==> head@[j] == count,
        decreases SORT_KEY_COUNT - k,
    {
        head.push(count);
        k = k + 1;
    }
    let mut next: Vec<usize> = Vec::new();
    let mut c: usize = 0;
    while c < count
        invariant
            c <= count,
            next@.len() == c,
        decreases count - c,
    {
        next.push(count);
        c = c + 1;
    }
    let mut i: usize = count;
    while i > 0
        invariant
            i <= count,
            head@.len() == SORT_KEY_COUNT,
            next@.len() == count,
            forall|k: int|
                0 <= k < SORT_KEY_COUNT ==> (#[trigger] head@[k]) == next_with_key(
                    keys@,
                    count as int,
                    k,
                    i as int,
                ),
            forall|c: int|
                i <= c < count ==> (#[trigger] next@[c]) == next_with_key(
                    keys@,
                    count as int,
                    key_at(keys@, c),
                    c + 1,
                ),
        decreases i,
    {
        i = i - 1;
        let key: usize = key_of(keys, i);
        next[i] = head[key];
        head[key] = i;
    }
    (head, next)
}

/// The stream with its clusters in the order of their keys.
fn sort_clusters(indices: &[u32], clusters: &[u32], keys: &[u16]) -> (out: Vec<u32>)
    requires
        indices@.len() % 3 == 0,
        valid_clusters(clusters@, indices@.len() as int / 3),
    ensures
        out@ == sorted_clusters(indices@, clusters@, keys@),
        is_reordering(out@, indices@),
{
    let total: usize = indices.len();
    let n: usize = total / 3;
    let count: usize = clusters.len();
    let (head, next) = key_chains(keys, count);
    let mut emitter = Emitter::new(indices);
    let mut k: usize = 0;
    while k < SORT_KEY_COUNT
        invariant
            k <= SORT_KEY_COUNT,
            total == indices@.len(),
            n == total / 3,
            total % 3 == 0,
            count == clusters@.len(),
            valid_clusters(clusters@, n as int),
            head@.len() == SORT_KEY_COUNT,
            next@.len() == count,
            forall|j: int|
                0 <= j < SORT_KEY_COUNT ==> (#[trigger] head@[j]) == next_with_key(
                    keys@,
                    count as int,
                    j,
                    0,
                ),
            forall|c: int|
                0 <= c < count ==> (#[trigger] next@[c]) == next_with_key(
                    keys@,
                    count as int,
                    key_at(keys@, c),
                    c + 1,
                ),
            emitter.wf(indices@),
            emitter.spec_out() == drawn(indices@, clusters@, keys@, k as int, 0),
            forall|t: int|
                0 <= t < n ==> (#[trigger] emitter.spec_done(t)) == drawn_before(
                    keys@,
                    cluster_of(clusters@, t, count as int),
                    k as int,
                    0,
                ),
        decreases SORT_KEY_COUNT - k,
    {
        let mut c: usize = head[k];
        proof {
            lemma_next_with_key(keys@, count as int, k as int, 0);
            lemma_drawn_skip(indices@, clusters@, keys@, k as int, 0, c as int);
            if k > 0 {
                assert(drawn(indices@, clusters@, keys@, k as int, 0) == drawn(
                    indices@,
                    clusters@,
                    keys@,
                    k - 1,
                    count as int,
                ));
            }
            assert forall|t: int| 0 <= t < n implies (#[trigger] emitter.spec_done(t))
                == drawn_before(keys@, cluster_of(clusters@, t, count as int), k as int, c as int) by {
                lemma_cluster_holds(clusters@, n as int, t);
            }
        }
        while c < count
            invariant
                c <= count,
                k < SORT_KEY_COUNT,
                total == indices@.len(),
                n == total / 3,
                total % 3 == 0,
                count == clusters@.len(),
                valid_clusters(clusters@, n as int),
                next@.len() == count,
                forall|d: int|
                    0 <= d < count ==> (#[trigger] next@[d]) == next_with_key(
                        keys@,
                        count as int,
                        key_at(keys@, d),
                        d + 1,
                    ),
                c < count ==> key_at(keys@, c as int) == k,
                emitter.wf(indices@),
                emitter.spec_out() == drawn(indices@, clusters@, keys@, k as int, c as int),
                forall|t: int|
                    0 <= t < n ==> (#[trigger] emitter.spec_done(t)) == drawn_before(
                        keys@,
                        cluster_of(clusters@, t, count as int),
                        k as int,
                        c as int,
                    ),
            decreases count - c,
        {
            emit_cluster(indices, clusters, c, &mut emitter, Ghost(keys@), Ghost(k as int));
            let after: usize = next[c];
            proof {
                lemma_next_with_key(keys@, count as int, k as int, c + 1);
                lemma_drawn_skip(indices@, clusters@, keys@, k as int, c + 1, after as int);
                assert(drawn(indices@, clusters@, keys@, k as int, c + 1) == drawn(
                    indices@,
                    clusters@,
                    keys@,
                    k as int,
                    c as int,
                ) + cluster_indices(indices@, clusters@, c as int));
                assert forall|t: int| 0 <= t < n implies (#[trigger] emitter.spec_done(t))
                    == drawn_before(
                    keys@,
                    cluster_of(clusters@, t, count as int),
                    k as int,
                    after as int,
                ) by {
                    lemma_cluster_holds(clusters@, n as int, t);
                }
            }
            c = after;
        }
        proof {
            assert(drawn(indices@, clusters@, keys@, k + 1, 0) == drawn(
                indices@,
                clusters@,
                keys@,
                k as int,
                count as int,
            ));
            assert forall|t: int| 0 <= t < n implies (#[trigger] emitter.spec_done(t))
                == drawn_before(keys@, cluster_of(clusters@, t, count as int), k + 1, 0) by {
                lemma_cluster_holds(clusters@, n as int, t);
            }
        }
        k = k + 1;
    }
    proof {
        assert forall|t: int| 0 <= t < n implies emitter.spec_done(t) by {
            assert(emitter.spec_done(t) == drawn_before(
                keys@,
                cluster_of(clusters@, t, count as int),
                SORT_KEY_COUNT as int,
                0,
            ));
        }
        emitter.lemma_all_done(indices@);
    }
    emitter.finish(indices)
}

/// Writes the triangles of the cluster `c`, none of which is written yet.
fn emit_cluster(
    indices: &[u32],
    clusters: &[u32],
    c: usize,
    emitter: &mut Emitter,
    Ghost(keys): Ghost<Seq<u16>>,
    Ghost(k): Ghost<int>,
)
    requires
        indices@.len() % 3 == 0,
        valid_clusters(clusters@, indices@.len() as int / 3),
        c < clusters@.len(),
        key_at(keys, c as int) == k,
        old(emitter).wf(indices@),
        forall|t: int|
            0 <= t < indices@.len() / 3 ==> (#[trigger] old(emitter).spec_done(t)) == drawn_before(
                keys,
                cluster_of(clusters@, t, clusters@.len() as int),
                k,
                c as int,
            ),
    ensures
        final(emitter).wf(indices@),
        final(emitter).spec_out() == old(emitter).spec_out() + cluster_indices(
            indices@,
            clusters@,
            c as int,
        ),
        forall|t: int|
            0 <= t < indices@.len() / 3 ==> (#[trigger] final(emitter).spec_done(t)) == (
            drawn_before(keys, cluster_of(clusters@, t, clusters@.len() as int), k, c as int)
                || cluster_of(clusters@, t, clusters@.len() as int) == c),
{
    let total: usize = indices.len();
    let n: usize = total / 3;
    let count: usize = clusters.len();
    let start: usize = clusters[c] as usize;
    let end: usize = if c + 1 < count {
        clusters[c + 1] as usize
    } else {
        n
    };
    assert(start < end <= n) by {
        if c + 1 < count {
            assert(clusters@[c as int] < clusters@[c + 1]);
        }
    }
    let ghost out0 = emitter.spec_out();
    proof {
        assert forall|u: int| start <= u < end implies !(#[trigger] old(emitter).spec_done(u)) by {
            lemma_cluster_is(clusters@, n as int, u, c as int);
        }
    }
    let mut t: usize = start;
    while t < end
        invariant
            start <= t <= end,
            end <= n,
            total == indices@.len(),
            n == total / 3,
            total % 3 == 0,
            emitter.wf(indices@),
            emitter.spec_out() == out0 + indices@.subrange(3 * start, 3 * t),
            forall|u: int| start <= u < end ==> !(#[trigger] old(emitter).spec_done(u)),
            forall|u: int|
                0 <= u < n ==> (#[trigger] emitter.spec_done(u)) == (old(emitter).spec_done(u)
                    || start <= u < t),
        decreases end - t,
    {
        assert(!old(emitter).spec_done(t as int));
        let emitted = emitter.try_emit(indices, t);
        assert(emitted);
        assert(emitter.spec_out() =~= out0 + indices@.subrange(3 * start, 3 * (t + 1)));
        t = t + 1;
    }
    proof {
        assert forall|u: int| 0 <= u < n implies (#[trigger] emitter.spec_done(u)) == (
        drawn_before(keys, cluster_of(clusters@, u, count as int), k, c as int) || cluster_of(
            clusters@,
            u,
            count as int,
        ) == c) by {
            assert(old(emitter).spec_done(u) == drawn_before(
                keys,
                cluster_of(clusters@, u, count as int),
                k,
                c as int,
            ));
            lemma_cluster_holds(clusters@, n as int, u);
            if start <= u < end {
                lemma_cluster_is(clusters@, n as int, u, c as int);
            }
        }
    }
}

/// Draws the clusters of a stream by their sort keys, as far as the vertex
/// cache allows.
///
/// `clusters` holds the triangle at which each cluster starts and `keys` a
/// sort key for each cluster. The clusters are put in the order of their
/// keys, clusters with the same key in their old order; within a cluster the
/// triangles keep their order. This new order is measured on a cache of
/// [`OVERDRAW_CACHE_SIZE`] vertices: it is returned if it misses the cache at
/// most `threshold_num / threshold_den` times as often as `indices` does, and
/// else `indices` is returned as it is.
pub fn reorder_clusters(
    indices: &[u32],
    vertex_count: usize,
    clusters: &[u32],
    keys: &[u16],
    threshold_num: u32,
    threshold_den: u32,
) -> (out: Vec<u32>)
    requires
        valid_index_stream(indices@, vertex_count as int),
        valid_clusters(clusters@, indices@.len() as int / 3),
    ensures
        is_reordering(out@, indices@),
        out@ == if cache_misses(
            sorted_clusters(indices@, clusters@, keys@),
            OVERDRAW_CACHE_SIZE as int,
        ) * threshold_den <= cache_misses(indices@, OVERDRAW_CACHE_SIZE as int) * threshold_num {
            sorted_clusters(indices@, clusters@, keys@)
        } else {
            indices@
        },
        threshold_num >= threshold_den ==> cache_misses(out@, OVERDRAW_CACHE_SIZE as int)
            * threshold_den <= cache_misses(indices@, OVERDRAW_CACHE_SIZE as int) * threshold_num,
{
    let sorted = sort_clusters(indices, clusters, keys);
    proof {
        crate::vertex_cache::lemma_reordering_valid(sorted@, indices@, vertex_count as int);
        crate::vertex_cache::lemma_reordering_same(indices@);
    }
    let before = analyze_vertex_cache(indices, vertex_count, OVERDRAW_CACHE_SIZE, 0, 0);
    let after = analyze_vertex_cache(sorted.as_slice(), vertex_count, OVERDRAW_CACHE_SIZE, 0, 0);
    let b: u128 = before.vertices_transformed as u128;
    let a: u128 = after.vertices_transformed as u128;
    assert(b * threshold_num <= 0xffff_ffff_ffff_ffff * 0xffff_ffff && a * threshold_den
        <= 0xffff_ffff_ffff_ffff * 0xffff_ffff) by (nonlinear_arith)
        requires
            0 <= a <= 0xffff_ffff_ffff_ffff,
            0 <= b <= 0xffff_ffff_ffff_ffff,
            0 <= threshold_num <= 0xffff_ffff,
            0 <= threshold_den <= 0xffff_ffff,
    ;
    let allowed: u128 = b * (threshold_num as u128);
    let needed: u128 = a * (threshold_den as u128);
    proof {
        if threshold_num >= threshold_den {
            assert(b * threshold_den <= b * threshold_num) by (nonlinear_arith)
                requires
                    b >= 0,
                    threshold_num >= threshold_den,
            ;
        }
    }
    if needed <= allowed {
        sorted
    } else {
        vstd::slice::slice_to_vec(indices)
    }
}

/// The key of the cluster `c`.
fn key_of(keys: &[u16], c: usize) -> (key: usize)
    ensures
        key == key_at(keys@, c as int),
        key < SORT_KEY_COUNT,
{
    if c < keys.len() && (keys[c] as usize) < SORT_KEY_COUNT {
        keys[c] as usize
    } else {
        SORT_KEY_COUNT - 1
    }
}

} // verus!
