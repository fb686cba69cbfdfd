//! Vertex fetch optimization: vertices renumbered in the order in which the
//! index stream first names them, so that the vertex buffer is read front to
//! back.

use vstd::prelude::*;
use vstd::set_lib::{lemma_int_range, lemma_len_subset, set_int_range};
use crate::indices::valid_index_stream;

verus! {

/// The entry of a remap table for a vertex that no index names.
pub const UNUSED: u32 = 0xffff_ffff;

/// How many different vertices an index can name.
pub open spec fn index_space() -> int {
    0x1_0000_0000
}

/// Whether one of the first `i` indices names the vertex `v`.
pub open spec fn touched(indices: Seq<u32>, i: int, v: int) -> bool {
    exists|k: int| 0 <= k < i && k < indices.len() && #[trigger] indices[k] == v
}

/// How many different vertices the first `i` indices name.
pub open spec fn touch_count(indices: Seq<u32>, i: int) -> int
    decreases i,
{
    if i <= 0 {
        0
    } else {
        touch_count(indices, i - 1) + if touched(indices, i - 1, indices[i - 1] as int) {
            0int
        } else {
            1int
        }
    }
}

/// The first position at or behind `from` that names the vertex `v`; the
/// length of the stream if there is none.
pub open spec fn first_touch(indices: Seq<u32>, v: int, from: int) -> int
    decreases indices.len() - from,
{
    if from < 0 || from >= indices.len() {
        indices.len() as int
    } else if indices[from] == v {
        from
    } else {
        first_touch(indices, v, from + 1)
    }
}

/// The new index of the vertex `v`: the number of different vertices that the
/// stream names before it first names `v`; [`UNUSED`] if it never does.
pub open spec fn new_index(indices: Seq<u32>, v: int) -> u32 {
    if touched(indices, indices.len() as int, v) {
        touch_count(indices, first_touch(indices, v, 0)) as u32
    } else {
        UNUSED
    }
}

/// The remap table of a mesh of `vertex_count` vertices: the new index of
/// every vertex.
pub open spec fn fetch_remap(indices: Seq<u32>, vertex_count: int) -> Seq<u32> {
    Seq::new(vertex_count as nat, |v: int| new_index(indices, v))
}

/// A stream with every index replaced by its entry in `remap`.
pub open spec fn remapped_indices(indices: Seq<u32>, remap: Seq<u32>) -> Seq<u32> {
    Seq::new(indices.len(), |i: int| remap[indices[i] as int])
}

/// The last of the first `upto` vertices that `remap` sends to `j`; -1 if
/// there is none.
pub open spec fn last_source(remap: Seq<u32>, j: int, upto: int) -> int
    decreases upto,
{
    if upto <= 0 {
        -1
    } else if remap[upto - 1] == j {
        upto - 1
    } else {
        last_source(remap, j, upto - 1)
    }
}

/// A table that can be applied to a vertex buffer to get `vertex_count`
/// vertices: every entry is a new index or [`UNUSED`], and every new index
/// has a vertex.
pub open spec fn is_remap_onto(remap: Seq<u32>, vertex_count: int) -> bool {
    &&& vertex_count <= UNUSED
    &&& forall|i: int|
        0 <= i < remap.len() ==> (#[trigger] remap[i]) == UNUSED || remap[i] < vertex_count
    &&& forall|j: int| 0 <= j < vertex_count ==> 0 <= #[trigger] last_source(
        remap,
        j,
        remap.len() as int,
    )
}

/// Where the search for `v` ends: at a position that names `v`, with no
/// position that names `v` in front of it.
pub proof fn lemma_first_touch(indices: Seq<u32>, v: int, from: int)
    requires
        0 <= from <= indices.len(),
    ensures
        from <= first_touch(indices, v, from) <= indices.len(),
        first_touch(indices, v, from) < indices.len() ==> indices[first_touch(indices, v, from)]
            == v,
        forall|k: int| from <= k < first_touch(indices, v, from) ==> indices[k] != v,
    decreases indices.len() - from,
{
    if from < indices.len() && indices[from] != v {
        lemma_first_touch(indices, v, from + 1);
    }
}

/// A vertex is named by one of the first `i` indices exactly if it is first
/// named in front of `i`.
pub proof fn lemma_touched(indices: Seq<u32>, i: int, v: int)
    requires
        0 <= i <= indices.len(),
    ensures
        touched(indices, i, v) <==> first_touch(indices, v, 0) < i,
{
    lemma_first_touch(indices, v, 0);
    let f = first_touch(indices, v, 0);
    if f < i {
        assert(indices[f] == v);
    }
}

/// The count of different vertices grows with the indices looked at, by at
/// most one for each.
pub proof fn lemma_touch_count_monotone(indices: Seq<u32>, i: int, j: int)
    requires
        0 <= i <= j,
    ensures
        0 <= touch_count(indices, i) <= touch_count(indices, j),
        touch_count(indices, j) <= touch_count(indices, i) + (j - i),
        touch_count(indices, i) <= i,
    decreases j,
{
    if i < j {
        lemma_touch_count_monotone(indices, i, j - 1);
    } else if i > 0 {
        lemma_touch_count_monotone(indices, i - 1, i - 1);
    }
}

/// The vertices that the first `i` indices name.
pub open spec fn touched_set(indices: Seq<u32>, i: int, vertex_count: int) -> Set<int> {
    Set::new(|v: int| 0 <= v < vertex_count && touched(indices, i, v))
}

/// The count of different vertices is the size of the set of vertices named.
pub proof fn lemma_touch_count_is_len(indices: Seq<u32>, i: int, vertex_count: int)
    requires
        0 <= i <= indices.len(),
        forall|k: int| 0 <= k < indices.len() ==> (#[trigger] indices[k]) < vertex_count,
    ensures
        touched_set(indices, i, vertex_count).finite(),
        touched_set(indices, i, vertex_count).len() == touch_count(indices, i),
    decreases i,
{
    let range = set_int_range(0, vertex_count);
    lemma_int_range(0, if vertex_count >= 0 {
        vertex_count
    } else {
        0
    });
    if i <= 0 {
        assert(touched_set(indices, i, vertex_count) =~= Set::<int>::empty());
    } else {
        lemma_touch_count_is_len(indices, i - 1, vertex_count);
        let before = touched_set(indices, i - 1, vertex_count);
        let v = indices[i - 1] as int;
        assert(touched_set(indices, i, vertex_count) =~= before.insert(v)) by {
            assert forall|w: int| touched_set(indices, i, vertex_count).contains(w)
                == before.insert(v).contains(w) by {
                if touched(indices, i, w) && w != v {
                    let k = choose|k: int| 0 <= k < i && k < indices.len() && #[trigger] indices[k]
                        == w;
                    assert(k < i - 1);
                }
                if w == v {
                    assert(indices[i - 1] == w);
                }
            }
        }
    }
}

/// As long as a vertex of the mesh is not named yet, fewer different vertices
/// are named than the mesh has.
pub proof fn lemma_touch_count_below(indices: Seq<u32>, i: int, vertex_count: int, v: int)
    requires
        0 <= i <= indices.len(),
        forall|k: int| 0 <= k < indices.len() ==> (#[trigger] indices[k]) < vertex_count,
        0 <= v < vertex_count,
        !touched(indices, i, v),
    ensures
        touch_count(indices, i) < vertex_count,
{
    lemma_touch_count_is_len(indices, i, vertex_count);
    lemma_int_range(0, vertex_count);
    let range = set_int_range(0, vertex_count);
    let rest = range.remove(v);
    assert(touched_set(indices, i, vertex_count).subset_of(rest));
    lemma_len_subset(touched_set(indices, i, vertex_count), rest);
}

/// The new index of a vertex that the stream names is below the count of
/// vertices that it names, and two such vertices have different new indices.
pub proof fn lemma_new_index(indices: Seq<u32>, vertex_count: int, v: int, w: int)
    requires
        forall|k: int| 0 <= k < indices.len() ==> (#[trigger] indices[k]) < vertex_count,
        touched(indices, indices.len() as int, v),
        touched(indices, indices.len() as int, w),
    ensures
        0 <= v < vertex_count,
        new_index(indices, v) == touch_count(indices, first_touch(indices, v, 0)),
        new_index(indices, v) < touch_count(indices, indices.len() as int),
        touch_count(indices, indices.len() as int) <= vertex_count,
        v != w ==> new_index(indices, v) != new_index(indices, w),
        first_touch(indices, v, 0) < first_touch(indices, w, 0) ==> new_index(indices, v)
            < new_index(indices, w),
{
    let n = indices.len() as int;
    lemma_touched(indices, n, v);
    lemma_touched(indices, n, w);
    lemma_first_touch(indices, v, 0);
    lemma_first_touch(indices, w, 0);
    let fv = first_touch(indices, v, 0);
    let fw = first_touch(indices, w, 0);
    lemma_rank(indices, vertex_count, fv);
    lemma_rank(indices, vertex_count, fw);
    lemma_rank(indices, index_space(), fv);
    lemma_rank(indices, index_space(), fw);
    lemma_touch_count_monotone(indices, fv + 1, n);
    lemma_touch_count_monotone(indices, fw + 1, n);
    lemma_touch_count_is_len(indices, n, vertex_count);
    lemma_int_range(0, vertex_count);
    lemma_len_subset(touched_set(indices, n, vertex_count), set_int_range(0, vertex_count));
    if fv < fw {
        lemma_touch_count_monotone(indices, fv + 1, fw);
    }
    if fw < fv {
        lemma_touch_count_monotone(indices, fw + 1, fv);
    }
}

/// At a position that names a vertex for the first time the count of
/// different vertices grows by one, and stays below the size of the mesh.
pub proof fn lemma_rank(indices: Seq<u32>, vertex_count: int, f: int)
    requires
        forall|k: int| 0 <= k < indices.len() ==> (#[trigger] indices[k]) < vertex_count,
        0 <= f < indices.len(),
        first_touch(indices, indices[f] as int, 0) == f,
    ensures
        !touched(indices, f, indices[f] as int),
        touch_count(indices, f + 1) == touch_count(indices, f) + 1,
        0 <= touch_count(indices, f) < vertex_count,
{
    lemma_touched(indices, f, indices[f] as int);
    lemma_touch_count_below(indices, f, vertex_count, indices[f] as int);
    lemma_touch_count_monotone(indices, 0, f);
}

/// Every number below the count of vertices named is the new index of a
/// vertex.
pub proof fn lemma_new_index_onto(indices: Seq<u32>, vertex_count: int, i: int, j: int) -> (v:
    int)
    requires
        forall|k: int| 0 <= k < indices.len() ==> (#[trigger] indices[k]) < vertex_count,
        0 <= i <= indices.len(),
        0 <= j < touch_count(indices, i),
    ensures
        0 <= v < vertex_count,
        touched(indices, i, v),
        new_index(indices, v) == j,
    decreases i,
{
    let last = indices[i - 1] as int;
    if touch_count(indices, i - 1) > j {
        let v = lemma_new_index_onto(indices, vertex_count, i - 1, j);
        let k = choose|k: int| 0 <= k < i - 1 && k < indices.len() && #[trigger] indices[k] == v;
        assert(indices[k] == v);
        v
    } else {
        lemma_touch_count_monotone(indices, i - 1, i);
        assert(!touched(indices, i - 1, last));
        assert(indices[i - 1] == last);
        lemma_touched(indices, i - 1, last);
        lemma_touched(indices, i, last);
        lemma_touched(indices, indices.len() as int, last);
        lemma_rank(indices, vertex_count, i - 1);
        lemma_rank(indices, index_space(), i - 1);
        last
    }
}

/// The table after the first `i` indices were looked at: the new index of
/// every vertex that they name, [`UNUSED`] for the others.
pub open spec fn remap_upto(indices: Seq<u32>, vertex_count: int, i: int) -> Seq<u32> {
    Seq::new(
        vertex_count as nat,
        |v: int|
            if touched(indices, i, v) {
                new_index(indices, v)
            } else {
                UNUSED
            },
    )
}

/// Looking at one more index changes the table at most at the vertex that
/// the index names, which gets the count of vertices named so far.
pub proof fn lemma_remap_step(indices: Seq<u32>, vertex_count: int, i: int)
    requires
        forall|k: int| 0 <= k < indices.len() ==> (#[trigger] indices[k]) < vertex_count,
        0 <= i < indices.len(),
    ensures
        touched(indices, i, indices[i] as int) ==> {
            &&& remap_upto(indices, vertex_count, i + 1) == remap_upto(indices, vertex_count, i)
            &&& remap_upto(indices, vertex_count, i)[indices[i] as int] < touch_count(indices, i)
            &&& touch_count(indices, i + 1) == touch_count(indices, i)
        },
        !touched(indices, i, indices[i] as int) ==> {
            &&& remap_upto(indices, vertex_count, i + 1) == remap_upto(
                indices,
                vertex_count,
                i,
            ).update(indices[i] as int, touch_count(indices, i) as u32)
            &&& remap_upto(indices, vertex_count, i)[indices[i] as int] == UNUSED
            &&& touch_count(indices, i + 1) == touch_count(indices, i) + 1
            &&& 0 <= touch_count(indices, i) < vertex_count
            &&& touch_count(indices, i) <= UNUSED
            &&& new_index(indices, indices[i] as int) == touch_count(indices, i)
        },
        0 <= touch_count(indices, i) <= index_space(),
        remap_upto(indices, vertex_count, i + 1)[indices[i] as int] == new_index(
            indices,
            indices[i] as int,
        ),
{
    let n = indices.len() as int;
    let x = indices[i] as int;
    let a = remap_upto(indices, vertex_count, i);
    let b = remap_upto(indices, vertex_count, i + 1);
    lemma_touched(indices, i, x);
    lemma_touched(indices, i + 1, x);
    lemma_touched(indices, n, x);
    lemma_first_touch(indices, x, 0);
    assert(indices[i] == x);
    assert(touched(indices, n, x));
    lemma_new_index(indices, vertex_count, x, x);
    lemma_touch_count_monotone(indices, first_touch(indices, x, 0) + 1, i + 1);
    if first_touch(indices, x, 0) < i {
        lemma_touch_count_monotone(indices, first_touch(indices, x, 0) + 1, i);
    }
    lemma_touch_count_monotone(indices, 0, i);
    lemma_rank(indices, vertex_count, first_touch(indices, x, 0));
    lemma_rank(indices, index_space(), first_touch(indices, x, 0));
    lemma_touch_count_is_len(indices, i, index_space());
    lemma_int_range(0, index_space());
    lemma_len_subset(touched_set(indices, i, index_space()), set_int_range(0, index_space()));
    assert forall|v: int| 0 <= v < vertex_count && v != x implies a[v] == b[v] by {
        lemma_touched(indices, i, v);
        lemma_touched(indices, i + 1, v);
        lemma_first_touch(indices, v, 0);
    }
    if touched(indices, i, x) {
        assert(a =~= b);
    } else {
        assert(first_touch(indices, x, 0) == i);
        assert(b =~= a.update(x, touch_count(indices, i) as u32));
    }
}

/// The table [`fetch_remap`] is the table after all indices were looked at.
pub proof fn lemma_remap_done(indices: Seq<u32>, vertex_count: int)
    ensures
        remap_upto(indices, vertex_count, indices.len() as int) == fetch_remap(
            indices,
            vertex_count,
        ),
{
    assert(remap_upto(indices, vertex_count, indices.len() as int) =~= fetch_remap(
        indices,
        vertex_count,
    ));
}

/// Makes the remap table that renumbers the vertices of a mesh in the order
/// in which `indices` first names them.
///
/// The table has an entry for every vertex: its new index, or [`UNUSED`] for
/// a vertex that no index names.
pub fn optimize_vertex_fetch_remap(indices: &[u32], vertex_count: usize) -> (remap: Vec<u32>)
    requires
        valid_index_stream(indices@, vertex_count as int),
    ensures
        remap@ == fetch_remap(indices@, vertex_count as int),
{
    let mut remap: Vec<u32> = Vec::new();
    let mut v: usize = 0;
    while v < vertex_count
        invariant
            v <= vertex_count,
            remap@.len() == v,
            forall|k: int| 0 <= k < v ==> remap@[k] == UNUSED,
        decreases vertex_count - v,
    {
        remap.push(UNUSED);
        v = v + 1;
    }
    assert(remap@ =~= remap_upto(indices@, vertex_count as int, 0));
    let mut next: u64 = 0;
    let mut i: usize = 0;
    while i < indices.len()
        invariant
            i <= indices.len(),
            valid_index_stream(indices@, vertex_count as int),
            next == touch_count(indices@, i as int),
            next <= index_space(),
            remap@ == remap_upto(indices@, vertex_count as int, i as int),
        decreases indices.len() - i,
    {
        proof {
            lemma_remap_step(indices@, vertex_count as int, i as int);
        }
        let index: usize = indices[i] as usize;
        // the entry of a vertex is free as long as it reads unused and the
        // new index that reads the same was not handed out
        if remap[index] == UNUSED && next <= UNUSED as u64 {
            remap[index] = next as u32;
            next = next + 1;
        }
        i = i + 1;
    }
    proof {
        lemma_remap_done(indices@, vertex_count as int);
    }
    remap
}

/// How many vertices a remap table keeps: one more than its largest new
/// index.
pub open spec fn remap_count(remap: Seq<u32>, upto: int) -> int
    decreases upto,
{
    if upto <= 0 {
        0
    } else {
        let rest = remap_count(remap, upto - 1);
        if remap[upto - 1] != UNUSED && remap[upto - 1] >= rest {
            remap[upto - 1] + 1
        } else {
            rest
        }
    }
}

/// How many vertices the table `remap` keeps: one more than its largest new
/// index, 0 if it keeps none.
pub fn remap_vertex_count(remap: &[u32]) -> (count: usize)
    ensures
        count == remap_count(remap@, remap@.len() as int),
{
    let mut count: usize = 0;
    let mut i: usize = 0;
    while i < remap.len()
        invariant
            i <= remap.len(),
            count == remap_count(remap@, i as int),
            count <= UNUSED,
        decreases remap.len() - i,
    {
        let entry: u32 = remap[i];
        if entry != UNUSED && entry as usize >= count {
            count = entry as usize + 1;
        }
        i = i + 1;
    }
    count
}

/// Replaces every index of a stream by its entry in `remap`.
pub fn remap_index_buffer(indices: &[u32], remap: &[u32]) -> (r: Vec<u32>)
    requires
        forall|i: int| 0 <= i < indices@.len() ==> (#[trigger] indices@[i]) < remap@.len(),
    ensures
        r@ == remapped_indices(indices@, remap@),
{
    let mut out: Vec<u32> = Vec::with_capacity(indices.len());
    let mut i: usize = 0;
    while i < indices.len()
        invariant
            i <= indices.len(),
            forall|k: int| 0 <= k < indices@.len() ==> (#[trigger] indices@[k]) < remap@.len(),
            out@ == remapped_indices(indices@, remap@).take(i as int),
        decreases indices.len() - i,
    {
        out.push(remap[indices[i] as usize]);
        assert(out@ =~= remapped_indices(indices@, remap@).take(i + 1));
        i = i + 1;
    }
    assert(remapped_indices(indices@, remap@).take(i as int) =~= remapped_indices(
        indices@,
        remap@,
    ));
    out
}

/// Applies a remap table to a vertex buffer: the new vertex `j` is the last
/// old vertex that the table sends to `j`.
pub fn remap_vertex_buffer<T: Copy>(vertices: &[T], vertex_count: usize, remap: &[u32]) -> (r: Vec<
    T,
>)
    requires
        remap@.len() == vertices@.len(),
        is_remap_onto(remap@, vertex_count as int),
    ensures
        r@.len() == vertex_count,
        forall|j: int|
            0 <= j < vertex_count ==> #[trigger] r@[j] == vertices@[last_source(
                remap@,
                j,
                remap@.len() as int,
            )],
{
    let mut source: Vec<usize> = Vec::new();
    let mut j: usize = 0;
    while j < vertex_count
        invariant
            j <= vertex_count,
            source@.len() == j,
            forall|k: int| 0 <= k < j ==> source@[k] == usize::MAX,
        decreases vertex_count - j,
    {
        source.push(usize::MAX);
        j = j + 1;
    }
    let mut i: usize = 0;
    while i < remap.len()
        invariant
            i <= remap.len(),
            remap@.len() == vertices@.len(),
            is_remap_onto(remap@, vertex_count as int),
            source@.len() == vertex_count,
            forall|k: int|
                0 <= k < vertex_count ==> if last_source(remap@, k, i as int) < 0 {
                    (#[trigger] source@[k]) == usize::MAX
                } else {
                    source@[k] == last_source(remap@, k, i as int)
                },
        decreases remap.len() - i,
    {
        let entry: u32 = remap[i];
        if entry != UNUSED {
            source[entry as usize] = i;
        }
        i = i + 1;
    }
    let mut out: Vec<T> = Vec::with_capacity(vertex_count);
    let mut j: usize = 0;
    while j < vertex_count
        invariant
            j <= vertex_count,
            remap@.len() == vertices@.len(),
            is_remap_onto(remap@, vertex_count as int),
            source@.len() == vertex_count,
            forall|k: int|
                0 <= k < vertex_count ==> (#[trigger] source@[k]) == last_source(
                    remap@,
                    k,
                    remap@.len() as int,
                ),
            out@.len() == j,
            forall|k: int|
                0 <= k < j ==> #[trigger] out@[k] == vertices@[last_source(
                    remap@,
                    k,
                    remap@.len() as int,
                )],
        decreases vertex_count - j,
    {
        proof {
            lemma_last_source(remap@, j as int, remap@.len() as int);
        }
        out.push(vertices[source[j]]);
        j = j + 1;
    }
    out
}

/// The last vertex that a table sends to `j` is a vertex of the table that it
/// sends to `j`, and none behind it is sent to `j`.
pub proof fn lemma_last_source(remap: Seq<u32>, j: int, upto: int)
    requires
        0 <= upto <= remap.len(),
    ensures
        -1 <= last_source(remap, j, upto) < upto,
        last_source(remap, j, upto) >= 0 ==> remap[last_source(remap, j, upto)] == j,
        forall|i: int| last_source(remap, j, upto) < i < upto ==> remap[i] != j,
    decreases upto,
{
    if upto > 0 && remap[upto - 1] != j {
        lemma_last_source(remap, j, upto - 1);
    }
}

/// Renumbers the vertices of a mesh in the order in which `indices` first
/// names them: returns the vertices that are named, in that order, and
/// rewrites `indices` to match.
///
/// Every corner of every triangle keeps its vertex: the new index leads to
/// the same vertex data in the new buffer as the old index did in the old.
pub fn optimize_vertex_fetch<T: Copy>(indices: &mut [u32], vertices: &[T]) -> (r: Vec<T>)
    requires
        valid_index_stream(old(indices)@, vertices@.len() as int),
    ensures
        final(indices)@ == remapped_indices(
            old(indices)@,
            fetch_remap(old(indices)@, vertices@.len() as int),
        ),
        r@.len() == touch_count(old(indices)@, old(indices)@.len() as int),
        r@.len() <= vertices@.len(),
        forall|v: int|
            0 <= v < vertices@.len() && touched(old(indices)@, old(indices)@.len() as int, v)
                ==> r@[new_index(old(indices)@, v) as int] == #[trigger] vertices@[v],
        forall|i: int|
            0 <= i < final(indices)@.len() ==> (#[trigger] final(indices)@[i]) < r@.len()
                && r@[final(indices)@[i] as int] == vertices@[old(indices)@[i] as int],
{
    let ghost before = indices@;
    let vertex_count: usize = vertices.len();
    let count: usize = indices.len();
    let remap: Vec<u32> = optimize_vertex_fetch_remap(indices, vertex_count);
    let mut out: Vec<T> = Vec::new();
    let mut i: usize = 0;
    while i < count
        invariant
            i <= count,
            count == before.len(),
            indices@.len() == count,
            vertex_count == vertices@.len(),
            valid_index_stream(before, vertex_count as int),
            remap@ == fetch_remap(before, vertex_count as int),
            out@.len() == touch_count(before, i as int),
            forall|k: int| i <= k < count ==> indices@[k] == before[k],
            forall|k: int|
                0 <= k < i ==> (#[trigger] indices@[k]) == new_index(before, before[k] as int),
            forall|w: int|
                0 <= w < vertex_count && #[trigger] touched(before, i as int, w) ==> (new_index(
                    before,
                    w,
                ) < out@.len() && out@[new_index(before, w) as int] == vertices@[w]),
        decreases count - i,
    {
        proof {
            lemma_remap_step(before, vertex_count as int, i as int);
        }
        let index: usize = indices[i] as usize;
        assert(index == before[i as int]);
        let entry: u32 = remap[index];
        assert(entry == new_index(before, index as int));
        let ghost out0 = out@;
        // the vertex whose new index is the next to hand out is new
        if entry as usize == out.len() {
            out.push(vertices[index]);
        }
        proof {
            let x = index as int;
            assert(before[i as int] == x);
            assert(touched(before, i + 1, x));
            assert forall|w: int|
                0 <= w < vertex_count && #[trigger] touched(before, i + 1, w) implies (new_index(
                before,
                w,
            ) < out@.len() && out@[new_index(before, w) as int] == vertices@[w]) by {
                if touched(before, i as int, w) {
                    assert(new_index(before, w) < out0.len() && out0[new_index(before, w) as int]
                        == vertices@[w]);
                } else {
                    let k = choose|k: int|
                        0 <= k < i + 1 && k < before.len() && #[trigger] before[k] == w;
                    assert(k == i);
                    assert(w == x);
                }
            }
        }
        indices[i] = entry;
        i = i + 1;
    }
    proof {
        let n = vertex_count as int;
        assert(indices@ =~= remapped_indices(before, fetch_remap(before, n)));
        assert forall|k: int| 0 <= k < indices@.len() implies (#[trigger] indices@[k]) < out@.len()
            && out@[indices@[k] as int] == vertices@[before[k] as int] by {
            let w = before[k] as int;
            assert(before[k] as int == w);
            assert(touched(before, count as int, w));
            assert(out@[new_index(before, w) as int] == vertices@[w]);
        }
        if count > 0 {
            assert(touched(before, count as int, before[0] as int));
            lemma_new_index(before, n, before[0] as int, before[0] as int);
        }
    }
    out
}

/// Renumbers the vertices of a mesh in place: the vertices that are named
/// come to the front of `vertices`, in the order in which `indices` first
/// names them, `indices` is rewritten to match, and the rest of `vertices`
/// stays as it was. Returns how many vertices are named.
pub fn optimize_vertex_fetch_in_place<T: Copy>(indices: &mut [u32], vertices: &mut [T]) -> (count:
    usize)
    requires
        valid_index_stream(old(indices)@, old(vertices)@.len() as int),
    ensures
        final(indices)@ == remapped_indices(
            old(indices)@,
            fetch_remap(old(indices)@, old(vertices)@.len() as int),
        ),
        count == touch_count(old(indices)@, old(indices)@.len() as int),
        count <= old(vertices)@.len(),
        final(vertices)@.len() == old(vertices)@.len(),
        forall|j: int| count <= j < final(vertices)@.len() ==> final(vertices)@[j] == old(vertices)@[j],
        forall|i: int|
            0 <= i < final(indices)@.len() ==> (#[trigger] final(indices)@[i]) < count && final(vertices)@[final(indices)@[i] as int] == old(vertices)@[old(indices)@[i] as int],
{
    let packed: Vec<T> = optimize_vertex_fetch(indices, vertices);
    let count: usize = packed.len();
    let mut j: usize = 0;
    while j < count
        invariant
            j <= count,
            count == packed@.len(),
            count <= vertices@.len(),
            vertices@.len() == old(vertices)@.len(),
            forall|k: int| 0 <= k < j ==> vertices@[k] == packed@[k],
            forall|k: int| j <= k < vertices@.len() ==> vertices@[k] == old(vertices)@[k],
        decreases count - j,
    {
        vertices[j] = packed[j];
        j = j + 1;
    }
    count
}

/// A vertex that a table sends to `j` is not behind the last such vertex.
pub proof fn lemma_last_source_reaches(remap: Seq<u32>, j: int, upto: int, i: int)
    requires
        0 <= i < upto <= remap.len(),
        remap[i] == j,
    ensures
        i <= last_source(remap, j, upto),
    decreases upto,
{
    if remap[upto - 1] != j {
        lemma_last_source_reaches(remap, j, upto - 1, i);
    }
}

/// The count of a table is above every new index of the table, and, unless it
/// is 0, one above some new index of the table.
pub proof fn lemma_remap_count(remap: Seq<u32>, upto: int)
    requires
        0 <= upto <= remap.len(),
    ensures
        0 <= remap_count(remap, upto),
        forall|i: int| 0 <= i < upto && remap[i] != UNUSED ==> remap[i] < remap_count(remap, upto),
        remap_count(remap, upto) > 0 ==> exists|i: int|
            0 <= i < upto && #[trigger] remap[i] != UNUSED && remap[i] + 1 == remap_count(
                remap,
                upto,
            ),
    decreases upto,
{
    if upto > 0 {
        lemma_remap_count(remap, upto - 1);
        let rest = remap_count(remap, upto - 1);
        if remap[upto - 1] != UNUSED && remap[upto - 1] >= rest {
            assert(remap[upto - 1] + 1 == remap_count(remap, upto));
        } else if rest > 0 {
            let i = choose|i: int|
                0 <= i < upto - 1 && #[trigger] remap[i] != UNUSED && remap[i] + 1 == rest;
            assert(remap[i] + 1 == remap_count(remap, upto));
        }
    }
}

/// The table of a valid stream can be applied to the vertex buffer: it sends
/// the vertices that the stream names one to one onto the new indices, whose
/// count is the count of vertices named, and the other vertices nowhere.
pub proof fn lemma_fetch_remap_is_onto(indices: Seq<u32>, vertex_count: int)
    requires
        valid_index_stream(indices, vertex_count),
        0 <= vertex_count,
        touch_count(indices, indices.len() as int) <= UNUSED,
    ensures
        is_remap_onto(
            fetch_remap(indices, vertex_count),
            touch_count(indices, indices.len() as int),
        ),
        remap_count(fetch_remap(indices, vertex_count), vertex_count) == touch_count(
            indices,
            indices.len() as int,
        ),
        forall|v: int|
            0 <= v < vertex_count && #[trigger] touched(indices, indices.len() as int, v)
                ==> last_source(
                fetch_remap(indices, vertex_count),
                new_index(indices, v) as int,
                vertex_count,
            ) == v,
{
    let n = indices.len() as int;
    let remap = fetch_remap(indices, vertex_count);
    let count = touch_count(indices, n);
    lemma_touch_count_monotone(indices, 0, n);
    lemma_touch_count_is_len(indices, n, vertex_count);
    lemma_int_range(0, vertex_count);
    lemma_len_subset(touched_set(indices, n, vertex_count), set_int_range(0, vertex_count));
    assert forall|i: int| 0 <= i < remap.len() implies (#[trigger] remap[i]) == UNUSED || remap[i]
        < count by {
        if touched(indices, n, i) {
            lemma_new_index(indices, vertex_count, i, i);
        }
    }
    assert forall|j: int| 0 <= j < count implies 0 <= #[trigger] last_source(
        remap,
        j,
        remap.len() as int,
    ) by {
        let v = lemma_new_index_onto(indices, vertex_count, n, j);
        assert(remap[v] == j);
        lemma_last_source_reaches(remap, j, vertex_count, v);
    }
    assert forall|v: int|
        0 <= v < vertex_count && #[trigger] touched(indices, n, v) implies last_source(
        remap,
        new_index(indices, v) as int,
        vertex_count,
    ) == v by {
        let j = new_index(indices, v) as int;
        lemma_new_index(indices, vertex_count, v, v);
        assert(remap[v] == j);
        lemma_last_source_reaches(remap, j, vertex_count, v);
        lemma_last_source(remap, j, vertex_count);
        let w = last_source(remap, j, vertex_count);
        assert(remap[w] == j);
        assert(touched(indices, n, w));
        lemma_new_index(indices, vertex_count, v, w);
    }
    lemma_remap_count(remap, vertex_count);
    if remap_count(remap, vertex_count) > 0 {
        let i = choose|i: int|
            0 <= i < vertex_count && #[trigger] remap[i] != UNUSED && remap[i] + 1 == remap_count(
                remap,
                vertex_count,
            );
        assert(remap[i] < count);
    }
    if count > 0 {
        let v = lemma_new_index_onto(indices, vertex_count, n, count - 1);
        assert(remap[v] == count - 1);
    }
}

/// The remap table keeps the mesh: where the indices are renumbered by the
/// table and a vertex buffer holds every named vertex at its new index, every
/// corner of every triangle keeps its vertex data.
pub proof fn lemma_remap_keeps_corners<T>(
    indices: Seq<u32>,
    vertices: Seq<T>,
    new_vertices: Seq<T>,
)
    requires
        valid_index_stream(indices, vertices.len() as int),
        forall|v: int|
            0 <= v < vertices.len() && #[trigger] touched(indices, indices.len() as int, v)
                ==> new_index(indices, v) < new_vertices.len() && new_vertices[new_index(
                indices,
                v,
            ) as int] == vertices[v],
    ensures
        forall|i: int|
            0 <= i < indices.len() ==> {
                let new = #[trigger] remapped_indices(
                    indices,
                    fetch_remap(indices, vertices.len() as int),
                )[i];
                new < new_vertices.len() && new_vertices[new as int] == vertices[indices[i] as int]
            },
{
    let remap = fetch_remap(indices, vertices.len() as int);
    assert forall|i: int| 0 <= i < indices.len() implies {
        let new = #[trigger] remapped_indices(indices, remap)[i];
        new < new_vertices.len() && new_vertices[new as int] == vertices[indices[i] as int]
    } by {
        let v = indices[i] as int;
        assert(indices[i] == v);
        assert(touched(indices, indices.len() as int, v));
    }
}

/// The fetch optimizer keeps the mesh: where the table of a valid stream is
/// applied to the stream and, as [`remap_vertex_buffer`] does it, to the
/// vertex buffer, every corner of every triangle keeps its vertex data. The
/// stream must leave one of the 2^32 vertices that an index can name unnamed:
/// the table has no entry to tell the last new index from [`UNUSED`].
pub proof fn lemma_fetch_keeps_triangles<T>(
    indices: Seq<u32>,
    vertices: Seq<T>,
    new_vertices: Seq<T>,
)
    requires
        valid_index_stream(indices, vertices.len() as int),
        touch_count(indices, indices.len() as int) <= UNUSED,
        new_vertices.len() == touch_count(indices, indices.len() as int),
        forall|j: int|
            0 <= j < new_vertices.len() ==> #[trigger] new_vertices[j] == vertices[last_source(
                fetch_remap(indices, vertices.len() as int),
                j,
                vertices.len() as int,
            )],
    ensures
        forall|i: int|
            0 <= i < indices.len() ==> {
                let new = #[trigger] remapped_indices(
                    indices,
                    fetch_remap(indices, vertices.len() as int),
                )[i];
                new < new_vertices.len() && new_vertices[new as int] == vertices[indices[i] as int]
            },
{
    let n = vertices.len() as int;
    let remap = fetch_remap(indices, n);
    lemma_fetch_remap_is_onto(indices, n);
    assert forall|i: int| 0 <= i < indices.len() implies {
        let new = #[trigger] remapped_indices(indices, remap)[i];
        new < new_vertices.len() && new_vertices[new as int] == vertices[indices[i] as int]
    } by {
        let v = indices[i] as int;
        assert(indices[i] == v);
        assert(touched(indices, indices.len() as int, v));
        lemma_new_index(indices, n, v, v);
        let j = new_index(indices, v) as int;
        assert(new_vertices[j] == vertices[last_source(remap, j, n)]);
    }
}

} // verus!
