//! Reordering the triangles of an index stream: whatever picks the order,
//! every triangle is written exactly once, as it stands in the input.

use vstd::prelude::*;
use crate::indices::tri_at;

verus! {

/// An order of some of `n` triangles: positions below `n`, none twice.
pub open spec fn is_triangle_order(order: Seq<int>, n: int) -> bool {
    &&& forall|k: int| 0 <= k < order.len() ==> 0 <= #[trigger] order[k] < n
    &&& order.no_duplicates()
}

/// The triangles of `out` are those at the positions `order` of `input`.
pub open spec fn follows_order(out: Seq<u32>, input: Seq<u32>, order: Seq<int>) -> bool {
    &&& out.len() == 3 * order.len()
    &&& forall|k: int| 0 <= k < order.len() ==> #[trigger] tri_at(out, k) == tri_at(input, order[k])
}

/// `out` holds the triangles of `input` in the order `order`: all of them,
/// each once, with their corners as they stand in `input`.
pub open spec fn is_reordering_by(out: Seq<u32>, input: Seq<u32>, order: Seq<int>) -> bool {
    &&& order.len() == input.len() / 3
    &&& is_triangle_order(order, input.len() as int / 3)
    &&& follows_order(out, input, order)
}

/// `out` holds the triangles of `input` in some order: all of them, each
/// once, with their corners as they stand in `input`.
pub open spec fn is_reordering(out: Seq<u32>, input: Seq<u32>) -> bool {
    out.len() == input.len() && exists|order: Seq<int>| is_reordering_by(out, input, order)
}

/// The triangles of a stream, in their order.
pub open spec fn triangles(s: Seq<u32>) -> Seq<(u32, u32, u32)> {
    Seq::new(s.len() / 3, |k: int| tri_at(s, k))
}

/// A sequence whose entries are those of another at positions that are all
/// different holds the same entries as often as the other.
pub proof fn lemma_permuted_multiset<A>(a: Seq<A>, b: Seq<A>, p: Seq<int>)
    requires
        a.len() == b.len(),
        p.len() == b.len(),
        forall|k: int| 0 <= k < p.len() ==> 0 <= #[trigger] p[k] < a.len(),
        p.no_duplicates(),
        forall|k: int| 0 <= k < b.len() ==> #[trigger] b[k] == a[p[k]],
    ensures
        a.to_multiset() == b.to_multiset(),
    decreases a.len(),
{
    broadcast use vstd::multiset::group_multiset_axioms;

    if a.len() == 0 {
        assert(a =~= b);
    } else {
        let n = a.len() as int;
        let j = p[n - 1];
        let rest = a.remove(j);
        let front = b.drop_last();
        let shifted = Seq::new(
            (n - 1) as nat,
            |k: int|
                if p[k] < j {
                    p[k]
                } else {
                    p[k] - 1
                },
        );
        assert forall|k: int| 0 <= k < shifted.len() implies 0 <= #[trigger] shifted[k] < rest.len() by {
            assert(p[k] != p[n - 1]);
        }
        assert(shifted.no_duplicates()) by {
            assert forall|x: int, y: int|
                0 <= x < shifted.len() && 0 <= y < shifted.len() && x != y implies shifted[x] != shifted[y] by {
                assert(p[x] != p[y]);
                assert(p[x] != j && p[y] != j);
            }
        }
        assert forall|k: int| 0 <= k < front.len() implies #[trigger] front[k] == rest[shifted[k]] by {
            assert(b[k] == a[p[k]]);
            assert(p[k] != p[n - 1]);
        }
        lemma_permuted_multiset(rest, front, shifted);
        vstd::seq_lib::to_multiset_remove(a, j);
        vstd::seq_lib::to_multiset_build(front, b[n - 1]);
        assert(front.push(b[n - 1]) =~= b);
        assert(b[n - 1] == a[j]);
        vstd::seq_lib::to_multiset_contains(a, a[j]);
        assert(a.contains(a[j]));
        assert(a.to_multiset().count(a[j]) > 0);
        assert(a.to_multiset().remove(a[j]).insert(a[j]) =~= a.to_multiset());
    }
}

/// A reordering keeps the triangles: every triangle, with its corners in
/// their order, occurs in the output as often as in the input.
pub proof fn lemma_reordering_keeps_triangles(out: Seq<u32>, input: Seq<u32>)
    requires
        is_reordering(out, input),
    ensures
        triangles(out).to_multiset() == triangles(input).to_multiset(),
{
    let order = choose|order: Seq<int>| is_reordering_by(out, input, order);
    assert forall|k: int| 0 <= k < triangles(out).len() implies #[trigger] triangles(out)[k]
        == triangles(input)[order[k]] by {
        assert(tri_at(out, k) == tri_at(input, order[k]));
    }
    lemma_permuted_multiset(triangles(input), triangles(out), order);
}

/// The stream that holds the triangles of `input` at the positions `order`,
/// in that order.
pub open spec fn ordered(input: Seq<u32>, order: Seq<int>) -> Seq<u32> {
    Seq::new(3 * order.len(), |x: int| input[3 * order[x / 3] + x % 3])
}

/// The order `order` with the triangles from `from` up to `n` that it does
/// not hold put behind it, smallest first.
pub open spec fn completed(order: Seq<int>, n: int, from: int) -> Seq<int>
    decreases n - from,
{
    if from >= n {
        order
    } else if order.contains(from) {
        completed(order, n, from + 1)
    } else {
        completed(order.push(from), n, from + 1)
    }
}

/// Triangles that the order holds add nothing when it is completed.
pub proof fn lemma_completed_skip(order: Seq<int>, n: int, from: int, to: int)
    requires
        from <= to,
        forall|u: int| from <= u < to && u < n ==> order.contains(u),
    ensures
        completed(order, n, from) == completed(order, n, if to < n {
            to
        } else {
            n
        }),
    decreases to - from,
{
    if from < to && from < n {
        lemma_completed_skip(order, n, from + 1, to);
    }
}

/// A stream that follows an order is the stream of that order.
pub proof fn lemma_follows_is_ordered(out: Seq<u32>, input: Seq<u32>, order: Seq<int>)
    requires
        follows_order(out, input, order),
    ensures
        out == ordered(input, order),
{
    assert forall|x: int| 0 <= x < out.len() implies out[x] == ordered(input, order)[x] by {
        let k = x / 3;
        assert(tri_at(out, k) == tri_at(input, order[k]));
    }
    assert(out =~= ordered(input, order));
}

/// How many of the first `i` marks are set.
pub open spec fn marked(marks: Seq<bool>, i: int) -> int
    decreases i,
{
    if i <= 0 {
        0
    } else {
        marked(marks, i - 1) + if marks[i - 1] {
            1int
        } else {
            0int
        }
    }
}

/// No more marks are set than there are.
pub proof fn lemma_marked_bounds(marks: Seq<bool>, i: int)
    requires
        0 <= i,
    ensures
        0 <= marked(marks, i) <= i,
    decreases i,
{
    if i > 0 {
        lemma_marked_bounds(marks, i - 1);
    }
}

/// Setting a mark that was not set adds one to the count behind it.
pub proof fn lemma_marked_set(marks: Seq<bool>, t: int, i: int)
    requires
        0 <= t < marks.len(),
        !marks[t],
        0 <= i <= marks.len(),
    ensures
        marked(marks.update(t, true), i) == marked(marks, i) + if t < i {
            1int
        } else {
            0int
        },
    decreases i,
{
    if i > 0 {
        lemma_marked_set(marks, t, i - 1);
    }
}

/// Where a mark is not set, fewer marks are set than there are.
pub proof fn lemma_marked_missing(marks: Seq<bool>, t: int, i: int)
    requires
        0 <= t < i <= marks.len(),
        !marks[t],
    ensures
        marked(marks, i) < i,
    decreases i,
{
    if t < i - 1 {
        lemma_marked_missing(marks, t, i - 1);
    } else {
        lemma_marked_bounds(marks, i - 1);
    }
}

/// Where every mark is set, the count is the number of marks.
pub proof fn lemma_marked_all(marks: Seq<bool>, i: int)
    requires
        0 <= i <= marks.len(),
        forall|t: int| 0 <= t < i ==> marks[t],
    ensures
        marked(marks, i) == i,
    decreases i,
{
    if i > 0 {
        lemma_marked_all(marks, i - 1);
    }
}

/// Writes the triangles of one input stream in an order that is picked from
/// outside, and sees to it that each is written once.
pub struct Emitter {
    out: Vec<u32>,
    done: Vec<bool>,
    cursor: usize,
    order: Ghost<Seq<int>>,
}

impl Emitter {
    /// The emitter has written the triangles of `input` at the positions of
    /// its order, and has marked exactly those.
    pub closed spec fn wf(&self, input: Seq<u32>) -> bool {
        &&& input.len() % 3 == 0
        &&& self.done@.len() == input.len() / 3
        &&& is_triangle_order(self.order@, input.len() as int / 3)
        &&& follows_order(self.out@, input, self.order@)
        &&& forall|t: int|
            0 <= t < self.done@.len() ==> (#[trigger] self.done@[t]) == self.order@.contains(t)
        &&& self.order@.len() == marked(self.done@, self.done@.len() as int)
        &&& self.cursor <= self.done@.len()
        &&& forall|t: int| 0 <= t < self.cursor ==> self.done@[t]
    }

    /// How many triangles are written.
    pub closed spec fn spec_count(&self) -> int {
        self.order@.len() as int
    }

    /// Whether the triangle `t` is written.
    pub closed spec fn spec_done(&self, t: int) -> bool {
        self.done@[t]
    }

    /// The stream written so far.
    pub closed spec fn spec_out(&self) -> Seq<u32> {
        self.out@
    }

    /// The positions of the triangles written so far, in the order in which
    /// they were written.
    pub closed spec fn spec_order(&self) -> Seq<int> {
        self.order@
    }

    /// What was written is the stream of the order, which holds the
    /// triangles that are marked as written, each once.
    pub proof fn lemma_order(&self, input: Seq<u32>)
        requires
            self.wf(input),
        ensures
            input.len() % 3 == 0,
            is_triangle_order(self.spec_order(), input.len() as int / 3),
            self.spec_count() == self.spec_order().len(),
            self.spec_order().len() <= input.len() / 3,
            self.spec_out() == ordered(input, self.spec_order()),
            forall|t: int|
                0 <= t < input.len() / 3 ==> self.spec_done(t) == self.spec_order().contains(t),
    {
        lemma_follows_is_ordered(self.out@, input, self.order@);
        lemma_marked_bounds(self.done@, self.done@.len() as int);
    }

    /// Where as many triangles are written as the input has, every triangle
    /// is written.
    pub proof fn lemma_all_marked(&self, input: Seq<u32>)
        requires
            self.wf(input),
            self.spec_count() == input.len() / 3,
        ensures
            forall|t: int| 0 <= t < input.len() / 3 ==> self.spec_order().contains(t),
    {
        assert forall|t: int| 0 <= t < input.len() / 3 implies self.spec_order().contains(t) by {
            if !self.done@[t] {
                lemma_marked_missing(self.done@, t, self.done@.len() as int);
            }
        }
    }

    /// Where every triangle is written, as many are written as the input
    /// has.
    pub proof fn lemma_all_done(&self, input: Seq<u32>)
        requires
            self.wf(input),
            forall|t: int| 0 <= t < input.len() / 3 ==> self.spec_done(t),
        ensures
            self.spec_count() == input.len() / 3,
    {
        assert forall|t: int| 0 <= t < self.done@.len() implies self.done@[t] by {
            assert(self.spec_done(t));
        }
        lemma_marked_all(self.done@, self.done@.len() as int);
    }

    /// An emitter for `input` that has written nothing.
    pub fn new(input: &[u32]) -> (r: Self)
        requires
            input@.len() % 3 == 0,
        ensures
            r.wf(input@),
            r.spec_count() == 0,
            r.spec_out() == Seq::<u32>::empty(),
            forall|t: int| 0 <= t < input@.len() / 3 ==> !r.spec_done(t),
    {
        let n: usize = input.len() / 3;
        let mut done: Vec<bool> = Vec::new();
        let mut t: usize = 0;
        while t < n
            invariant
                t <= n,
                done@.len() == t,
                forall|k: int| 0 <= k < t ==> !done@[k],
                marked(done@, t as int) == 0,
            decreases n - t,
        {
            let ghost before = done@;
            done.push(false);
            proof {
                lemma_marked_prefix(before, done@, t as int);
            }
            t = t + 1;
        }
        Emitter { out: Vec::new(), done, cursor: 0, order: Ghost(Seq::<int>::empty()) }
    }

    /// How many triangles are written.
    pub fn count(&self, input: &[u32]) -> (c: usize)
        requires
            self.wf(input@),
        ensures
            c == self.spec_count(),
            c <= input@.len() / 3,
    {
        proof {
            lemma_marked_bounds(self.done@, self.done@.len() as int);
        }
        self.out.len() / 3
    }

    /// Whether the triangle `t` is written; a position behind the last
    /// triangle counts as written.
    pub fn is_done(&self, input: &[u32], t: usize) -> (b: bool)
        requires
            self.wf(input@),
        ensures
            b == (t >= input@.len() / 3 || self.spec_done(t as int)),
    {
        t >= self.done.len() || self.done[t]
    }

    /// Writes the triangle `t` if it is a triangle of the input that is not
    /// written yet, and tells whether it did.
    pub fn try_emit(&mut self, input: &[u32], t: usize) -> (b: bool)
        requires
            old(self).wf(input@),
        ensures
            final(self).wf(input@),
            b == (t < input@.len() / 3 && !old(self).spec_done(t as int)),
            final(self).spec_count() == old(self).spec_count() + if b {
                1int
            } else {
                0int
            },
            b ==> final(self).spec_done(t as int),
            forall|u: int|
                0 <= u < input@.len() / 3 ==> final(self).spec_done(u) == (old(self).spec_done(u)
                    || (b && u == t)),
            final(self).spec_out() == if b {
                old(self).spec_out() + seq![
                    input@[3 * t as int],
                    input@[3 * t + 1],
                    input@[3 * t + 2],
                ]
            } else {
                old(self).spec_out()
            },
            final(self).spec_order() == if b {
                old(self).spec_order().push(t as int)
            } else {
                old(self).spec_order()
            },
    {
        if t >= self.done.len() || self.done[t] {
            return false;
        }
        let total: usize = input.len();
        assert(3 * t + 2 < total);
        let ghost n = input@.len() as int / 3;
        let ghost order0 = self.order@;
        let ghost out0 = self.out@;
        let ghost done0 = self.done@;
        proof {
            lemma_marked_missing(done0, t as int, n);
            lemma_marked_set(done0, t as int, n);
        }
        self.out.push(input[3 * t]);
        self.out.push(input[3 * t + 1]);
        self.out.push(input[3 * t + 2]);
        self.done[t] = true;
        self.order = Ghost(order0.push(t as int));
        proof {
            let order = self.order@;
            let k0 = order0.len() as int;
            assert(self.out@ =~= out0 + seq![input@[3 * t], input@[3 * t + 1], input@[3 * t + 2]]);
            assert forall|k: int| 0 <= k < order.len() implies #[trigger] tri_at(self.out@, k)
                == tri_at(input@, order[k]) by {
                if k < k0 {
                    assert(tri_at(out0, k) == tri_at(input@, order0[k]));
                }
            }
            assert(order.no_duplicates()) by {
                assert forall|x: int, y: int|
                    0 <= x < order.len() && 0 <= y < order.len() && x != y implies order[x]
                    != order[y] by {
                    if x < k0 && y < k0 {
                    } else if x < k0 {
                        assert(order0.contains(order0[x]));
                    } else if y < k0 {
                        assert(order0.contains(order0[y]));
                    }
                }
            }
            assert forall|u: int| 0 <= u < self.done@.len() implies (#[trigger] self.done@[u])
                == order.contains(u) by {
                if u == t {
                    assert(order[k0] == u);
                } else if order.contains(u) {
                    let x = choose|x: int| 0 <= x < order.len() && order[x] == u;
                    assert(order0[x] == u);
                } else if order0.contains(u) {
                    let x = choose|x: int| 0 <= x < order0.len() && order0[x] == u;
                    assert(order[x] == u);
                }
            }
        }
        true
    }

    /// Writes the first triangle of the input that is not written yet, and
    /// returns its position; nothing if all are written.
    pub fn emit_next(&mut self, input: &[u32]) -> (r: Option<usize>)
        requires
            old(self).wf(input@),
        ensures
            final(self).wf(input@),
            match r {
                Some(t) => {
                    &&& t < input@.len() / 3
                    &&& !old(self).spec_done(t as int)
                    &&& forall|u: int| 0 <= u < t ==> old(self).spec_done(u)
                    &&& final(self).spec_done(t as int)
                    &&& final(self).spec_count() == old(self).spec_count() + 1
                    &&& final(self).spec_order() == old(self).spec_order().push(t as int)
                },
                None => {
                    &&& final(self).spec_count() == input@.len() / 3
                    &&& old(self).spec_count() == input@.len() / 3
                    &&& final(self).spec_out() == old(self).spec_out()
                    &&& final(self).spec_order() == old(self).spec_order()
                    &&& forall|u: int| 0 <= u < input@.len() / 3 ==> old(self).spec_done(u)
                },
            },
            forall|u: int|
                0 <= u < input@.len() / 3 && old(self).spec_done(u) ==> final(self).spec_done(u),
    {
        while self.cursor < self.done.len() && self.done[self.cursor]
            invariant
                self.wf(input@),
                self.order@ == old(self).order@,
                self.done@ == old(self).done@,
                self.out@ == old(self).out@,
            decreases self.done@.len() - self.cursor,
        {
            self.cursor = self.cursor + 1;
        }
        if self.cursor >= self.done.len() {
            proof {
                lemma_marked_all(self.done@, self.done@.len() as int);
            }
            return None;
        }
        let t: usize = self.cursor;
        assert(forall|u: int| 0 <= u < t ==> old(self).spec_done(u));
        let emitted = self.try_emit(input, t);
        assert(emitted);
        Some(t)
    }

    /// Writes the triangles that are not written yet, in the order of the
    /// input, and hands out the stream.
    pub fn finish(self, input: &[u32]) -> (out: Vec<u32>)
        requires
            self.wf(input@),
        ensures
            is_reordering(out@, input@),
            self.spec_count() == input@.len() / 3 ==> out@ == self.spec_out(),
            out@ == ordered(input@, completed(self.spec_order(), input@.len() as int / 3, 0)),
    {
        let n: usize = input.len() / 3;
        let mut this = self;
        let mut left: usize = n - this.count(input);
        while left > 0
            invariant
                this.wf(input@),
                n == input@.len() / 3,
                left == n - this.spec_count(),
                this.spec_count() >= self.spec_count(),
                self.spec_count() == n ==> this.spec_out() == self.spec_out(),
                completed(this.spec_order(), n as int, 0) == completed(
                    self.spec_order(),
                    n as int,
                    0,
                ),
            decreases left,
        {
            let ghost before = this;
            let next = this.emit_next(input);
            assert(next.is_some());
            proof {
                let t = next.unwrap() as int;
                let old_order = before.spec_order();
                before.lemma_order(input@);
                this.lemma_order(input@);
                assert forall|u: int| 0 <= u < t && u < n implies old_order.contains(u) by {
                    assert(before.spec_done(u));
                }
                assert(!old_order.contains(t)) by {
                    assert(!before.spec_done(t));
                }
                lemma_completed_skip(old_order, n as int, 0, t);
                assert(completed(old_order, n as int, t) == completed(
                    old_order.push(t),
                    n as int,
                    t + 1,
                ));
                assert forall|u: int| 0 <= u < t + 1 && u < n implies old_order.push(t).contains(
                    u,
                ) by {
                    if u < t {
                        assert(before.spec_done(u));
                        let k = choose|k: int| 0 <= k < old_order.len() && old_order[k] == u;
                        assert(old_order.push(t)[k] == u);
                    } else {
                        assert(old_order.push(t)[old_order.len() as int] == t);
                    }
                }
                lemma_completed_skip(old_order.push(t), n as int, 0, t + 1);
            }
            left = left - 1;
        }
        proof {
            this.lemma_order(input@);
            this.lemma_all_marked(input@);
            lemma_completed_skip(this.spec_order(), n as int, 0, n as int);
        }
        proof {
            assert(is_reordering_by(this.out@, input@, this.order@));
        }
        this.out
    }
}

/// The count of marks in front of `i` does not change when marks are added
/// behind.
pub proof fn lemma_marked_prefix(a: Seq<bool>, b: Seq<bool>, i: int)
    requires
        0 <= i <= a.len(),
        i <= b.len(),
        forall|k: int| 0 <= k < i ==> a[k] == b[k],
    ensures
        marked(a, i) == marked(b, i),
    decreases i,
{
    if i > 0 {
        lemma_marked_prefix(a, b, i - 1);
    }
}

} // verus!
