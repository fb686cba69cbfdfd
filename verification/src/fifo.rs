//! The two short memories of the index codec: the vertices and the directed
//! edges that were written most recently.
//!
//! In contracts a memory is a sequence of sixteen entries with the newest at
//! position 0. In compiled code it is a ring of sixteen slots and the position
//! of the slot to fill next.

use vstd::prelude::*;

verus! {

/// How many entries a memory holds.
pub const FIFO_SIZE: usize = 16;

/// The entry of a slot that nothing was written to yet.
pub const EMPTY_SLOT: u32 = 0xffff_ffff;

/// The memory after `v` entered it: `v` is the newest, the oldest entry left.
pub open spec fn fifo_push<T>(f: Seq<T>, v: T) -> Seq<T> {
    Seq::new(
        f.len(),
        |i: int|
            if i == 0 {
                v
            } else {
                f[i - 1]
            },
    )
}

/// The vertex memory that nothing entered yet.
pub open spec fn empty_vertex_fifo() -> Seq<u32> {
    Seq::new(FIFO_SIZE as nat, |i: int| EMPTY_SLOT)
}

/// The edge memory that nothing entered yet.
pub open spec fn empty_edge_fifo() -> Seq<(u32, u32)> {
    Seq::new(FIFO_SIZE as nat, |i: int| (EMPTY_SLOT, EMPTY_SLOT))
}

/// The first position at or behind `from` that holds `v`.
pub open spec fn find_vertex_from(f: Seq<u32>, v: u32, from: int) -> Option<int>
    decreases f.len() - from,
{
    if from < 0 || from >= f.len() {
        None
    } else if f[from] == v {
        Some(from)
    } else {
        find_vertex_from(f, v, from + 1)
    }
}

/// The position of the newest entry that holds `v`.
pub open spec fn find_vertex(f: Seq<u32>, v: u32) -> Option<int> {
    find_vertex_from(f, v, 0)
}

/// Which turn of the triangle `(a, b, c)` starts with the directed edge `e`: 0
/// for `a -> b`, 1 for `b -> c`, 2 for `c -> a`.
pub open spec fn edge_turn(e: (u32, u32), a: u32, b: u32, c: u32) -> Option<int> {
    if e.0 == a && e.1 == b {
        Some(0)
    } else if e.0 == b && e.1 == c {
        Some(1)
    } else if e.0 == c && e.1 == a {
        Some(2)
    } else {
        None
    }
}

/// The first position at or behind `from` whose edge is one of the triangle's,
/// with the turn that brings this edge to the front.
pub open spec fn find_edge_from(f: Seq<(u32, u32)>, a: u32, b: u32, c: u32, from: int) -> Option<
    (int, int),
>
    decreases f.len() - from,
{
    if from < 0 || from >= f.len() {
        None
    } else {
        match edge_turn(f[from], a, b, c) {
            Some(turn) => Some((from, turn)),
            None => find_edge_from(f, a, b, c, from + 1),
        }
    }
}

/// The position of the newest edge of the memory that the triangle has, with
/// the turn that brings this edge to the front.
pub open spec fn find_edge(f: Seq<(u32, u32)>, a: u32, b: u32, c: u32) -> Option<(int, int)> {
    find_edge_from(f, a, b, c, 0)
}

/// A vertex that was found is where the search says it is.
pub proof fn lemma_find_vertex_from(f: Seq<u32>, v: u32, from: int)
    requires
        0 <= from,
    ensures
        match find_vertex_from(f, v, from) {
            Some(k) => from <= k < f.len() && f[k] == v,
            None => true,
        },
    decreases f.len() - from,
{
    if from < f.len() && f[from] != v {
        lemma_find_vertex_from(f, v, from + 1);
    }
}

/// An edge that was found is where the search says it is, and is the edge that
/// the turn brings to the front.
pub proof fn lemma_find_edge_from(f: Seq<(u32, u32)>, a: u32, b: u32, c: u32, from: int)
    requires
        0 <= from,
    ensures
        match find_edge_from(f, a, b, c, from) {
            Some((k, turn)) => from <= k < f.len() && edge_turn(f[k], a, b, c) == Some(turn) && 0
                <= turn <= 2,
            None => true,
        },
    decreases f.len() - from,
{
    if from < f.len() && edge_turn(f[from], a, b, c).is_none() {
        lemma_find_edge_from(f, a, b, c, from + 1);
    }
}

/// The recently written vertices, as a ring.
pub struct VertexFifo {
    slots: Vec<u32>,
    offset: usize,
}

impl View for VertexFifo {
    type V = Seq<u32>;

    closed spec fn view(&self) -> Seq<u32> {
        Seq::new(FIFO_SIZE as nat, |i: int| self.slots@[(self.offset + 15 - i) % 16])
    }
}

impl VertexFifo {
    /// The ring has its sixteen slots and a position among them.
    pub closed spec fn wf(&self) -> bool {
        self.slots@.len() == FIFO_SIZE && self.offset < FIFO_SIZE
    }

    /// A memory that nothing entered yet.
    pub fn new() -> (r: Self)
        ensures
            r.wf(),
            r@ == empty_vertex_fifo(),
    {
        let mut slots: Vec<u32> = Vec::new();
        let mut i: usize = 0;
        while i < FIFO_SIZE
            invariant
                i <= FIFO_SIZE,
                slots@.len() == i,
                forall|k: int| 0 <= k < i ==> slots@[k] == EMPTY_SLOT,
            decreases FIFO_SIZE - i,
        {
            slots.push(EMPTY_SLOT);
            i = i + 1;
        }
        let r = VertexFifo { slots, offset: 0 };
        assert(r@ =~= empty_vertex_fifo());
        r
    }

    /// Forgets every entry; the memory is as [`VertexFifo::new`] made it.
    pub fn clear(&mut self)
        requires
            old(self).wf(),
        ensures
            final(self).wf(),
            final(self)@ == empty_vertex_fifo(),
    {
        let mut i: usize = 0;
        while i < FIFO_SIZE
            invariant
                i <= FIFO_SIZE,
                self.wf(),
                forall|k: int| 0 <= k < i ==> self.slots@[k] == EMPTY_SLOT,
            decreases FIFO_SIZE - i,
        {
            self.slots.set(i, EMPTY_SLOT);
            i = i + 1;
        }
        assert(self@ =~= empty_vertex_fifo());
    }

    /// Lets `v` enter as the newest entry.
    pub fn push(&mut self, v: u32)
        requires
            old(self).wf(),
        ensures
            final(self).wf(),
            final(self)@ == fifo_push(old(self)@, v),
    {
        let at: usize = self.offset;
        self.slots.set(at, v);
        self.offset = (at + 1) % FIFO_SIZE;
        assert(self@ =~= fifo_push(old(self)@, v));
    }

    /// The entry at position `i`, counted from the newest.
    pub fn get(&self, i: usize) -> (r: u32)
        requires
            self.wf(),
            i < FIFO_SIZE,
        ensures
            r == self@[i as int],
    {
        self.slots[(self.offset + 15 - i) % FIFO_SIZE]
    }

    /// The position of the newest entry that holds `v`.
    pub fn find(&self, v: u32) -> (r: Option<usize>)
        requires
            self.wf(),
        ensures
            match r {
                Some(k) => find_vertex(self@, v) == Some(k as int),
                None => find_vertex(self@, v).is_none(),
            },
    {
        let mut i: usize = 0;
        while i < FIFO_SIZE
            invariant
                i <= FIFO_SIZE,
                self.wf(),
                find_vertex(self@, v) == find_vertex_from(self@, v, i as int),
            decreases FIFO_SIZE - i,
        {
            if self.get(i) == v {
                return Some(i);
            }
            i = i + 1;
        }
        None
    }
}

/// The recently written directed edges, as a ring.
pub struct EdgeFifo {
    slots: Vec<(u32, u32)>,
    offset: usize,
}

impl View for EdgeFifo {
    type V = Seq<(u32, u32)>;

    closed spec fn view(&self) -> Seq<(u32, u32)> {
        Seq::new(FIFO_SIZE as nat, |i: int| self.slots@[(self.offset + 15 - i) % 16])
    }
}

impl EdgeFifo {
    /// The ring has its sixteen slots and a position among them.
    pub closed spec fn wf(&self) -> bool {
        self.slots@.len() == FIFO_SIZE && self.offset < FIFO_SIZE
    }

    /// A memory that nothing entered yet.
    pub fn new() -> (r: Self)
        ensures
            r.wf(),
            r@ == empty_edge_fifo(),
    {
        let mut slots: Vec<(u32, u32)> = Vec::new();
        let mut i: usize = 0;
        while i < FIFO_SIZE
            invariant
                i <= FIFO_SIZE,
                slots@.len() == i,
                forall|k: int| 0 <= k < i ==> slots@[k] == (EMPTY_SLOT, EMPTY_SLOT),
            decreases FIFO_SIZE - i,
        {
            slots.push((EMPTY_SLOT, EMPTY_SLOT));
            i = i + 1;
        }
        let r = EdgeFifo { slots, offset: 0 };
        assert(r@ =~= empty_edge_fifo());
        r
    }

    /// Lets the edge `from -> to` enter as the newest entry.
    pub fn push(&mut self, from: u32, to: u32)
        requires
            old(self).wf(),
        ensures
            final(self).wf(),
            final(self)@ == fifo_push(old(self)@, (from, to)),
    {
        let at: usize = self.offset;
        self.slots.set(at, (from, to));
        self.offset = (at + 1) % FIFO_SIZE;
        assert(self@ =~= fifo_push(old(self)@, (from, to)));
    }

    /// The edge at position `i`, counted from the newest.
    pub fn get(&self, i: usize) -> (r: (u32, u32))
        requires
            self.wf(),
            i < FIFO_SIZE,
        ensures
            r == self@[i as int],
    {
        self.slots[(self.offset + 15 - i) % FIFO_SIZE]
    }

    /// The position of the newest edge that the triangle `(a, b, c)` has, and
    /// the turn that brings this edge to the front.
    pub fn find(&self, a: u32, b: u32, c: u32) -> (r: Option<(usize, usize)>)
        requires
            self.wf(),
        ensures
            match r {
                Some((k, turn)) => find_edge(self@, a, b, c) == Some((k as int, turn as int)),
                None => find_edge(self@, a, b, c).is_none(),
            },
    {
        let mut i: usize = 0;
        while i < FIFO_SIZE
            invariant
                i <= FIFO_SIZE,
                self.wf(),
                find_edge(self@, a, b, c) == find_edge_from(self@, a, b, c, i as int),
            decreases FIFO_SIZE - i,
        {
            let e = self.get(i);
            if e.0 == a && e.1 == b {
                return Some((i, 0));
            }
            if e.0 == b && e.1 == c {
                return Some((i, 1));
            }
            if e.0 == c && e.1 == a {
                return Some((i, 2));
            }
            i = i + 1;
        }
        None
    }
}

} // verus!
