//! What the index codec writes for one triangle, and what it reads back.
//!
//! Writer and reader walk the triangles in order and keep the same model: the
//! sixteen vertices and the sixteen directed edges seen last, the lowest index
//! not yet handed out (`next`) and the index written in full last (`last`).
//! Each triangle becomes one code byte and up to sixteen data bytes. The code
//! byte says which remembered edge the triangle continues, or that it
//! continues none; its low half, or an auxiliary byte, says for each remaining
//! vertex whether it is `next`, a remembered vertex, a neighbour of `last`, or
//! written as a delta in the data bytes.

use vstd::prelude::*;
use crate::fifo::{empty_edge_fifo, empty_vertex_fifo, fifo_push, find_edge, find_vertex};
use crate::varint::{apply_delta, index_delta, vbyte_encode, vbyte_size, vbyte_value};

verus! {

/// The tag byte of an index stream.
pub const INDEX_HEADER: u8 = 0xe1;

/// The bytes that close an index stream: the auxiliary bytes that a code byte
/// can name by a position from 0 to 13, and two bytes of padding.
pub open spec fn aux_table() -> Seq<u8> {
    seq![
        0x00u8, 0x76u8, 0x87u8, 0x56u8, 0x67u8, 0x78u8, 0xa9u8, 0x86u8,
        0x65u8, 0x89u8, 0x68u8, 0x98u8, 0x01u8, 0x69u8, 0x00u8, 0x00u8,
    ]
}

/// The first of the fourteen nameable positions of [`aux_table`] that holds
/// `aux`.
pub open spec fn aux_index(aux: int) -> Option<int> {
    if aux == 0x00 {
        Some(0)
    } else if aux == 0x76 {
        Some(1)
    } else if aux == 0x87 {
        Some(2)
    } else if aux == 0x56 {
        Some(3)
    } else if aux == 0x67 {
        Some(4)
    } else if aux == 0x78 {
        Some(5)
    } else if aux == 0xa9 {
        Some(6)
    } else if aux == 0x86 {
        Some(7)
    } else if aux == 0x65 {
        Some(8)
    } else if aux == 0x89 {
        Some(9)
    } else if aux == 0x68 {
        Some(10)
    } else if aux == 0x98 {
        Some(11)
    } else if aux == 0x01 {
        Some(12)
    } else if aux == 0x69 {
        Some(13)
    } else {
        None
    }
}

/// What writer and reader remember between two triangles.
pub struct IndexModel {
    /// The vertices seen last, newest first.
    pub verts: Seq<u32>,
    /// The directed edges seen last, newest first.
    pub edges: Seq<(u32, u32)>,
    /// The lowest index that was not handed out yet.
    pub next: u32,
    /// The index that was last written in full or as a neighbour.
    pub last: u32,
}

impl IndexModel {
    /// Both memories have their sixteen entries.
    pub open spec fn wf(self) -> bool {
        self.verts.len() == 16 && self.edges.len() == 16
    }
}

/// The model before the first triangle.
pub open spec fn initial_model() -> IndexModel {
    IndexModel { verts: empty_vertex_fifo(), edges: empty_edge_fifo(), next: 0, last: 0 }
}

/// The successor of `n`; after the largest index comes 0.
pub open spec fn succ(n: u32) -> u32 {
    vstd::wrapping::u32_specs::wrapping_add(n, 1)
}

/// The predecessor of `n`; before 0 comes the largest index.
pub open spec fn pred(n: u32) -> u32 {
    vstd::wrapping::u32_specs::wrapping_sub(n, 1)
}

/// `next` once a vertex with the code `code` was handled: code 0 hands `next`
/// out.
pub open spec fn bump(next: u32, code: int) -> u32 {
    if code == 0 {
        succ(next)
    } else {
        next
    }
}

/// The triangle `t` turned `turn` times: its corners keep their cyclic order.
pub open spec fn turn_triangle(t: (u32, u32, u32), turn: int) -> (u32, u32, u32) {
    if turn == 1 {
        (t.1, t.2, t.0)
    } else if turn == 2 {
        (t.2, t.0, t.1)
    } else {
        t
    }
}

/// `u` is `t` turned zero, one or two times.
pub open spec fn is_turn_of(u: (u32, u32, u32), t: (u32, u32, u32)) -> bool {
    u == t || u == turn_triangle(t, 1) || u == turn_triangle(t, 2)
}

/// The data bytes of a vertex with the code `code`: the delta against `last`
/// for code 15, nothing otherwise.
pub open spec fn free_bytes(code: int, v: u32, last: u32) -> Seq<u8> {
    if code == 15 {
        vbyte_encode(index_delta(v, last))
    } else {
        Seq::<u8>::empty()
    }
}

/// `last` once a vertex with the code `code` was written in a triangle that
/// continues no edge.
pub open spec fn last_after(last: u32, code: int, v: u32) -> u32 {
    if code == 15 {
        v
    } else {
        last
    }
}

/// The vertex memory once a vertex with the code `code` was handled in a
/// triangle that continues no edge: new and fully written vertices enter.
pub open spec fn verts_after(verts: Seq<u32>, code: int, v: u32) -> Seq<u32> {
    if code == 0 || code == 15 {
        fifo_push(verts, v)
    } else {
        verts
    }
}

/// What the writer makes of one triangle.
pub struct EncodedTriangle {
    /// The code byte.
    pub code: u8,
    /// The data bytes.
    pub data: Seq<u8>,
    /// The triangle as the reader will see it: the input, turned.
    pub tri: (u32, u32, u32),
    /// The model behind the triangle.
    pub model: IndexModel,
}

/// The code of the third vertex `c` of a triangle that continues an edge, when
/// the vertex memory does not serve: 0 for `next`, 13 and 14 for the two
/// neighbours of `last`, 15 for a delta.
pub open spec fn plain_tail_code(m: IndexModel, c: u32) -> int {
    if c == m.next {
        0
    } else if succ(c) == m.last {
        13
    } else if c == succ(m.last) {
        14
    } else {
        15
    }
}

/// The code of the third vertex `c` of a triangle that continues an edge: its
/// position in the vertex memory if that is from 1 to 12, else its plain code.
pub open spec fn edge_tail_code(m: IndexModel, c: u32) -> int {
    match find_vertex(m.verts, c) {
        Some(k) => if 1 <= k < 13 {
            k
        } else {
            plain_tail_code(m, c)
        },
        None => plain_tail_code(m, c),
    }
}

/// What the writer makes of the triangle `(a, b, c)` whose edge `a -> b` is
/// at position `fe` of the edge memory.
pub open spec fn enc_edge(m: IndexModel, fe: int, t: (u32, u32, u32)) -> EncodedTriangle {
    let (a, b, c) = t;
    let fec = edge_tail_code(m, c);
    EncodedTriangle {
        code: (16 * fe + fec) as u8,
        data: free_bytes(fec, c, m.last),
        tri: t,
        model: IndexModel {
            verts: if fec == 0 || fec >= 13 {
                fifo_push(m.verts, c)
            } else {
                m.verts
            },
            edges: fifo_push(fifo_push(m.edges, (c, b)), (a, c)),
            next: bump(m.next, fec),
            last: if fec >= 13 {
                c
            } else {
                m.last
            },
        },
    }
}

/// The turn that the writer gives a triangle that continues no edge: the one
/// that brings `next` to the front, if the second or third corner is `next`.
pub open spec fn free_turn(m: IndexModel, t: (u32, u32, u32)) -> int {
    if t.1 == m.next {
        1
    } else if t.2 == m.next {
        2
    } else {
        0
    }
}

/// The code of the second or third vertex `v` of a triangle that continues no
/// edge: its position in the vertex memory plus one if the position is below
/// 14, else 0 for `next` and 15 for a delta.
pub open spec fn free_code(verts: Seq<u32>, next: u32, v: u32) -> int {
    match find_vertex(verts, v) {
        Some(k) => if k < 14 {
            k + 1
        } else if v == next {
            0
        } else {
            15
        },
        None => if v == next {
            0
        } else {
            15
        },
    }
}

/// Whether the writer restarts the numbering at the triangle `(a, b, c)`.
pub open spec fn is_restart(m: IndexModel, t: (u32, u32, u32)) -> bool {
    t.0 == 0 && t.1 == 1 && t.2 == 2 && m.next > 0
}

/// What the writer makes of a triangle that continues no remembered edge.
pub open spec fn enc_free(m: IndexModel, t0: (u32, u32, u32)) -> EncodedTriangle {
    let t = turn_triangle(t0, free_turn(m, t0));
    let (a, b, c) = t;
    let restart = is_restart(m, t);
    let verts = if restart {
        empty_vertex_fifo()
    } else {
        m.verts
    };
    let n0 = if restart {
        0u32
    } else {
        m.next
    };
    let fea: int = if a == n0 {
        0
    } else {
        15
    };
    let n1 = bump(n0, fea);
    let feb = free_code(verts, n1, b);
    let n2 = bump(n1, feb);
    let fec = free_code(verts, n2, c);
    let n3 = bump(n2, fec);
    let aux = 16 * feb + fec;
    let short = fea == 0 && aux_index(aux).is_some() && !restart;
    let la = last_after(m.last, fea, a);
    let lb = last_after(la, feb, b);
    let lc = last_after(lb, fec, c);
    EncodedTriangle {
        code: if short {
            (0xf0 + aux_index(aux).unwrap()) as u8
        } else if fea == 0 {
            0xfeu8
        } else {
            0xffu8
        },
        data: (if short {
            Seq::<u8>::empty()
        } else {
            seq![aux as u8]
        }) + free_bytes(fea, a, m.last) + free_bytes(feb, b, la) + free_bytes(fec, c, lb),
        tri: t,
        model: IndexModel {
            verts: verts_after(verts_after(fifo_push(verts, a), feb, b), fec, c),
            edges: fifo_push(fifo_push(fifo_push(m.edges, (b, a)), (c, b)), (a, c)),
            next: n3,
            last: lc,
        },
    }
}

/// What the writer makes of the triangle `t`: it continues the newest
/// remembered edge that `t` has, unless that edge is the oldest of all.
#[verifier::opaque]
pub open spec fn enc_step(m: IndexModel, t: (u32, u32, u32)) -> EncodedTriangle {
    match find_edge(m.edges, t.0, t.1, t.2) {
        Some((fe, turn)) => if fe < 15 {
            enc_edge(m, fe, turn_triangle(t, turn))
        } else {
            enc_free(m, t)
        },
        None => enc_free(m, t),
    }
}

/// How many data bytes a vertex with the code `code` takes, read at `pos`.
pub open spec fn free_size(code: int, s: Seq<u8>, pos: int) -> int {
    if code == 15 {
        vbyte_size(s, pos)
    } else {
        0
    }
}

/// How many data bytes the triangle with the code byte `code` takes, read at
/// `pos`. This depends on nothing but the code byte and those data bytes.
pub open spec fn tri_data_size(code: u8, s: Seq<u8>, pos: int) -> int {
    if code < 0xf0 {
        free_size(code as int % 16, s, pos)
    } else if code < 0xfe {
        0
    } else {
        let fea: int = if code == 0xfe {
            0
        } else {
            15
        };
        let feb = s[pos] as int / 16;
        let fec = s[pos] as int % 16;
        let sa = free_size(fea, s, pos + 1);
        let sb = free_size(feb, s, pos + 1 + sa);
        let sc = free_size(fec, s, pos + 1 + sa + sb);
        1 + sa + sb + sc
    }
}

/// What the reader makes of one triangle.
pub struct DecodedTriangle {
    /// The triangle.
    pub tri: (u32, u32, u32),
    /// The model behind the triangle.
    pub model: IndexModel,
}

/// What the reader makes of a code byte below 0xf0: the triangle continues
/// the edge at position `code / 16`.
pub open spec fn dec_edge(m: IndexModel, code: u8, s: Seq<u8>, pos: int) -> DecodedTriangle {
    let fe = code as int / 16;
    let fec = code as int % 16;
    let (a, b) = m.edges[fe];
    let c = if fec == 0 {
        m.next
    } else if fec < 13 {
        m.verts[fec]
    } else if fec == 13 {
        pred(m.last)
    } else if fec == 14 {
        succ(m.last)
    } else {
        apply_delta(m.last, vbyte_value(s, pos))
    };
    DecodedTriangle {
        tri: (a, b, c),
        model: IndexModel {
            verts: if fec == 0 || fec >= 13 {
                fifo_push(m.verts, c)
            } else {
                m.verts
            },
            edges: fifo_push(fifo_push(m.edges, (c, b)), (a, c)),
            next: bump(m.next, fec),
            last: if fec >= 13 {
                c
            } else {
                m.last
            },
        },
    }
}

/// What the reader makes of a code byte from 0xf0 to 0xfd: the first vertex is
/// `next`, the other two follow the auxiliary byte that the stream's closing
/// table holds at position `code % 16`.
pub open spec fn dec_table(m: IndexModel, code: u8, table: Seq<u8>) -> DecodedTriangle {
    let aux = table[code as int % 16];
    let feb = aux as int / 16;
    let fec = aux as int % 16;
    let a = m.next;
    let n1 = succ(m.next);
    let b = if feb == 0 {
        n1
    } else {
        m.verts[feb - 1]
    };
    let n2 = bump(n1, feb);
    let c = if fec == 0 {
        n2
    } else {
        m.verts[fec - 1]
    };
    let n3 = bump(n2, fec);
    let v1 = fifo_push(m.verts, a);
    let v2 = if feb == 0 {
        fifo_push(v1, b)
    } else {
        v1
    };
    let v3 = if fec == 0 {
        fifo_push(v2, c)
    } else {
        v2
    };
    DecodedTriangle {
        tri: (a, b, c),
        model: IndexModel {
            verts: v3,
            edges: fifo_push(fifo_push(fifo_push(m.edges, (b, a)), (c, b)), (a, c)),
            next: n3,
            last: m.last,
        },
    }
}

/// The vertex that the reader finds for the code `code` in a triangle with an
/// auxiliary byte of its own: `next`, a remembered vertex, or a delta at `pos`.
pub open spec fn dec_vertex(verts: Seq<u32>, next: u32, last: u32, code: int, s: Seq<u8>, pos: int)
    -> u32 {
    if code == 0 {
        next
    } else if code == 15 {
        apply_delta(last, vbyte_value(s, pos))
    } else {
        verts[code - 1]
    }
}

/// What the reader makes of the code bytes 0xfe and 0xff: the auxiliary byte
/// is the first data byte; the byte 0 restarts the numbering.
pub open spec fn dec_aux(m: IndexModel, code: u8, s: Seq<u8>, pos: int) -> DecodedTriangle {
    let aux = s[pos];
    let fea: int = if code == 0xfe {
        0
    } else {
        15
    };
    let feb = aux as int / 16;
    let fec = aux as int % 16;
    let verts = if aux == 0 {
        empty_vertex_fifo()
    } else {
        m.verts
    };
    let n0 = if aux == 0 {
        0u32
    } else {
        m.next
    };
    let sa = free_size(fea, s, pos + 1);
    let sb = free_size(feb, s, pos + 1 + sa);
    let a = if fea == 0 {
        n0
    } else {
        apply_delta(m.last, vbyte_value(s, pos + 1))
    };
    let n1 = bump(n0, fea);
    let la = last_after(m.last, fea, a);
    let b = dec_vertex(verts, n1, la, feb, s, pos + 1 + sa);
    let n2 = bump(n1, feb);
    let lb = last_after(la, feb, b);
    let c = dec_vertex(verts, n2, lb, fec, s, pos + 1 + sa + sb);
    let n3 = bump(n2, fec);
    let lc = last_after(lb, fec, c);
    DecodedTriangle {
        tri: (a, b, c),
        model: IndexModel {
            verts: verts_after(verts_after(fifo_push(verts, a), feb, b), fec, c),
            edges: fifo_push(fifo_push(fifo_push(m.edges, (b, a)), (c, b)), (a, c)),
            next: n3,
            last: lc,
        },
    }
}

/// What the reader makes of the code byte `code`, with the data bytes at `pos`
/// of `s` and the closing table `table`.
#[verifier::opaque]
pub open spec fn dec_step(m: IndexModel, code: u8, s: Seq<u8>, pos: int, table: Seq<u8>)
    -> DecodedTriangle {
    if code < 0xf0 {
        dec_edge(m, code, s, pos)
    } else if code < 0xfe {
        dec_table(m, code, table)
    } else {
        dec_aux(m, code, s, pos)
    }
}

/// How many bytes a delta takes at most in a mesh of `vertex_count` vertices.
pub open spec fn index_groups(vertex_count: int) -> int {
    if vertex_count <= 0x40 {
        1
    } else if vertex_count <= 0x2000 {
        2
    } else if vertex_count <= 0x10_0000 {
        3
    } else if vertex_count <= 0x800_0000 {
        4
    } else {
        5
    }
}

} // verus!
