//! The index buffer codec: a triangle list as a tag byte, one code byte per
//! triangle, the data bytes of all triangles, and a closing table of sixteen
//! bytes.
//!
//! A stream carries neither its index count nor the vertex count: the reader
//! is told the index count. The reader takes at most sixteen data bytes per
//! triangle, and the closing table is sixteen bytes long, so a reader that
//! starts a triangle at or before the table never leaves the stream.

use vstd::prelude::*;
use crate::error::Error;
use crate::fifo::{EdgeFifo, VertexFifo};
use crate::index_model::{
    aux_index, aux_table, bump, dec_aux, dec_edge, dec_step, dec_table, dec_vertex,
    edge_tail_code, enc_edge, enc_free, enc_step, free_bytes, free_code, free_size, free_turn,
    index_groups, initial_model, is_restart, last_after, plain_tail_code, pred, succ, tri_data_size,
    turn_triangle, verts_after, IndexModel, INDEX_HEADER,
};
use crate::indices::{is_valid_index_stream, narrow_indices, tri_at, valid_index_stream};
use crate::varint::{read_index, write_index};

verus! {

/// The writer's model before the `i`-th triangle of `indices`.
pub open spec fn enc_model(indices: Seq<u32>, i: int) -> IndexModel
    decreases i,
{
    if i <= 0 {
        initial_model()
    } else {
        enc_step(enc_model(indices, i - 1), tri_at(indices, i - 1)).model
    }
}

/// The code bytes of the first `i` triangles of `indices`.
pub open spec fn enc_codes(indices: Seq<u32>, i: int) -> Seq<u8>
    decreases i,
{
    if i <= 0 {
        Seq::<u8>::empty()
    } else {
        enc_codes(indices, i - 1).push(
            enc_step(enc_model(indices, i - 1), tri_at(indices, i - 1)).code,
        )
    }
}

/// The data bytes of the first `i` triangles of `indices`.
pub open spec fn enc_data(indices: Seq<u32>, i: int) -> Seq<u8>
    decreases i,
{
    if i <= 0 {
        Seq::<u8>::empty()
    } else {
        enc_data(indices, i - 1) + enc_step(
            enc_model(indices, i - 1),
            tri_at(indices, i - 1),
        ).data
    }
}

/// The first `i` triangles of `indices` as a reader of the stream will see
/// them: each one turned as the writer chose.
pub open spec fn enc_turned(indices: Seq<u32>, i: int) -> Seq<u32>
    decreases i,
{
    if i <= 0 {
        Seq::<u32>::empty()
    } else {
        let t = enc_step(enc_model(indices, i - 1), tri_at(indices, i - 1)).tri;
        enc_turned(indices, i - 1) + seq![t.0, t.1, t.2]
    }
}

/// The stream of `indices`: tag, code bytes, data bytes, closing table.
pub open spec fn encode_index_spec(indices: Seq<u32>) -> Seq<u8> {
    let n = indices.len() as int / 3;
    seq![INDEX_HEADER] + enc_codes(indices, n) + enc_data(indices, n) + aux_table()
}

/// The triangles of `indices` as a reader of its stream sees them.
pub open spec fn turned_indices(indices: Seq<u32>) -> Seq<u32> {
    enc_turned(indices, indices.len() as int / 3)
}

/// Where the data bytes of the `i`-th triangle start, in a stream `s` of `n`
/// triangles.
pub open spec fn data_pos(s: Seq<u8>, n: int, i: int) -> int
    decreases i,
{
    if i <= 0 {
        1 + n
    } else {
        data_pos(s, n, i - 1) + tri_data_size(s[i], s, data_pos(s, n, i - 1))
    }
}

/// The closing table of the stream `s`: its last sixteen bytes.
pub open spec fn closing_table(s: Seq<u8>) -> Seq<u8> {
    s.subrange(s.len() - 16, s.len() as int)
}

/// The reader's model before the `i`-th triangle of a stream `s` of `n`
/// triangles.
pub open spec fn dec_model(s: Seq<u8>, n: int, i: int) -> IndexModel
    decreases i,
{
    if i <= 0 {
        initial_model()
    } else {
        dec_step(
            dec_model(s, n, i - 1),
            s[i],
            s,
            data_pos(s, n, i - 1),
            closing_table(s),
        ).model
    }
}

/// The indices of the first `i` triangles of a stream `s` of `n` triangles.
pub open spec fn dec_indices(s: Seq<u8>, n: int, i: int) -> Seq<u32>
    decreases i,
{
    if i <= 0 {
        Seq::<u32>::empty()
    } else {
        let t = dec_step(
            dec_model(s, n, i - 1),
            s[i],
            s,
            data_pos(s, n, i - 1),
            closing_table(s),
        ).tri;
        dec_indices(s, n, i - 1) + seq![t.0, t.1, t.2]
    }
}

/// What reading `index_count` indices from the bytes `s` gives.
///
/// The count must hold whole triangles. The stream must have room for the tag,
/// the code bytes and the closing table, and must start with the tag. Then the
/// data bytes of all triangles must end exactly where the closing table
/// starts: a stream whose data would end later is truncated, one whose data
/// ends earlier has trailing bytes.
pub open spec fn decode_index_result(s: Seq<u8>, index_count: int) -> Result<Seq<u32>, Error> {
    let n = index_count / 3;
    if index_count % 3 != 0 {
        Err(Error::PreconditionViolation)
    } else if s.len() < 1 + n + 16 {
        Err(Error::TruncatedInput)
    } else if s[0] != INDEX_HEADER {
        Err(Error::FormatError)
    } else if data_pos(s, n, n) > s.len() - 16 {
        Err(Error::TruncatedInput)
    } else if data_pos(s, n, n) < s.len() - 16 {
        Err(Error::TrailingBytes)
    } else {
        Ok(dec_indices(s, n, n))
    }
}

/// What reading `index_count` indices of `index_size` bytes each gives: a
/// size other than 2 and 4 is refused before the stream is looked at, and
/// indices of 2 bytes are reduced modulo 65536.
pub open spec fn decode_index_sized_result(s: Seq<u8>, index_count: int, index_size: int)
    -> Result<Seq<u32>, Error> {
    if index_size != 2 && index_size != 4 {
        Err(Error::InvalidWidth)
    } else {
        match decode_index_result(s, index_count) {
            Ok(v) => if index_size == 2 {
                Ok(Seq::new(v.len(), |i: int| (v[i] % 0x1_0000) as u32))
            } else {
                Ok(v)
            },
            Err(e) => Err(e),
        }
    }
}

/// The most bytes that the stream of `index_count` valid indices can take in
/// a mesh of `vertex_count` vertices: the tag, for each triangle a code byte,
/// an auxiliary byte and three deltas, and the closing table.
pub open spec fn index_bound_spec(index_count: int, vertex_count: int) -> int {
    1 + (index_count / 3) * (2 + 3 * index_groups(vertex_count)) + 16
}

/// Data sizes are never negative.
pub proof fn lemma_tri_data_size_bounds(code: u8, s: Seq<u8>, pos: int)
    ensures
        0 <= tri_data_size(code, s, pos) <= 16,
{
}

/// The data of a later triangle starts no earlier than that of an earlier one.
pub proof fn lemma_data_pos_monotone(s: Seq<u8>, n: int, i: int, j: int)
    requires
        0 <= i <= j,
    ensures
        data_pos(s, n, i) <= data_pos(s, n, j),
    decreases j,
{
    if i < j {
        lemma_data_pos_monotone(s, n, i, j - 1);
        lemma_tri_data_size_bounds(s[j], s, data_pos(s, n, j - 1));
    }
}

/// The state of the codec between two triangles, as compiled code holds it.
pub struct IndexCodecState {
    verts: VertexFifo,
    edges: EdgeFifo,
    next: u32,
    last: u32,
}

impl View for IndexCodecState {
    type V = IndexModel;

    closed spec fn view(&self) -> IndexModel {
        IndexModel { verts: self.verts@, edges: self.edges@, next: self.next, last: self.last }
    }
}

/// The auxiliary byte at position `k` of the closing table.
fn aux_entry(k: usize) -> (r: u8)
    requires
        k < 16,
    ensures
        r == aux_table()[k as int],
{
    if k == 0 {
        0x00
    } else if k == 1 {
        0x76
    } else if k == 2 {
        0x87
    } else if k == 3 {
        0x56
    } else if k == 4 {
        0x67
    } else if k == 5 {
        0x78
    } else if k == 6 {
        0xa9
    } else if k == 7 {
        0x86
    } else if k == 8 {
        0x65
    } else if k == 9 {
        0x89
    } else if k == 10 {
        0x68
    } else if k == 11 {
        0x98
    } else if k == 12 {
        0x01
    } else if k == 13 {
        0x69
    } else {
        0x00
    }
}

/// The first nameable position of the closing table that holds `aux`.
fn aux_position(aux: u8) -> (r: Option<u8>)
    ensures
        match r {
            Some(k) => aux_index(aux as int) == Some(k as int),
            None => aux_index(aux as int).is_none(),
        },
{
    let mut k: usize = 0;
    while k < 14
        invariant
            k <= 14,
            forall|j: int| 0 <= j < k ==> aux_table()[j] != aux,
        decreases 14 - k,
    {
        if aux_entry(k) == aux {
            return Some(k as u8);
        }
        k = k + 1;
    }
    assert(aux_table()[0] != aux && aux_table()[1] != aux && aux_table()[2] != aux
        && aux_table()[3] != aux && aux_table()[4] != aux && aux_table()[5] != aux
        && aux_table()[6] != aux && aux_table()[7] != aux && aux_table()[8] != aux
        && aux_table()[9] != aux && aux_table()[10] != aux && aux_table()[11] != aux
        && aux_table()[12] != aux && aux_table()[13] != aux);
    None
}

/// Appends the closing table to `out`.
fn write_aux_table(out: &mut Vec<u8>)
    ensures
        final(out)@ == old(out)@ + aux_table(),
{
    let mut k: usize = 0;
    while k < 16
        invariant
            k <= 16,
            out@ == old(out)@ + aux_table().take(k as int),
        decreases 16 - k,
    {
        out.push(aux_entry(k));
        assert(out@ =~= old(out)@ + aux_table().take(k + 1));
        k = k + 1;
    }
    assert(aux_table().take(16) =~= aux_table());
}

/// The triangle `t` turned `turn` times.
fn turned(t: (u32, u32, u32), turn: usize) -> (r: (u32, u32, u32))
    ensures
        r == turn_triangle(t, turn as int),
{
    if turn == 1 {
        (t.1, t.2, t.0)
    } else if turn == 2 {
        (t.2, t.0, t.1)
    } else {
        t
    }
}

impl IndexCodecState {
    /// Both memories are sound.
    pub closed spec fn wf(&self) -> bool {
        self.verts.wf() && self.edges.wf()
    }

    /// The state before the first triangle.
    pub fn new() -> (r: Self)
        ensures
            r.wf(),
            r@ == initial_model(),
    {
        IndexCodecState { verts: VertexFifo::new(), edges: EdgeFifo::new(), next: 0, last: 0 }
    }

    /// The code of a second or third vertex `v` of a triangle that continues
    /// no edge, given where the vertex memory holds `v`.
    fn free_vertex_code(&self, found: Option<usize>, v: u32) -> (r: u8)
        requires
            match found {
                Some(k) => crate::fifo::find_vertex(self@.verts, v) == Some(k as int),
                None => crate::fifo::find_vertex(self@.verts, v).is_none(),
            },
        ensures
            r == free_code(self@.verts, self@.next, v),
    {
        proof {
            crate::fifo::lemma_find_vertex_from(self@.verts, v, 0);
        }
        match found {
            Some(k) => {
                if k < 14 {
                    (k + 1) as u8
                } else if v == self.next {
                    0
                } else {
                    15
                }
            },
            None => {
                if v == self.next {
                    0
                } else {
                    15
                }
            },
        }
    }

    /// Writes the triangle `t`, whose first edge is at position `fe` of the
    /// edge memory.
    fn encode_edge(&mut self, fe: usize, t: (u32, u32, u32), codes: &mut Vec<u8>, data: &mut Vec<u8>)
        requires
            old(self).wf(),
            fe < 15,
        ensures
            final(self).wf(),
            final(self)@ == enc_edge(old(self)@, fe as int, t).model,
            final(codes)@ == old(codes)@.push(enc_edge(old(self)@, fe as int, t).code),
            final(data)@ == old(data)@ + enc_edge(old(self)@, fe as int, t).data,
    {
        let c: u32 = t.2;
        let plain: u8 = if c == self.next {
            0
        } else if c.wrapping_add(1) == self.last {
            13
        } else if c == self.last.wrapping_add(1) {
            14
        } else {
            15
        };
        assert(plain == plain_tail_code(self@, c));
        let fec: u8 = match self.verts.find(c) {
            Some(k) => if 1 <= k && k < 13 {
                k as u8
            } else {
                plain
            },
            None => plain,
        };
        assert(fec == edge_tail_code(self@, c));
        codes.push((16 * fe) as u8 + fec);
        if fec == 15 {
            write_index(data, c, self.last);
        }
        assert(data@ =~= old(data)@ + free_bytes(fec as int, c, old(self)@.last));
        if fec == 0 {
            self.next = self.next.wrapping_add(1);
        }
        if fec == 0 || fec >= 13 {
            self.verts.push(c);
        }
        if fec >= 13 {
            self.last = c;
        }
        self.edges.push(c, t.1);
        self.edges.push(t.0, c);
    }

    /// Picks the codes of the three vertices of the turned triangle `t`, which
    /// continues no edge: restarts the numbering if `t` asks for it and hands
    /// out `next` as far as the codes say. Returns whether it restarted, and
    /// the three codes.
    fn pick_free_codes(&mut self, t: (u32, u32, u32)) -> (r: (bool, u8, u8, u8))
        requires
            old(self).wf(),
        ensures
            final(self).wf(),
            r.0 == is_restart(old(self)@, t),
            r.1 == 0 || r.1 == 15,
            r.2 <= 15,
            r.3 <= 15,
            ({
                let m = old(self)@;
                let verts = if r.0 {
                    crate::fifo::empty_vertex_fifo()
                } else {
                    m.verts
                };
                let n0 = if r.0 {
                    0u32
                } else {
                    m.next
                };
                let n1 = bump(n0, r.1 as int);
                let n2 = bump(n1, r.2 as int);
                &&& (r.1 == 0) == (t.0 == n0)
                &&& r.2 == free_code(verts, n1, t.1)
                &&& r.3 == free_code(verts, n2, t.2)
                &&& final(self)@ == (IndexModel {
                    verts: verts,
                    next: bump(n2, r.3 as int),
                    ..m
                })
            }),
    {
        let restart = t.0 == 0 && t.1 == 1 && t.2 == 2 && self.next > 0;
        if restart {
            self.next = 0;
            self.verts.clear();
        }
        let found_b = self.verts.find(t.1);
        let found_c = self.verts.find(t.2);
        let fea: u8 = if t.0 == self.next {
            0
        } else {
            15
        };
        if fea == 0 {
            self.next = self.next.wrapping_add(1);
        }
        let feb: u8 = self.free_vertex_code(found_b, t.1);
        if feb == 0 {
            self.next = self.next.wrapping_add(1);
        }
        let fec: u8 = self.free_vertex_code(found_c, t.2);
        if fec == 0 {
            self.next = self.next.wrapping_add(1);
        }
        proof {
            crate::fifo::lemma_find_vertex_from(self@.verts, t.1, 0);
            crate::fifo::lemma_find_vertex_from(self@.verts, t.2, 0);
        }
        (restart, fea, feb, fec)
    }

    /// Writes the delta of `v` if its code is 15, and remembers `v` as the
    /// index written last.
    fn write_free_vertex(&mut self, code: u8, v: u32, data: &mut Vec<u8>)
        requires
            old(self).wf(),
        ensures
            final(self).wf(),
            final(data)@ == old(data)@ + free_bytes(code as int, v, old(self)@.last),
            final(self)@ == (IndexModel {
                last: last_after(old(self)@.last, code as int, v),
                ..old(self)@
            }),
    {
        if code == 15 {
            write_index(data, v, self.last);
            self.last = v;
        }
        assert(data@ =~= old(data)@ + free_bytes(code as int, v, old(self)@.last));
    }

    /// Lets the vertices and edges of the triangle `t`, which continues no
    /// edge, enter the memories.
    fn remember_free(&mut self, feb: u8, fec: u8, t: (u32, u32, u32))
        requires
            old(self).wf(),
        ensures
            final(self).wf(),
            final(self)@ == (IndexModel {
                verts: verts_after(
                    verts_after(crate::fifo::fifo_push(old(self)@.verts, t.0), feb as int, t.1),
                    fec as int,
                    t.2,
                ),
                edges: crate::fifo::fifo_push(
                    crate::fifo::fifo_push(
                        crate::fifo::fifo_push(old(self)@.edges, (t.1, t.0)),
                        (t.2, t.1),
                    ),
                    (t.0, t.2),
                ),
                ..old(self)@
            }),
    {
        self.verts.push(t.0);
        if feb == 0 || feb == 15 {
            self.verts.push(t.1);
        }
        if fec == 0 || fec == 15 {
            self.verts.push(t.2);
        }
        self.edges.push(t.1, t.0);
        self.edges.push(t.2, t.1);
        self.edges.push(t.0, t.2);
    }

    /// Writes the triangle `t0`, which continues no remembered edge.
    fn encode_free(&mut self, t0: (u32, u32, u32), codes: &mut Vec<u8>, data: &mut Vec<u8>)
        requires
            old(self).wf(),
        ensures
            final(self).wf(),
            final(self)@ == enc_free(old(self)@, t0).model,
            final(codes)@ == old(codes)@.push(enc_free(old(self)@, t0).code),
            final(data)@ == old(data)@ + enc_free(old(self)@, t0).data,
    {
        let turn: usize = if t0.1 == self.next {
            1
        } else if t0.2 == self.next {
            2
        } else {
            0
        };
        let t = turned(t0, turn);
        let ghost last0 = self@.last;
        let (restart, fea, feb, fec) = self.pick_free_codes(t);
        let aux: u8 = 16 * feb + fec;
        let short: Option<u8> = match aux_position(aux) {
            Some(k) => if fea == 0 && !restart {
                Some(k)
            } else {
                None
            },
            None => None,
        };
        let ghost data0 = data@;
        match short {
            Some(k) => {
                codes.push(0xf0 + k);
            },
            None => {
                codes.push(
                    if fea == 0 {
                        0xfe
                    } else {
                        0xff
                    },
                );
                data.push(aux);
            },
        }
        let ghost head = if short.is_some() {
            Seq::<u8>::empty()
        } else {
            seq![aux]
        };
        assert(data@ =~= data0 + head);
        self.write_free_vertex(fea, t.0, data);
        let ghost la = self@.last;
        self.write_free_vertex(feb, t.1, data);
        let ghost lb = self@.last;
        self.write_free_vertex(fec, t.2, data);
        assert(data@ =~= data0 + (head + free_bytes(fea as int, t.0, last0) + free_bytes(
            feb as int,
            t.1,
            la,
        ) + free_bytes(fec as int, t.2, lb)));
        self.remember_free(feb, fec, t);
    }

    /// Writes the triangle `t`: its code byte to `codes`, its data bytes to
    /// `data`.
    pub fn encode_triangle(&mut self, t: (u32, u32, u32), codes: &mut Vec<u8>, data: &mut Vec<u8>)
        requires
            old(self).wf(),
        ensures
            final(self).wf(),
            final(self)@ == enc_step(old(self)@, t).model,
            final(codes)@ == old(codes)@.push(enc_step(old(self)@, t).code),
            final(data)@ == old(data)@ + enc_step(old(self)@, t).data,
    {
        reveal(enc_step);
        match self.edges.find(t.0, t.1, t.2) {
            Some((fe, turn)) => {
                if fe < 15 {
                    let u = turned(t, turn);
                    self.encode_edge(fe, u, codes, data);
                } else {
                    self.encode_free(t, codes, data);
                }
            },
            None => {
                self.encode_free(t, codes, data);
            },
        }
    }

    /// Reads a triangle that continues a remembered edge.
    fn decode_edge(&mut self, code: u8, s: &[u8], pos: usize) -> (r: ((u32, u32, u32), usize))
        requires
            old(self).wf(),
            code < 0xf0,
            pos + 16 <= s.len(),
        ensures
            final(self).wf(),
            r.0 == dec_edge(old(self)@, code, s@, pos as int).tri,
            final(self)@ == dec_edge(old(self)@, code, s@, pos as int).model,
            r.1 == pos + tri_data_size(code, s@, pos as int),
    {
        let fe: usize = (code / 16) as usize;
        let fec: u8 = code % 16;
        let (a, b) = self.edges.get(fe);
        let mut end: usize = pos;
        let c: u32 = if fec == 0 {
            self.next
        } else if fec < 13 {
            self.verts.get(fec as usize)
        } else if fec == 13 {
            self.last.wrapping_sub(1)
        } else if fec == 14 {
            self.last.wrapping_add(1)
        } else {
            let (v, e) = read_index(s, pos, self.last);
            end = e;
            v
        };
        if fec == 0 {
            self.next = self.next.wrapping_add(1);
        }
        if fec == 0 || fec >= 13 {
            self.verts.push(c);
        }
        if fec >= 13 {
            self.last = c;
        }
        self.edges.push(c, b);
        self.edges.push(a, c);
        ((a, b, c), end)
    }

    /// Reads a triangle whose code byte names an auxiliary byte of the
    /// closing table.
    fn decode_table(&mut self, code: u8, aux: u8) -> (r: (u32, u32, u32))
        requires
            old(self).wf(),
            0xf0 <= code < 0xfe,
        ensures
            final(self).wf(),
            forall|table: Seq<u8>|
                table[code as int % 16] == aux ==> {
                    &&& r == (#[trigger] dec_table(old(self)@, code, table)).tri
                    &&& final(self)@ == dec_table(old(self)@, code, table).model
                },
    {
        let feb: u8 = aux / 16;
        let fec: u8 = aux % 16;
        let a: u32 = self.next;
        self.next = self.next.wrapping_add(1);
        let b: u32 = if feb == 0 {
            self.next
        } else {
            self.verts.get((feb - 1) as usize)
        };
        if feb == 0 {
            self.next = self.next.wrapping_add(1);
        }
        let c: u32 = if fec == 0 {
            self.next
        } else {
            self.verts.get((fec - 1) as usize)
        };
        if fec == 0 {
            self.next = self.next.wrapping_add(1);
        }
        self.verts.push(a);
        if feb == 0 {
            self.verts.push(b);
        }
        if fec == 0 {
            self.verts.push(c);
        }
        self.edges.push(b, a);
        self.edges.push(c, b);
        self.edges.push(a, c);
        (a, b, c)
    }

    /// Reads a second or third vertex with the code `code`, a possible delta at
    /// `pos`; returns the vertex and the position behind what was read.
    fn decode_vertex(&mut self, code: u8, s: &[u8], pos: usize) -> (r: (u32, usize))
        requires
            old(self).wf(),
            code < 16,
            pos + 5 <= s.len(),
        ensures
            final(self).wf(),
            r.0 == dec_vertex(
                old(self)@.verts,
                old(self)@.next,
                old(self)@.last,
                code as int,
                s@,
                pos as int,
            ),
            r.1 == pos + free_size(code as int, s@, pos as int),
            final(self)@ == (IndexModel {
                next: bump(old(self)@.next, code as int),
                last: last_after(old(self)@.last, code as int, r.0),
                ..old(self)@
            }),
    {
        if code == 0 {
            let v: u32 = self.next;
            self.next = self.next.wrapping_add(1);
            (v, pos)
        } else if code == 15 {
            let (v, end) = read_index(s, pos, self.last);
            self.last = v;
            (v, end)
        } else {
            (self.verts.get((code - 1) as usize), pos)
        }
    }

    /// Reads a triangle whose auxiliary byte is its first data byte.
    fn decode_aux(&mut self, code: u8, s: &[u8], pos: usize) -> (r: ((u32, u32, u32), usize))
        requires
            old(self).wf(),
            code >= 0xfe,
            pos + 16 <= s.len(),
        ensures
            final(self).wf(),
            r.0 == dec_aux(old(self)@, code, s@, pos as int).tri,
            final(self)@ == dec_aux(old(self)@, code, s@, pos as int).model,
            r.1 == pos + tri_data_size(code, s@, pos as int),
    {
        let aux: u8 = s[pos];
        let feb: u8 = aux / 16;
        let fec: u8 = aux % 16;
        if aux == 0 {
            self.next = 0;
            self.verts.clear();
        }
        let mut at: usize = pos + 1;
        let a: u32 = if code == 0xfe {
            let v: u32 = self.next;
            self.next = self.next.wrapping_add(1);
            v
        } else {
            let (v, end) = read_index(s, at, self.last);
            self.last = v;
            at = end;
            v
        };
        let (b, at_b) = self.decode_vertex(feb, s, at);
        let (c, at_c) = self.decode_vertex(fec, s, at_b);
        self.verts.push(a);
        if feb == 0 || feb == 15 {
            self.verts.push(b);
        }
        if fec == 0 || fec == 15 {
            self.verts.push(c);
        }
        self.edges.push(b, a);
        self.edges.push(c, b);
        self.edges.push(a, c);
        ((a, b, c), at_c)
    }

    /// Reads the triangle with the code byte `code` and the data bytes at
    /// `pos` of the stream `s`; returns the triangle and the position behind
    /// its data bytes.
    pub fn decode_triangle(&mut self, code: u8, s: &[u8], pos: usize) -> (r: (
        (u32, u32, u32),
        usize,
    ))
        requires
            old(self).wf(),
            pos + 16 <= s.len(),
        ensures
            final(self).wf(),
            r.0 == dec_step(old(self)@, code, s@, pos as int, closing_table(s@)).tri,
            final(self)@ == dec_step(old(self)@, code, s@, pos as int, closing_table(s@)).model,
            r.1 == pos + tri_data_size(code, s@, pos as int),
    {
        reveal(dec_step);
        if code < 0xf0 {
            self.decode_edge(code, s, pos)
        } else if code < 0xfe {
            let aux: u8 = s[s.len() - 16 + (code % 16) as usize];
            assert(closing_table(s@)[code as int % 16] == aux);
            (self.decode_table(code, aux), pos)
        } else {
            self.decode_aux(code, s, pos)
        }
    }
}

/// Encodes a triangle list.
///
/// A stream that is not valid for `vertex_count` vertices is refused. A valid
/// one always encodes, to the bytes that [`encode_index_spec`] gives.
pub fn encode_index_buffer(indices: &[u32], vertex_count: usize) -> (r: Result<Vec<u8>, Error>)
    ensures
        match r {
            Ok(bytes) => {
                &&& valid_index_stream(indices@, vertex_count as int)
                &&& bytes@ == encode_index_spec(indices@)
                &&& bytes@[0] == INDEX_HEADER
                &&& 17 + indices@.len() / 3 <= bytes@.len() <= index_bound_spec(
                    indices@.len() as int,
                    vertex_count as int,
                )
            },
            Err(e) => e == Error::PreconditionViolation && !valid_index_stream(
                indices@,
                vertex_count as int,
            ),
        },
{
    if !is_valid_index_stream(indices, vertex_count) {
        return Err(Error::PreconditionViolation);
    }
    let n: usize = indices.len() / 3;
    let mut state = IndexCodecState::new();
    let mut codes: Vec<u8> = Vec::new();
    let mut data: Vec<u8> = Vec::new();
    let mut i: usize = 0;
    while i < n
        invariant
            i <= n,
            3 * n <= indices.len(),
            state.wf(),
            state@ == enc_model(indices@, i as int),
            codes@ == enc_codes(indices@, i as int),
            data@ == enc_data(indices@, i as int),
        decreases n - i,
    {
        let t = (indices[3 * i], indices[3 * i + 1], indices[3 * i + 2]);
        assert(t == tri_at(indices@, i as int));
        state.encode_triangle(t, &mut codes, &mut data);
        i = i + 1;
    }
    let mut out: Vec<u8> = Vec::new();
    out.push(INDEX_HEADER);
    out.append(&mut codes);
    out.append(&mut data);
    write_aux_table(&mut out);
    assert(out@ =~= encode_index_spec(indices@));
    proof {
        crate::index_laws::lemma_encode_len(indices@);
        crate::index_laws::lemma_index_bound(indices@, vertex_count as int);
    }
    Ok(out)
}

/// Reads the `i`-th triangle of a stream of `n` triangles, whose data bytes
/// start at `pos`, and appends its indices to `out`; returns where the data
/// bytes of the next triangle start.
fn decode_next(
    state: &mut IndexCodecState,
    encoded: &[u8],
    n: usize,
    i: usize,
    pos: usize,
    out: &mut Vec<u32>,
) -> (end: usize)
    requires
        old(state).wf(),
        i < n,
        1 + n + 16 <= encoded.len(),
        pos + 16 <= encoded.len(),
        pos == data_pos(encoded@, n as int, i as int),
        old(state)@ == dec_model(encoded@, n as int, i as int),
        old(out)@ == dec_indices(encoded@, n as int, i as int),
    ensures
        final(state).wf(),
        end == data_pos(encoded@, n as int, i + 1),
        pos <= end <= pos + 16,
        final(state)@ == dec_model(encoded@, n as int, i + 1),
        final(out)@ == dec_indices(encoded@, n as int, i + 1),
{
    let code: u8 = encoded[1 + i];
    let (t, end) = state.decode_triangle(code, encoded, pos);
    let ghost before = out@;
    out.push(t.0);
    out.push(t.1);
    out.push(t.2);
    proof {
        lemma_tri_data_size_bounds(code, encoded@, pos as int);
        assert(out@ =~= before + seq![t.0, t.1, t.2]);
    }
    end
}

/// Decodes `index_count` indices from `encoded`.
///
/// The result is exactly what [`decode_index_result`] gives: the indices of a
/// well-formed stream, or the reason why the bytes are none. No byte outside
/// `encoded` is read, whatever the bytes are.
pub fn decode_index_buffer(encoded: &[u8], index_count: usize) -> (r: Result<Vec<u32>, Error>)
    ensures
        match r {
            Ok(v) => decode_index_result(encoded@, index_count as int) == Ok::<Seq<u32>, Error>(
                v@,
            ),
            Err(e) => decode_index_result(encoded@, index_count as int) == Err::<Seq<u32>, Error>(
                e,
            ),
        },
{
    if index_count % 3 != 0 {
        return Err(Error::PreconditionViolation);
    }
    let n: usize = index_count / 3;
    if encoded.len() < 17 || encoded.len() - 17 < n {
        return Err(Error::TruncatedInput);
    }
    if encoded[0] != INDEX_HEADER {
        return Err(Error::FormatError);
    }
    let safe_end: usize = encoded.len() - 16;
    let mut state = IndexCodecState::new();
    let mut out: Vec<u32> = Vec::new();
    let mut pos: usize = 1 + n;
    let mut i: usize = 0;
    while i < n
        invariant
            i <= n,
            n == index_count / 3,
            index_count % 3 == 0,
            1 + n + 16 <= encoded.len(),
            encoded@[0] == INDEX_HEADER,
            safe_end == encoded.len() - 16,
            state.wf(),
            pos == data_pos(encoded@, n as int, i as int),
            pos <= encoded.len(),
            state@ == dec_model(encoded@, n as int, i as int),
            out@ == dec_indices(encoded@, n as int, i as int),
        decreases n - i,
    {
        if pos > safe_end {
            proof {
                lemma_data_pos_monotone(encoded@, n as int, i as int, n as int);
            }
            return Err(Error::TruncatedInput);
        }
        let end: usize = decode_next(&mut state, encoded, n, i, pos, &mut out);
        pos = end;
        i = i + 1;
    }
    if pos > safe_end {
        return Err(Error::TruncatedInput);
    }
    if pos < safe_end {
        return Err(Error::TrailingBytes);
    }
    Ok(out)
}

/// Decodes `index_count` indices of `index_size` bytes each from `encoded`.
///
/// Only the sizes 2 and 4 exist; any other is refused before the stream is
/// looked at. With the size 2 every index is reduced modulo 65536, as it would
/// be in a buffer of 16-bit indices.
pub fn decode_index_buffer_sized(encoded: &[u8], index_count: usize, index_size: usize) -> (r:
    Result<Vec<u32>, Error>)
    ensures
        match r {
            Ok(v) => decode_index_sized_result(
                encoded@,
                index_count as int,
                index_size as int,
            ) == Ok::<Seq<u32>, Error>(v@),
            Err(e) => decode_index_sized_result(
                encoded@,
                index_count as int,
                index_size as int,
            ) == Err::<Seq<u32>, Error>(e),
        },
{
    if index_size != 2 && index_size != 4 {
        return Err(Error::InvalidWidth);
    }
    match decode_index_buffer(encoded, index_count) {
        Ok(mut v) => {
            if index_size == 2 {
                let ghost full = v@;
                let mut i: usize = 0;
                while i < v.len()
                    invariant
                        i <= v@.len(),
                        v@.len() == full.len(),
                        forall|k: int| 0 <= k < i ==> v@[k] == (full[k] % 0x1_0000) as u32,
                        forall|k: int| i <= k < v@.len() ==> v@[k] == full[k],
                    decreases v@.len() - i,
                {
                    let narrow: u32 = v[i] % 0x1_0000;
                    v.set(i, narrow);
                    i = i + 1;
                }
                assert(v@ =~= Seq::new(full.len(), |k: int| (full[k] % 0x1_0000) as u32));
            }
            Ok(v)
        },
        Err(e) => Err(e),
    }
}

/// Decodes `index_count` indices from `encoded` into 16-bit indices, each
/// reduced modulo 65536.
pub fn decode_index_buffer_u16(encoded: &[u8], index_count: usize) -> (r: Result<Vec<u16>, Error>)
    ensures
        match r {
            Ok(v) => match decode_index_result(encoded@, index_count as int) {
                Ok(w) => v@ == narrow_indices(w),
                Err(_) => false,
            },
            Err(e) => decode_index_result(encoded@, index_count as int) == Err::<Seq<u32>, Error>(
                e,
            ),
        },
{
    match decode_index_buffer(encoded, index_count) {
        Ok(w) => {
            let mut v: Vec<u16> = Vec::with_capacity(w.len());
            let mut i: usize = 0;
            while i < w.len()
                invariant
                    i <= w@.len(),
                    v@ == narrow_indices(w@.take(i as int)),
                decreases w@.len() - i,
            {
                v.push((w[i] % 0x1_0000) as u16);
                assert(v@ =~= narrow_indices(w@.take(i + 1)));
                i = i + 1;
            }
            assert(w@.take(i as int) =~= w@);
            Ok(v)
        },
        Err(e) => Err(e),
    }
}

/// The most bytes that [`encode_index_buffer`] returns for `index_count`
/// indices in a mesh of `vertex_count` vertices; `usize::MAX` where that
/// number does not fit.
pub fn encode_index_buffer_bound(index_count: usize, vertex_count: usize) -> (r: usize)
    ensures
        r == if index_bound_spec(index_count as int, vertex_count as int) <= usize::MAX {
            index_bound_spec(index_count as int, vertex_count as int)
        } else {
            usize::MAX as int
        },
{
    let groups: usize = if vertex_count <= 0x40 {
        1
    } else if vertex_count <= 0x2000 {
        2
    } else if vertex_count <= 0x10_0000 {
        3
    } else if vertex_count <= 0x800_0000 {
        4
    } else {
        5
    };
    let per_triangle: usize = 2 + 3 * groups;
    let n: usize = index_count / 3;
    match n.checked_mul(per_triangle) {
        Some(body) => match body.checked_add(17) {
            Some(total) => total,
            None => usize::MAX,
        },
        None => usize::MAX,
    }
}

} // verus!
