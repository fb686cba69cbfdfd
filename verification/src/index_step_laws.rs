//! One triangle, written and read back: the reader finds the triangle that
//! the writer meant and ends with the writer's model.

use vstd::prelude::*;
use crate::fifo::{
    edge_turn, find_edge, find_vertex, lemma_find_edge_from, lemma_find_vertex_from,
};
use crate::index_model::{
    aux_index, aux_table, bump, dec_aux, dec_edge, dec_step, dec_table, dec_vertex,
    edge_tail_code, enc_edge, enc_free, enc_step, free_bytes, free_code, free_size, free_turn,
    index_groups, is_restart, is_turn_of, last_after, plain_tail_code, tri_data_size, turn_triangle,
    DecodedTriangle, IndexModel,
};
use crate::varint::{
    index_delta, lemma_delta_round_trip, lemma_vbyte_encode_len, lemma_vbyte_round_trip,
    vbyte_encode, vbyte_len,
};

verus! {

/// Where a sequence holds `x + y` at `pos`, it holds `x` at `pos` and `y`
/// behind it.
pub proof fn lemma_subrange_split(s: Seq<u8>, pos: int, x: Seq<u8>, y: Seq<u8>)
    requires
        0 <= pos,
        pos + x.len() + y.len() <= s.len(),
        s.subrange(pos, pos + x.len() + y.len()) == x + y,
    ensures
        s.subrange(pos, pos + x.len()) == x,
        s.subrange(pos + x.len(), pos + x.len() + y.len()) == y,
{
    let w = s.subrange(pos, pos + x.len() + y.len());
    assert forall|i: int| 0 <= i < x.len() implies s.subrange(pos, pos + x.len())[i] == x[i] by {
        assert(w[i] == (x + y)[i]);
    }
    assert forall|i: int| 0 <= i < y.len() implies s.subrange(
        pos + x.len(),
        pos + x.len() + y.len(),
    )[i] == y[i] by {
        assert(w[x.len() + i] == (x + y)[x.len() + i]);
    }
    assert(s.subrange(pos, pos + x.len()) =~= x);
    assert(s.subrange(pos + x.len(), pos + x.len() + y.len()) =~= y);
}

/// The data bytes of one vertex are at most five.
pub proof fn lemma_free_bytes_len(code: int, v: u32, last: u32)
    ensures
        free_bytes(code, v, last).len() <= 5,
        code == 15 ==> free_bytes(code, v, last).len() == vbyte_len(index_delta(v, last)),
        code != 15 ==> free_bytes(code, v, last).len() == 0,
{
    lemma_vbyte_encode_len(index_delta(v, last));
}

/// The reader finds a vertex that was written as a delta, and takes the bytes
/// that were written for it.
pub proof fn lemma_free_bytes_round_trip(code: int, v: u32, last: u32, s: Seq<u8>, pos: int)
    requires
        0 <= pos,
        pos + free_bytes(code, v, last).len() <= s.len(),
        s.subrange(pos, pos + free_bytes(code, v, last).len()) == free_bytes(code, v, last),
    ensures
        free_size(code, s, pos) == free_bytes(code, v, last).len(),
        code == 15 ==> crate::varint::apply_delta(last, crate::varint::vbyte_value(s, pos)) == v,
{
    lemma_free_bytes_len(code, v, last);
    if code == 15 {
        lemma_vbyte_round_trip(s, pos, index_delta(v, last));
        lemma_delta_round_trip(v, last);
    }
}

/// The code that the writer picks for a vertex of a triangle without an edge
/// leads the reader to that vertex.
pub proof fn lemma_free_code(verts: Seq<u32>, next: u32, last: u32, v: u32, s: Seq<u8>, pos: int)
    requires
        verts.len() == 16,
        0 <= pos,
        pos + free_bytes(free_code(verts, next, v), v, last).len() <= s.len(),
        s.subrange(pos, pos + free_bytes(free_code(verts, next, v), v, last).len()) == free_bytes(
            free_code(verts, next, v),
            v,
            last,
        ),
    ensures
        0 <= free_code(verts, next, v) <= 15,
        dec_vertex(verts, next, last, free_code(verts, next, v), s, pos) == v,
        free_size(free_code(verts, next, v), s, pos) == free_bytes(
            free_code(verts, next, v),
            v,
            last,
        ).len(),
{
    lemma_find_vertex_from(verts, v, 0);
    lemma_free_bytes_round_trip(free_code(verts, next, v), v, last, s, pos);
}

/// A code byte names the auxiliary byte that the closing table holds.
pub proof fn lemma_aux_index(aux: int)
    ensures
        match aux_index(aux) {
            Some(k) => 0 <= k < 14 && aux_table()[k] == aux && aux / 16 != 15 && aux % 16 != 15,
            None => true,
        },
        aux_table().len() == 16,
{
}

/// A triangle that continues a remembered edge is read back as written.
pub proof fn lemma_edge_round_trip(
    m: IndexModel,
    fe: int,
    t: (u32, u32, u32),
    s: Seq<u8>,
    pos: int,
    table: Seq<u8>,
)
    requires
        m.wf(),
        0 <= fe < 15,
        m.edges[fe] == (t.0, t.1),
        0 <= pos,
        pos + enc_edge(m, fe, t).data.len() <= s.len(),
        s.subrange(pos, pos + enc_edge(m, fe, t).data.len()) == enc_edge(m, fe, t).data,
    ensures
        enc_edge(m, fe, t).code < 0xf0,
        dec_step(m, enc_edge(m, fe, t).code, s, pos, table) == (DecodedTriangle {
            tri: t,
            model: enc_edge(m, fe, t).model,
        }),
        tri_data_size(enc_edge(m, fe, t).code, s, pos) == enc_edge(m, fe, t).data.len(),
        enc_edge(m, fe, t).data.len() <= 5,
        enc_edge(m, fe, t).model.wf(),
{
    reveal(dec_step);
    let e = enc_edge(m, fe, t);
    let fec = edge_tail_code(m, t.2);
    lemma_find_vertex_from(m.verts, t.2, 0);
    assert(0 <= fec <= 15);
    assert(e.code as int == 16 * fe + fec);
    assert(e.code as int / 16 == fe);
    assert(e.code as int % 16 == fec);
    lemma_free_bytes_round_trip(fec, t.2, m.last, s, pos);
    lemma_free_bytes_len(fec, t.2, m.last);
    let d = dec_edge(m, e.code, s, pos);
    assert(d.tri == t);
    assert(d.model.verts == e.model.verts);
    assert(d.model == e.model);
}

/// A triangle that continues no remembered edge is read back as the writer
/// turned it.
pub proof fn lemma_free_round_trip(m: IndexModel, t0: (u32, u32, u32), s: Seq<u8>, pos: int)
    requires
        m.wf(),
        0 <= pos,
        pos + enc_free(m, t0).data.len() <= s.len(),
        s.subrange(pos, pos + enc_free(m, t0).data.len()) == enc_free(m, t0).data,
    ensures
        enc_free(m, t0).code >= 0xf0,
        dec_step(m, enc_free(m, t0).code, s, pos, aux_table()) == (DecodedTriangle {
            tri: enc_free(m, t0).tri,
            model: enc_free(m, t0).model,
        }),
        tri_data_size(enc_free(m, t0).code, s, pos) == enc_free(m, t0).data.len(),
        enc_free(m, t0).data.len() <= 16,
        enc_free(m, t0).model.wf(),
        is_turn_of(enc_free(m, t0).tri, t0),
{
    reveal(dec_step);
    let e = enc_free(m, t0);
    let t = turn_triangle(t0, free_turn(m, t0));
    let (a, b, c) = t;
    let restart = is_restart(m, t);
    let verts = if restart {
        crate::fifo::empty_vertex_fifo()
    } else {
        m.verts
    };
    let n0 = if restart {
        0u32
    } else {
        m.next
    };
    let fea: int = if a == n0 {
        0
    } else {
        15
    };
    let n1 = bump(n0, fea);
    let feb = free_code(verts, n1, b);
    let n2 = bump(n1, feb);
    let fec = free_code(verts, n2, c);
    let aux = 16 * feb + fec;
    let short = fea == 0 && aux_index(aux).is_some() && !restart;
    let la = last_after(m.last, fea, a);
    let lb = last_after(la, feb, b);
    let head = if short {
        Seq::<u8>::empty()
    } else {
        seq![aux as u8]
    };
    let da = free_bytes(fea, a, m.last);
    let db = free_bytes(feb, b, la);
    let dc = free_bytes(fec, c, lb);
    lemma_find_vertex_from(verts, b, 0);
    lemma_find_vertex_from(verts, c, 0);
    lemma_free_bytes_len(fea, a, m.last);
    lemma_free_bytes_len(feb, b, la);
    lemma_free_bytes_len(fec, c, lb);
    lemma_aux_index(aux);
    assert(0 <= feb <= 15 && 0 <= fec <= 15);
    assert(aux / 16 == feb && aux % 16 == fec);
    assert(e.data == head + da + db + dc);
    assert(e.data.len() == head.len() + da.len() + db.len() + dc.len());
    if short {
        let k = aux_index(aux).unwrap();
        assert(e.code as int == 0xf0 + k);
        assert(e.code as int % 16 == k);
        assert(aux_table()[k] as int == aux);
        assert(e.data.len() == 0);
        let d = dec_table(m, e.code, aux_table());
        assert(d.tri == t);
        assert(d.model.verts == e.model.verts);
        assert(d.model == e.model);
    } else {
        assert(head + da + db + dc == head + (da + (db + dc)));
        lemma_subrange_split(s, pos, head, da + (db + dc));
        lemma_subrange_split(s, pos + 1, da, db + dc);
        lemma_subrange_split(s, pos + 1 + da.len(), db, dc);
        assert(s.subrange(pos, pos + 1)[0] == head[0]);
        assert(s[pos] == aux as u8);
        assert(s[pos] as int == aux);
        // the byte 0 stands for a restart and for nothing else
        assert((aux == 0) == restart) by {
            if aux == 0 && !restart {
                assert(feb == 0 && fec == 0);
                if fea == 0 {
                    assert(aux_index(aux).is_some());
                }
            }
        }
        lemma_free_bytes_round_trip(fea, a, m.last, s, pos + 1);
        lemma_free_code(verts, n1, la, b, s, pos + 1 + da.len());
        lemma_free_code(verts, n2, lb, c, s, pos + 1 + da.len() + db.len());
        let d = dec_aux(m, e.code, s, pos);
        assert(d.tri == t);
        assert(d.model == e.model);
    }
}

/// Any triangle is read back as the writer turned it, from the bytes that the
/// writer made of it, and leaves the reader with the writer's model.
pub proof fn lemma_step_round_trip(m: IndexModel, t: (u32, u32, u32), s: Seq<u8>, pos: int)
    requires
        m.wf(),
        0 <= pos,
        pos + enc_step(m, t).data.len() <= s.len(),
        s.subrange(pos, pos + enc_step(m, t).data.len()) == enc_step(m, t).data,
    ensures
        dec_step(m, enc_step(m, t).code, s, pos, aux_table()) == (DecodedTriangle {
            tri: enc_step(m, t).tri,
            model: enc_step(m, t).model,
        }),
        tri_data_size(enc_step(m, t).code, s, pos) == enc_step(m, t).data.len(),
        enc_step(m, t).data.len() <= 16,
        enc_step(m, t).model.wf(),
        is_turn_of(enc_step(m, t).tri, t),
{
    reveal(enc_step);
    lemma_find_edge_from(m.edges, t.0, t.1, t.2, 0);
    match find_edge(m.edges, t.0, t.1, t.2) {
        Some((fe, turn)) => {
            if fe < 15 {
                let u = turn_triangle(t, turn);
                assert(edge_turn(m.edges[fe], t.0, t.1, t.2) == Some(turn));
                assert(m.edges[fe] == (u.0, u.1));
                lemma_edge_round_trip(m, fe, u, s, pos, aux_table());
            } else {
                lemma_free_round_trip(m, t, s, pos);
            }
        },
        None => {
            lemma_free_round_trip(m, t, s, pos);
        },
    }
}

/// What the writer makes of a triangle, whatever bytes follow: a turn of the
/// triangle, at most sixteen data bytes, and a model with full memories.
pub proof fn lemma_enc_step_shape(m: IndexModel, t: (u32, u32, u32))
    requires
        m.wf(),
    ensures
        enc_step(m, t).data.len() <= 16,
        enc_step(m, t).model.wf(),
        is_turn_of(enc_step(m, t).tri, t),
{
    let data = enc_step(m, t).data;
    assert(data.subrange(0, data.len() as int) =~= data);
    lemma_step_round_trip(m, t, data, 0);
}

/// A delta between two vertices of a mesh takes no more bytes than
/// [`index_groups`] says.
pub proof fn lemma_delta_len(v: u32, last: u32, vertex_count: int)
    requires
        v < vertex_count,
        last < vertex_count,
    ensures
        vbyte_len(index_delta(v, last)) <= index_groups(vertex_count),
{
}

/// In a mesh of `vertex_count` vertices a triangle takes at most one
/// auxiliary byte and three deltas, and leaves `last` a vertex of the mesh.
pub proof fn lemma_enc_step_size(m: IndexModel, t: (u32, u32, u32), vertex_count: int)
    requires
        m.wf(),
        m.last < vertex_count,
        t.0 < vertex_count,
        t.1 < vertex_count,
        t.2 < vertex_count,
    ensures
        enc_step(m, t).data.len() <= 1 + 3 * index_groups(vertex_count),
        enc_step(m, t).model.last < vertex_count,
{
    reveal(enc_step);
    lemma_find_edge_from(m.edges, t.0, t.1, t.2, 0);
    let g = index_groups(vertex_count);
    match find_edge(m.edges, t.0, t.1, t.2) {
        Some((fe, turn)) => {
            if fe < 15 {
                let u = turn_triangle(t, turn);
                let fec = edge_tail_code(m, u.2);
                lemma_free_bytes_len(fec, u.2, m.last);
                lemma_delta_len(u.2, m.last, vertex_count);
            } else {
                lemma_enc_free_size(m, t, vertex_count);
            }
        },
        None => {
            lemma_enc_free_size(m, t, vertex_count);
        },
    }
}

/// The size of a triangle that continues no remembered edge.
pub proof fn lemma_enc_free_size(m: IndexModel, t0: (u32, u32, u32), vertex_count: int)
    requires
        m.wf(),
        m.last < vertex_count,
        t0.0 < vertex_count,
        t0.1 < vertex_count,
        t0.2 < vertex_count,
    ensures
        enc_free(m, t0).data.len() <= 1 + 3 * index_groups(vertex_count),
        enc_free(m, t0).model.last < vertex_count,
{
    let t = turn_triangle(t0, free_turn(m, t0));
    let (a, b, c) = t;
    let restart = is_restart(m, t);
    let verts = if restart {
        crate::fifo::empty_vertex_fifo()
    } else {
        m.verts
    };
    let n0 = if restart {
        0u32
    } else {
        m.next
    };
    let fea: int = if a == n0 {
        0
    } else {
        15
    };
    let n1 = bump(n0, fea);
    let feb = free_code(verts, n1, b);
    let n2 = bump(n1, feb);
    let fec = free_code(verts, n2, c);
    let la = last_after(m.last, fea, a);
    let lb = last_after(la, feb, b);
    lemma_free_bytes_len(fea, a, m.last);
    lemma_free_bytes_len(feb, b, la);
    lemma_free_bytes_len(fec, c, lb);
    lemma_delta_len(a, m.last, vertex_count);
    lemma_delta_len(b, la, vertex_count);
    lemma_delta_len(c, lb, vertex_count);
}

} // verus!
