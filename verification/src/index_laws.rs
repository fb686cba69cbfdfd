//! What holds of every index stream: a stream that was written is read back,
//! and a stream that was cut, lengthened or retagged is refused.

use vstd::prelude::*;
use crate::error::Error;
use crate::index_codec::{
    closing_table, data_pos, dec_indices, dec_model, decode_index_result,
    decode_index_sized_result, enc_codes, enc_data, enc_model, enc_turned, encode_index_spec,
    lemma_data_pos_monotone, lemma_tri_data_size_bounds, turned_indices,
};
use crate::index_model::{
    aux_table, dec_step, enc_step, is_turn_of, tri_data_size, IndexModel, INDEX_HEADER,
};
use crate::index_step_laws::{lemma_enc_step_shape, lemma_step_round_trip};
use crate::indices::{tri_at, valid_index_stream};

verus! {

/// The writer's step at the `i`-th triangle of `indices`.
pub open spec fn enc_at(indices: Seq<u32>, i: int) -> crate::index_model::EncodedTriangle {
    enc_step(enc_model(indices, i), tri_at(indices, i))
}

/// After `i` triangles the writer has `i` code bytes, at most `16 * i` data
/// bytes and `3 * i` turned indices, and its memories are full.
pub proof fn lemma_enc_shape(indices: Seq<u32>, i: int)
    requires
        0 <= i,
    ensures
        enc_model(indices, i).wf(),
        enc_codes(indices, i).len() == i,
        enc_data(indices, i).len() <= 16 * i,
        enc_turned(indices, i).len() == 3 * i,
    decreases i,
{
    if i > 0 {
        lemma_enc_shape(indices, i - 1);
        lemma_enc_step_shape(enc_model(indices, i - 1), tri_at(indices, i - 1));
    }
}

/// What was written for the first `i` triangles stays in front when more
/// triangles are written.
pub proof fn lemma_enc_prefix(indices: Seq<u32>, i: int, j: int)
    requires
        0 <= i <= j,
    ensures
        enc_data(indices, i).len() <= enc_data(indices, j).len(),
        enc_data(indices, j).subrange(0, enc_data(indices, i).len() as int) == enc_data(
            indices,
            i,
        ),
        enc_codes(indices, j).subrange(0, i) == enc_codes(indices, i),
        enc_turned(indices, j).subrange(0, 3 * i) == enc_turned(indices, i),
    decreases j,
{
    lemma_enc_shape(indices, i);
    lemma_enc_shape(indices, j);
    if i < j {
        lemma_enc_prefix(indices, i, j - 1);
        lemma_enc_shape(indices, j - 1);
        let d = enc_data(indices, j - 1);
        let c = enc_codes(indices, j - 1);
        let u = enc_turned(indices, j - 1);
        let li = enc_data(indices, i).len() as int;
        assert(enc_data(indices, j).subrange(0, li) =~= d.subrange(0, li));
        assert(enc_codes(indices, j).subrange(0, i) =~= c.subrange(0, i));
        assert(enc_turned(indices, j).subrange(0, 3 * i) =~= u.subrange(0, 3 * i));
    } else {
        assert(enc_data(indices, j).subrange(0, enc_data(indices, i).len() as int)
            =~= enc_data(indices, i));
        assert(enc_codes(indices, j).subrange(0, i) =~= enc_codes(indices, i));
        assert(enc_turned(indices, j).subrange(0, 3 * i) =~= enc_turned(indices, i));
    }
}

/// The `k`-th code byte, the data bytes and the turned triangle of the `k`-th
/// triangle are where the writer's step at `k` put them.
pub proof fn lemma_enc_at(indices: Seq<u32>, n: int, k: int)
    requires
        0 <= k < n,
    ensures
        enc_codes(indices, n)[k] == enc_at(indices, k).code,
        enc_data(indices, k).len() + enc_at(indices, k).data.len() <= enc_data(indices, n).len(),
        enc_data(indices, n).subrange(
            enc_data(indices, k).len() as int,
            (enc_data(indices, k).len() + enc_at(indices, k).data.len()) as int,
        ) == enc_at(indices, k).data,
        tri_at(enc_turned(indices, n), k) == enc_at(indices, k).tri,
{
    lemma_enc_prefix(indices, k + 1, n);
    lemma_enc_shape(indices, k);
    lemma_enc_shape(indices, k + 1);
    lemma_enc_shape(indices, n);
    let e = enc_at(indices, k);
    let dk = enc_data(indices, k);
    let dk1 = enc_data(indices, k + 1);
    let dn = enc_data(indices, n);
    assert(dk1 == dk + e.data);
    assert(enc_codes(indices, k + 1) == enc_codes(indices, k).push(e.code));
    assert(enc_codes(indices, n).subrange(0, k + 1)[k] == enc_codes(indices, n)[k]);
    assert(dn.subrange(dk.len() as int, (dk.len() + e.data.len()) as int) =~= e.data) by {
        assert forall|x: int| 0 <= x < e.data.len() implies dn[dk.len() + x] == e.data[x] by {
            assert(dn.subrange(0, dk1.len() as int)[dk.len() + x] == dk1[dk.len() + x]);
        }
    }
    let u1 = enc_turned(indices, k + 1);
    let un = enc_turned(indices, n);
    assert(u1 == enc_turned(indices, k) + seq![e.tri.0, e.tri.1, e.tri.2]);
    assert(un.subrange(0, 3 * (k + 1))[3 * k] == un[3 * k]);
    assert(un.subrange(0, 3 * (k + 1))[3 * k + 1] == un[3 * k + 1]);
    assert(un.subrange(0, 3 * (k + 1))[3 * k + 2] == un[3 * k + 2]);
    assert(u1[3 * k] == e.tri.0);
    assert(u1[3 * k + 1] == e.tri.1);
    assert(u1[3 * k + 2] == e.tri.2);
}

/// The length of a stream: the tag, a code byte for each triangle, the data
/// bytes, the closing table.
pub proof fn lemma_encode_len(indices: Seq<u32>)
    ensures
        encode_index_spec(indices).len() == 1 + indices.len() / 3 + enc_data(
            indices,
            indices.len() as int / 3,
        ).len() + 16,
        encode_index_spec(indices)[0] == INDEX_HEADER,
        closing_table(encode_index_spec(indices)) == aux_table(),
{
    let n = indices.len() as int / 3;
    lemma_enc_shape(indices, n);
    assert(closing_table(encode_index_spec(indices)) =~= aux_table());
}

/// A reader of the stream of `indices` walks in step with the writer: before
/// the `i`-th triangle it stands where the writer's data for that triangle
/// starts, with the writer's model, and has read the turned triangles.
pub proof fn lemma_reader_follows_writer(indices: Seq<u32>, i: int)
    requires
        indices.len() % 3 == 0,
        0 <= i <= indices.len() / 3,
    ensures
        data_pos(encode_index_spec(indices), indices.len() as int / 3, i) == 1 + indices.len() / 3
            + enc_data(indices, i).len(),
        dec_model(encode_index_spec(indices), indices.len() as int / 3, i) == enc_model(
            indices,
            i,
        ),
        dec_indices(encode_index_spec(indices), indices.len() as int / 3, i) == enc_turned(
            indices,
            i,
        ),
    decreases i,
{
    let n = indices.len() as int / 3;
    let s = encode_index_spec(indices);
    if i > 0 {
        let k = i - 1;
        lemma_reader_follows_writer(indices, k);
        lemma_enc_shape(indices, k);
        lemma_enc_shape(indices, n);
        lemma_enc_at(indices, n, k);
        lemma_encode_len(indices);
        let e = enc_at(indices, k);
        let m = enc_model(indices, k);
        let pos = 1 + n + enc_data(indices, k).len();
        let dn = enc_data(indices, n);
        assert(s[i] == enc_codes(indices, n)[k]);
        assert(s.subrange(pos, pos + e.data.len()) =~= e.data) by {
            assert forall|x: int| 0 <= x < e.data.len() implies s[pos + x] == e.data[x] by {
                assert(s[pos + x] == dn[enc_data(indices, k).len() + x]);
                assert(dn.subrange(
                    enc_data(indices, k).len() as int,
                    (enc_data(indices, k).len() + e.data.len()) as int,
                )[x] == e.data[x]);
            }
        }
        lemma_step_round_trip(m, tri_at(indices, k), s, pos);
    }
}

/// Round trip: the stream of any list of whole triangles is read back, with
/// the triangles in their order and each one turned, never mirrored.
pub proof fn lemma_index_round_trip(indices: Seq<u32>)
    requires
        indices.len() % 3 == 0,
    ensures
        decode_index_result(encode_index_spec(indices), indices.len() as int) == Ok::<
            Seq<u32>,
            Error,
        >(turned_indices(indices)),
        turned_indices(indices).len() == indices.len(),
        forall|k: int|
            0 <= k < indices.len() / 3 ==> is_turn_of(
                #[trigger] tri_at(turned_indices(indices), k),
                tri_at(indices, k),
            ),
{
    let n = indices.len() as int / 3;
    lemma_reader_follows_writer(indices, n);
    lemma_encode_len(indices);
    lemma_enc_shape(indices, n);
    assert forall|k: int| 0 <= k < n implies is_turn_of(
        #[trigger] tri_at(turned_indices(indices), k),
        tri_at(indices, k),
    ) by {
        lemma_enc_at(indices, n, k);
        lemma_enc_shape(indices, k);
        lemma_enc_step_shape(enc_model(indices, k), tri_at(indices, k));
    }
}

/// Two streams that hold the same bytes in front of `m` take the same data
/// bytes for a triangle whose data may reach up to `m`.
pub proof fn lemma_data_size_agrees(a: Seq<u8>, b: Seq<u8>, code: u8, pos: int, m: int)
    requires
        0 <= pos,
        pos + 16 <= m,
        m <= a.len(),
        m <= b.len(),
        forall|x: int| 0 <= x < m ==> a[x] == b[x],
    ensures
        tri_data_size(code, a, pos) == tri_data_size(code, b, pos),
{
    assert(a[pos] == b[pos]);
    assert(a[pos + 1] == b[pos + 1]);
    assert(a[pos + 2] == b[pos + 2]);
    assert(a[pos + 3] == b[pos + 3]);
    assert(a[pos + 4] == b[pos + 4]);
    assert(a[pos + 5] == b[pos + 5]);
    assert(a[pos + 6] == b[pos + 6]);
    assert(a[pos + 7] == b[pos + 7]);
    assert(a[pos + 8] == b[pos + 8]);
    assert(a[pos + 9] == b[pos + 9]);
    assert(a[pos + 10] == b[pos + 10]);
    assert(a[pos + 11] == b[pos + 11]);
    assert(a[pos + 12] == b[pos + 12]);
    assert(a[pos + 13] == b[pos + 13]);
    assert(a[pos + 14] == b[pos + 14]);
    assert(a[pos + 15] == b[pos + 15]);
}

/// Two streams that hold the same bytes in front of `m` place the data of
/// their triangles alike, as far as one of them starts every triangle sixteen
/// bytes or more before `m`.
pub proof fn lemma_data_pos_agrees(a: Seq<u8>, b: Seq<u8>, n: int, i: int, m: int)
    requires
        0 <= i <= n,
        1 + n + 16 <= m,
        m <= a.len(),
        m <= b.len(),
        forall|x: int| 0 <= x < m ==> a[x] == b[x],
        i > 0 ==> data_pos(a, n, i - 1) <= m - 16,
    ensures
        data_pos(a, n, i) == data_pos(b, n, i),
    decreases i,
{
    if i > 0 {
        if i > 1 {
            lemma_data_pos_monotone(a, n, i - 2, i - 1);
        }
        lemma_data_pos_agrees(a, b, n, i - 1, m);
        lemma_data_pos_monotone(a, n, 0, i - 1);
        assert(a[i] == b[i]);
        lemma_data_size_agrees(a, b, a[i], data_pos(a, n, i - 1), m);
    }
}

/// Truncation safety: every proper prefix of a stream is refused as
/// truncated.
pub proof fn lemma_index_truncation(indices: Seq<u32>, keep: int)
    requires
        indices.len() % 3 == 0,
        0 <= keep < encode_index_spec(indices).len(),
    ensures
        decode_index_result(encode_index_spec(indices).take(keep), indices.len() as int) == Err::<
            Seq<u32>,
            Error,
        >(Error::TruncatedInput),
{
    let n = indices.len() as int / 3;
    let s = encode_index_spec(indices);
    let cut = s.take(keep);
    lemma_encode_len(indices);
    lemma_reader_follows_writer(indices, n);
    if keep >= 1 + n + 16 {
        assert(cut[0] == s[0]);
        if data_pos(cut, n, n) <= keep - 16 {
            if n > 0 {
                lemma_data_pos_monotone(cut, n, n - 1, n);
            }
            lemma_data_pos_agrees(cut, s, n, n, keep);
            // the data of the whole stream ends later than the prefix allows
            assert(false);
        }
    }
}

/// Trailing-byte rejection: a stream with anything appended is refused for its
/// trailing bytes.
pub proof fn lemma_index_trailing(indices: Seq<u32>, extra: Seq<u8>)
    requires
        indices.len() % 3 == 0,
        extra.len() > 0,
    ensures
        decode_index_result(encode_index_spec(indices) + extra, indices.len() as int) == Err::<
            Seq<u32>,
            Error,
        >(Error::TrailingBytes),
{
    let n = indices.len() as int / 3;
    let s = encode_index_spec(indices);
    let long = s + extra;
    lemma_encode_len(indices);
    lemma_reader_follows_writer(indices, n);
    assert(long[0] == s[0]);
    if n > 0 {
        lemma_data_pos_monotone(s, n, n - 1, n);
    }
    lemma_data_pos_agrees(s, long, n, n, s.len() as int);
}

/// Header corruption: a stream whose first byte was replaced by any other
/// byte is refused for its format.
pub proof fn lemma_index_header(indices: Seq<u32>, tag: u8)
    requires
        indices.len() % 3 == 0,
        tag != INDEX_HEADER,
    ensures
        decode_index_result(encode_index_spec(indices).update(0, tag), indices.len() as int)
            == Err::<Seq<u32>, Error>(Error::FormatError),
{
    lemma_encode_len(indices);
}

/// Every index that a reader of the stream finds is an index of the input.
pub proof fn lemma_turned_in_range(indices: Seq<u32>, vertex_count: int)
    requires
        valid_index_stream(indices, vertex_count),
    ensures
        valid_index_stream(turned_indices(indices), vertex_count),
{
    let n = indices.len() as int / 3;
    let u = turned_indices(indices);
    lemma_enc_shape(indices, n);
    assert forall|x: int| 0 <= x < u.len() implies (#[trigger] u[x]) < vertex_count by {
        let k = x / 3;
        lemma_enc_at(indices, n, k);
        lemma_enc_shape(indices, k);
        lemma_enc_step_shape(enc_model(indices, k), tri_at(indices, k));
        let t = tri_at(indices, k);
        assert(is_turn_of(tri_at(u, k), t));
        assert(indices[3 * k] < vertex_count);
        assert(indices[3 * k + 1] < vertex_count);
        assert(indices[3 * k + 2] < vertex_count);
        assert(x == 3 * k || x == 3 * k + 1 || x == 3 * k + 2);
    }
}

/// Width equivalence: where the mesh has at most 65536 vertices, reading a
/// stream into 16-bit indices and into 32-bit indices gives the same
/// triangles.
pub proof fn lemma_index_width(indices: Seq<u32>, vertex_count: int)
    requires
        valid_index_stream(indices, vertex_count),
        vertex_count <= 65536,
    ensures
        decode_index_sized_result(encode_index_spec(indices), indices.len() as int, 2)
            == decode_index_sized_result(encode_index_spec(indices), indices.len() as int, 4),
        decode_index_sized_result(encode_index_spec(indices), indices.len() as int, 4) == Ok::<
            Seq<u32>,
            Error,
        >(turned_indices(indices)),
{
    lemma_index_round_trip(indices);
    lemma_turned_in_range(indices, vertex_count);
    let u = turned_indices(indices);
    assert(Seq::new(u.len(), |i: int| (u[i] % 0x1_0000) as u32) =~= u);
}

/// In a valid stream the writer takes at most one auxiliary byte and three
/// deltas for each triangle, and `last` stays a vertex of the mesh.
pub proof fn lemma_enc_data_bound(indices: Seq<u32>, vertex_count: int, i: int)
    requires
        valid_index_stream(indices, vertex_count),
        0 <= i <= indices.len() / 3,
        vertex_count > 0,
    ensures
        enc_data(indices, i).len() <= i * (1 + 3 * crate::index_model::index_groups(
            vertex_count,
        )),
        enc_model(indices, i).last < vertex_count,
    decreases i,
{
    if i > 0 {
        let k = i - 1;
        let g = crate::index_model::index_groups(vertex_count);
        lemma_enc_data_bound(indices, vertex_count, k);
        lemma_enc_shape(indices, k);
        assert(indices[3 * k] < vertex_count);
        assert(indices[3 * k + 1] < vertex_count);
        assert(indices[3 * k + 2] < vertex_count);
        crate::index_step_laws::lemma_enc_step_size(
            enc_model(indices, k),
            tri_at(indices, k),
            vertex_count,
        );
        assert(k * (1 + 3 * g) + (1 + 3 * g) == i * (1 + 3 * g)) by (nonlinear_arith)
            requires
                i == k + 1,
        ;
    }
}

/// The bound is safe: the stream of a valid list for `vertex_count` vertices
/// is never longer than the bound for its length and that vertex count.
pub proof fn lemma_index_bound(indices: Seq<u32>, vertex_count: int)
    requires
        valid_index_stream(indices, vertex_count),
    ensures
        encode_index_spec(indices).len() <= crate::index_codec::index_bound_spec(
            indices.len() as int,
            vertex_count,
        ),
{
    let n = indices.len() as int / 3;
    let g = crate::index_model::index_groups(vertex_count);
    lemma_encode_len(indices);
    if n > 0 {
        assert(indices[0] < vertex_count);
        lemma_enc_data_bound(indices, vertex_count, n);
    }
    assert(n + n * (1 + 3 * g) == n * (2 + 3 * g)) by (nonlinear_arith);
}

} // verus!
