//! What holds of every vertex stream: a stream that was written is read back
//! byte for byte, and a stream that was cut, lengthened or retagged is
//! refused.

use vstd::prelude::*;
use crate::error::Error;
use crate::vertex_codec::{
    block_delta, block_end, block_len, block_row, block_rows, block_size, decode_vertex_result,
    enc_block, enc_blocks, enc_tail, encode_vertex_spec, groups_for, lemma_block_rows_len,
    lemma_block_size, lemma_plane_pos_monotone, lemma_stream_end_monotone, plane_deltas,
    plane_pos, prev_record, record, stream_bytes, stream_end, stream_tail, tail_size,
    valid_vertex_buffer, valid_vertex_size, VERTEX_HEADER,
};
use crate::vertex_group::lemma_byte_delta_round_trip;
use crate::vertex_plane::{
    lemma_group_pos_agrees, lemma_group_pos_monotone, lemma_plane_round_trip, plane_bytes,
    plane_end, plane_values,
};

verus! {

/// Rows lie one behind the other: the `j`-th starts at `j * vs`, and all of
/// the first `n` lie within `n * vs` bytes.
pub proof fn lemma_row_bounds(vs: int, j: int, n: int)
    requires
        0 <= j < n,
        0 < vs,
    ensures
        0 <= j * vs,
        j * vs + vs <= n * vs,
        (j + 1) * vs == j * vs + vs,
{
    assert(0 <= j * vs) by (nonlinear_arith)
        requires
            0 <= j,
            0 < vs,
    ;
    assert(j * vs + vs <= n * vs) by (nonlinear_arith)
        requires
            j + 1 <= n,
            0 < vs,
    ;
    assert((j + 1) * vs == j * vs + vs) by (nonlinear_arith);
}

/// What was written for the first `j` planes of a block stays in front when
/// more planes are written.
pub proof fn lemma_enc_block_prefix(v: Seq<u8>, vs: int, start: int, len: int, j: int, k: int)
    requires
        0 <= j <= k,
    ensures
        enc_block(v, vs, start, len, j).len() <= enc_block(v, vs, start, len, k).len(),
        enc_block(v, vs, start, len, k).subrange(0, enc_block(v, vs, start, len, j).len() as int)
            == enc_block(v, vs, start, len, j),
    decreases k,
{
    let ej = enc_block(v, vs, start, len, j);
    if j < k {
        lemma_enc_block_prefix(v, vs, start, len, j, k - 1);
        assert(enc_block(v, vs, start, len, k).subrange(0, ej.len() as int) =~= enc_block(
            v,
            vs,
            start,
            len,
            k - 1,
        ).subrange(0, ej.len() as int));
    } else {
        assert(enc_block(v, vs, start, len, k).subrange(0, ej.len() as int) =~= ej);
    }
}

/// A reader of a block stands, before the `k`-th plane, behind what the
/// writer made of the planes in front.
pub proof fn lemma_block_planes_follow(
    v: Seq<u8>,
    vs: int,
    start: int,
    len: int,
    s: Seq<u8>,
    pos: int,
    k: int,
)
    requires
        1 <= len,
        0 <= k <= vs,
        0 <= pos,
        pos + enc_block(v, vs, start, len, vs).len() <= s.len(),
        s.subrange(pos, pos + enc_block(v, vs, start, len, vs).len()) == enc_block(
            v,
            vs,
            start,
            len,
            vs,
        ),
    ensures
        plane_pos(s, pos, groups_for(len), k) == pos + enc_block(v, vs, start, len, k).len(),
        forall|j: int|
            0 <= j < k ==> #[trigger] plane_values(
                s,
                plane_pos(s, pos, groups_for(len), j),
                groups_for(len),
                groups_for(len),
            ) == plane_deltas(v, vs, start, len, j),
    decreases k,
{
    let groups = groups_for(len);
    if k > 0 {
        let j = k - 1;
        lemma_block_planes_follow(v, vs, start, len, s, pos, j);
        let d = plane_deltas(v, vs, start, len, j);
        let hp = pos + enc_block(v, vs, start, len, j).len();
        let all = enc_block(v, vs, start, len, vs);
        let w = s.subrange(pos, pos + all.len());
        lemma_enc_block_prefix(v, vs, start, len, k, vs);
        let ek = enc_block(v, vs, start, len, k);
        assert(ek == enc_block(v, vs, start, len, j) + plane_bytes(d));
        assert(s.subrange(hp, hp + plane_bytes(d).len()) =~= plane_bytes(d)) by {
            assert forall|x: int| 0 <= x < plane_bytes(d).len() implies s[hp + x] == plane_bytes(
                d,
            )[x] by {
                let y = enc_block(v, vs, start, len, j).len() + x;
                assert(w[y] == all[y]);
                assert(all.subrange(0, ek.len() as int)[y] == ek[y]);
            }
        }
        assert(d.len() == 16 * groups);
        lemma_plane_round_trip(d, s, hp);
    }
}

/// The records that a reader makes of a block are the records that were
/// written, where the reader knows the record before the block.
pub proof fn lemma_block_rows_match(
    v: Seq<u8>,
    n: int,
    vs: int,
    start: int,
    len: int,
    s: Seq<u8>,
    pos: int,
    i: int,
)
    requires
        0 < vs,
        v.len() == n * vs,
        0 <= start,
        1 <= len,
        start + len <= n,
        0 <= i <= len,
        forall|k: int|
            0 <= k < vs ==> #[trigger] plane_values(
                s,
                plane_pos(s, pos, groups_for(len), k),
                groups_for(len),
                groups_for(len),
            ) == plane_deltas(v, vs, start, len, k),
    ensures
        block_row(s, pos, vs, groups_for(len), prev_record(v, vs, start), i - 1) == if i == 0 {
            prev_record(v, vs, start)
        } else {
            record(v, vs, start + i - 1)
        },
        block_rows(s, pos, vs, groups_for(len), prev_record(v, vs, start), i) == v.subrange(
            start * vs,
            (start + i) * vs,
        ),
    decreases i,
{
    let groups = groups_for(len);
    let prev = prev_record(v, vs, start);
    lemma_row_bounds(vs, start, n);
    if i > 0 {
        let j = start + i - 1;
        lemma_block_rows_match(v, n, vs, start, len, s, pos, i - 1);
        lemma_row_bounds(vs, j, n);
        if j > 0 {
            lemma_row_bounds(vs, j - 1, n);
        }
        let before = block_row(s, pos, vs, groups, prev, i - 2);
        let row = block_row(s, pos, vs, groups, prev, i - 1);
        assert(before == prev_record(v, vs, j));
        assert(row =~= record(v, vs, j)) by {
            assert forall|k: int| 0 <= k < vs implies row[k] == record(v, vs, j)[k] by {
                let d = plane_values(s, plane_pos(s, pos, groups, k), groups, groups);
                assert(d == plane_deltas(v, vs, start, len, k));
                assert(block_delta(s, pos, groups, i - 1, k) == d[i - 1]);
                lemma_byte_delta_round_trip(record(v, vs, j)[k], prev_record(v, vs, j)[k]);
            }
        }
        assert(start * vs + (i - 1) * vs == (start + i - 1) * vs) by (nonlinear_arith);
        assert(block_rows(s, pos, vs, groups, prev, i) =~= v.subrange(
            start * vs,
            (start + i) * vs,
        ));
    } else {
        assert(block_rows(s, pos, vs, groups, prev, i) =~= v.subrange(
            start * vs,
            (start + i) * vs,
        ));
    }
}

/// A reader of the blocks that the writer made of the records from `start`
/// on ends where the writer ended, and finds those records.
pub proof fn lemma_stream_follows(
    v: Seq<u8>,
    n: int,
    vs: int,
    start: int,
    s: Seq<u8>,
    pos: int,
)
    requires
        valid_vertex_size(vs),
        v.len() == n * vs,
        0 <= start <= n,
        0 <= pos,
        pos + enc_blocks(v, n, vs, start).len() <= s.len(),
        s.subrange(pos, pos + enc_blocks(v, n, vs, start).len()) == enc_blocks(v, n, vs, start),
    ensures
        stream_end(s, n, vs, start, pos) == pos + enc_blocks(v, n, vs, start).len(),
        stream_bytes(s, n, vs, start, pos, prev_record(v, vs, start)) == v.subrange(
            start * vs,
            n * vs,
        ),
    decreases n - start,
{
    lemma_block_size(vs);
    if start >= n {
        assert(stream_bytes(s, n, vs, start, pos, prev_record(v, vs, start)) =~= v.subrange(
            start * vs,
            n * vs,
        ));
    } else {
        let len = block_len(n, vs, start);
        let groups = groups_for(len);
        let this = enc_block(v, vs, start, len, vs);
        let rest = enc_blocks(v, n, vs, start + len);
        let all = enc_blocks(v, n, vs, start);
        let w = s.subrange(pos, pos + all.len());
        assert(all == this + rest);
        assert(s.subrange(pos, pos + this.len()) =~= this) by {
            assert forall|x: int| 0 <= x < this.len() implies s[pos + x] == this[x] by {
                assert(w[x] == all[x]);
            }
        }
        assert(s.subrange(pos + this.len(), pos + this.len() + rest.len()) =~= rest) by {
            assert forall|x: int| 0 <= x < rest.len() implies s[pos + this.len() + x]
                == rest[x] by {
                assert(w[this.len() + x] == all[this.len() + x]);
            }
        }
        lemma_block_planes_follow(v, vs, start, len, s, pos, vs);
        lemma_block_rows_match(v, n, vs, start, len, s, pos, len);
        let prev = prev_record(v, vs, start);
        let last = block_row(s, pos, vs, groups, prev, len - 1);
        assert(last == prev_record(v, vs, start + len));
        lemma_stream_follows(v, n, vs, start + len, s, pos + this.len());
        lemma_row_bounds(vs, start, n);
        assert((start + len) * vs <= n * vs) by (nonlinear_arith)
            requires
                start + len <= n,
                0 < vs,
        ;
        assert(start * vs <= (start + len) * vs) by (nonlinear_arith)
            requires
                0 <= len,
                0 < vs,
        ;
        assert(stream_bytes(s, n, vs, start, pos, prev) =~= v.subrange(start * vs, n * vs));
    }
}

/// The length of a stream: the tag, the blocks, the tail; and its ends.
pub proof fn lemma_vertex_encode_len(v: Seq<u8>, vs: int)
    requires
        valid_vertex_buffer(v, vs),
    ensures
        encode_vertex_spec(v, vs).len() == 1 + enc_blocks(v, v.len() as int / vs, vs, 0).len()
            + tail_size(vs),
        encode_vertex_spec(v, vs)[0] == VERTEX_HEADER,
        v.len() > 0 ==> stream_tail(encode_vertex_spec(v, vs), vs) == record(v, vs, 0),
        v.len() == (v.len() as int / vs) * vs,
        v.len() > 0 ==> v.len() >= vs,
{
    let n = v.len() as int / vs;
    let s = encode_vertex_spec(v, vs);
    vstd::arithmetic::div_mod::lemma_fundamental_div_mod(v.len() as int, vs);
    assert(n * vs == vs * n) by (nonlinear_arith);
    if v.len() > 0 {
        assert(n >= 1 && n * vs >= vs) by (nonlinear_arith)
            requires
                n * vs > 0,
                vs > 0,
                n >= 0,
        ;
        assert(0 * vs == 0);
        assert(stream_tail(s, vs) =~= record(v, vs, 0));
    }
}

/// Round trip: the stream of any buffer of whole records is read back to the
/// very bytes of the buffer.
pub proof fn lemma_vertex_round_trip(v: Seq<u8>, vs: int)
    requires
        valid_vertex_buffer(v, vs),
    ensures
        decode_vertex_result(encode_vertex_spec(v, vs), v.len() as int / vs, vs) == Ok::<
            Seq<u8>,
            Error,
        >(v),
{
    let n = v.len() as int / vs;
    let s = encode_vertex_spec(v, vs);
    let blocks = enc_blocks(v, n, vs, 0);
    lemma_vertex_encode_len(v, vs);
    assert(s.subrange(1, 1 + blocks.len() as int) =~= blocks);
    lemma_stream_follows(v, n, vs, 0, s, 1);
    assert(0 * vs == 0);
    assert(v.subrange(0, n * vs) =~= v);
    if v.len() == 0 {
        assert(n == 0) by (nonlinear_arith)
            requires
                n * vs == 0,
                vs > 0,
        ;
        assert(stream_bytes(s, n, vs, 0, 1, stream_tail(s, vs)) =~= v);
    }
}

/// Two streams that hold the same bytes in front of `m` place the planes of a
/// block alike, as far as one of them ends the planes twenty-four bytes or
/// more before `m`.
pub proof fn lemma_plane_pos_agrees(
    a: Seq<u8>,
    b: Seq<u8>,
    pos: int,
    groups: int,
    k: int,
    m: int,
)
    requires
        0 <= pos,
        0 <= k,
        0 <= groups,
        m <= a.len(),
        m <= b.len(),
        forall|x: int| 0 <= x < m ==> a[x] == b[x],
        plane_pos(a, pos, groups, k) <= m - 24,
    ensures
        plane_pos(a, pos, groups, k) == plane_pos(b, pos, groups, k),
    decreases k,
{
    if k > 0 {
        lemma_plane_pos_monotone(a, pos, groups, k - 1, k);
        lemma_plane_pos_agrees(a, b, pos, groups, k - 1, m);
        lemma_group_pos_agrees(a, b, plane_pos(a, pos, groups, k - 1), groups, groups, m);
    }
}

/// Two streams that hold the same bytes in front of `m` end their blocks
/// alike, as far as one of them ends them twenty-four bytes or more before
/// `m`.
pub proof fn lemma_stream_end_agrees(
    a: Seq<u8>,
    b: Seq<u8>,
    n: int,
    vs: int,
    start: int,
    pos: int,
    m: int,
)
    requires
        0 <= pos,
        0 <= vs,
        m <= a.len(),
        m <= b.len(),
        forall|x: int| 0 <= x < m ==> a[x] == b[x],
        stream_end(a, n, vs, start, pos) <= m - 24,
    ensures
        stream_end(a, n, vs, start, pos) == stream_end(b, n, vs, start, pos),
    decreases n - start,
{
    if !(start >= n || block_len(n, vs, start) < 1) {
        let len = block_len(n, vs, start);
        let groups = groups_for(len);
        let end = block_end(a, pos, vs, groups);
        lemma_stream_end_monotone(a, n, vs, start + len, end);
        lemma_plane_pos_monotone(a, pos, groups, 0, vs);
        lemma_plane_pos_agrees(a, b, pos, groups, vs, m);
        lemma_stream_end_agrees(a, b, n, vs, start + len, end, m);
    }
}

/// Truncation safety: every proper prefix of a stream is refused as
/// truncated.
pub proof fn lemma_vertex_truncation(v: Seq<u8>, vs: int, keep: int)
    requires
        valid_vertex_buffer(v, vs),
        0 <= keep < encode_vertex_spec(v, vs).len(),
    ensures
        decode_vertex_result(encode_vertex_spec(v, vs).take(keep), v.len() as int / vs, vs)
            == Err::<Seq<u8>, Error>(Error::TruncatedInput),
{
    let n = v.len() as int / vs;
    let s = encode_vertex_spec(v, vs);
    let cut = s.take(keep);
    let blocks = enc_blocks(v, n, vs, 0);
    lemma_vertex_encode_len(v, vs);
    assert(s.subrange(1, 1 + blocks.len() as int) =~= blocks);
    lemma_stream_follows(v, n, vs, 0, s, 1);
    if keep >= 1 + vs {
        assert(cut[0] == s[0]);
        if stream_end(cut, n, vs, 0, 1) + tail_size(vs) <= keep {
            lemma_stream_end_agrees(cut, s, n, vs, 0, 1, keep);
            assert(false);
        }
    }
}

/// Trailing-byte rejection: a stream with anything appended is refused for its
/// trailing bytes.
pub proof fn lemma_vertex_trailing(v: Seq<u8>, vs: int, extra: Seq<u8>)
    requires
        valid_vertex_buffer(v, vs),
        extra.len() > 0,
    ensures
        decode_vertex_result(encode_vertex_spec(v, vs) + extra, v.len() as int / vs, vs) == Err::<
            Seq<u8>,
            Error,
        >(Error::TrailingBytes),
{
    let n = v.len() as int / vs;
    let s = encode_vertex_spec(v, vs);
    let long = s + extra;
    let blocks = enc_blocks(v, n, vs, 0);
    lemma_vertex_encode_len(v, vs);
    assert(s.subrange(1, 1 + blocks.len() as int) =~= blocks);
    lemma_stream_follows(v, n, vs, 0, s, 1);
    assert(long[0] == s[0]);
    lemma_stream_end_agrees(s, long, n, vs, 0, 1, s.len() as int);
}

/// Header corruption: a stream whose first byte was replaced by any other
/// byte is refused for its format.
pub proof fn lemma_vertex_header(v: Seq<u8>, vs: int, tag: u8)
    requires
        valid_vertex_buffer(v, vs),
        tag != VERTEX_HEADER,
    ensures
        decode_vertex_result(encode_vertex_spec(v, vs).update(0, tag), v.len() as int / vs, vs)
            == Err::<Seq<u8>, Error>(Error::FormatError),
{
    lemma_vertex_encode_len(v, vs);
}

/// The most bytes that one plane of a block takes.
pub open spec fn plane_bound(vs: int) -> int {
    crate::vertex_plane::header_size(block_size(vs) / 16) + block_size(vs)
}

/// The first `k` planes of a block take no more than `k` full planes.
pub proof fn lemma_enc_block_len(v: Seq<u8>, vs: int, start: int, len: int, k: int)
    requires
        valid_vertex_size(vs),
        1 <= len <= block_size(vs),
        0 <= k,
    ensures
        enc_block(v, vs, start, len, k).len() <= k * plane_bound(vs),
    decreases k,
{
    lemma_block_size(vs);
    if k > 0 {
        lemma_enc_block_len(v, vs, start, len, k - 1);
        let d = plane_deltas(v, vs, start, len, k - 1);
        crate::vertex_plane::lemma_plane_bytes_len(d);
        assert(d.len() == 16 * groups_for(len));
        assert((k - 1) * plane_bound(vs) + plane_bound(vs) == k * plane_bound(vs))
            by (nonlinear_arith);
    }
}

/// One block more holds up to a full block of records more.
pub proof fn lemma_block_count_step(x: int, vs: int)
    requires
        valid_vertex_size(vs),
        0 < x,
    ensures
        crate::vertex_codec::block_count(x, vs) == 1 + crate::vertex_codec::block_count(
            x - block_len(x, vs, 0),
            vs,
        ),
        crate::vertex_codec::block_count(0, vs) == 0,
{
    let b = block_size(vs);
    lemma_block_size(vs);
    assert(0int / b == 0 && 0int % b == 0) by (nonlinear_arith)
        requires
            b > 0,
    ;
    if x < b {
        assert(x / b == 0 && x % b == x) by (nonlinear_arith)
            requires
                0 < x < b,
        ;
    } else {
        vstd::arithmetic::div_mod::lemma_div_plus_one(x - b, b);
        vstd::arithmetic::div_mod::lemma_mod_add_multiples_vanish(x - b, b);
        assert(x / b == (x - b) / b + 1);
        assert(x % b == (x - b) % b);
    }
}

/// The blocks of the records from `start` on take no more than as many full
/// blocks as those records make.
pub proof fn lemma_enc_blocks_len(v: Seq<u8>, n: int, vs: int, start: int)
    requires
        valid_vertex_size(vs),
        0 <= start <= n,
    ensures
        enc_blocks(v, n, vs, start).len() <= crate::vertex_codec::block_count(n - start, vs) * (vs
            * plane_bound(vs)),
    decreases n - start,
{
    lemma_block_size(vs);
    let unit = vs * plane_bound(vs);
    if start < n {
        let len = block_len(n, vs, start);
        assert(len == block_len(n - start, vs, 0));
        lemma_block_count_step(n - start, vs);
        lemma_enc_block_len(v, vs, start, len, vs);
        lemma_enc_blocks_len(v, n, vs, start + len);
        let c = crate::vertex_codec::block_count(n - start - len, vs);
        assert((1 + c) * unit == unit + c * unit) by (nonlinear_arith);
    } else {
        lemma_block_count_step(1, vs);
        assert(0 * unit == 0);
    }
}

/// The bound is safe: the stream of a buffer of whole records is never
/// longer than the bound for its record count and record size.
pub proof fn lemma_vertex_bound(v: Seq<u8>, vs: int)
    requires
        valid_vertex_buffer(v, vs),
    ensures
        encode_vertex_spec(v, vs).len() <= crate::vertex_codec::vertex_bound_spec(
            v.len() as int / vs,
            vs,
        ),
{
    let n = v.len() as int / vs;
    lemma_vertex_encode_len(v, vs);
    lemma_enc_blocks_len(v, n, vs, 0);
    let c = crate::vertex_codec::block_count(n, vs);
    assert(c * (vs * plane_bound(vs)) == c * vs * plane_bound(vs)) by (nonlinear_arith);
}

} // verus!
