//! The vertex buffer codec: records of one size as a tag byte, blocks of
//! planes, and a tail that holds the first record.
//!
//! The records are cut into blocks. Within a block the bytes at one place of
//! the records form a plane; each byte of a plane is written as its folded
//! difference from the byte at the same place of the record before, and the
//! differences are packed in groups of sixteen. The first record counts as its
//! own predecessor, and the reader finds it in the last bytes of the stream.
//! A stream carries neither the record count nor the record size.

use vstd::prelude::*;
use crate::error::Error;
use crate::vertex_group::{apply_byte_delta, byte_delta};
use crate::vertex_plane::{
    header_size, lemma_group_pos_monotone, plane_bytes, plane_end, plane_values, read_plane,
    write_plane,
};

verus! {

/// The tag byte of a vertex stream.
pub const VERTEX_HEADER: u8 = 0xa0;

/// A record size that the codec takes: any size of at least one byte.
pub open spec fn valid_vertex_size(vs: int) -> bool {
    0 < vs
}

/// How many records a full block holds: as many as fit in 8192 bytes,
/// rounded down to a multiple of 16, but at least 16 and at most 256.
pub open spec fn block_size(vs: int) -> int {
    let fit = (8192int / vs) / 16 * 16;
    if vs <= 0 || fit >= 256 {
        256
    } else if fit < 16 {
        16
    } else {
        fit
    }
}

/// How many records the block holds that starts at the record `start`, of `n`
/// records in all.
pub open spec fn block_len(n: int, vs: int, start: int) -> int {
    if n - start < block_size(vs) {
        n - start
    } else {
        block_size(vs)
    }
}

/// How many groups a plane of `len` records has.
pub open spec fn groups_for(len: int) -> int {
    (len + 15) / 16
}

/// The size of the tail: the record size, but at least 32.
pub open spec fn tail_size(vs: int) -> int {
    if vs < 32 {
        32
    } else {
        vs
    }
}

/// Where the header of the `k`-th plane starts, in a block that starts at
/// `pos` and whose planes have `groups` groups.
pub open spec fn plane_pos(s: Seq<u8>, pos: int, groups: int, k: int) -> int
    decreases k,
{
    if k <= 0 {
        pos
    } else {
        plane_end(s, plane_pos(s, pos, groups, k - 1), groups)
    }
}

/// Where a block of `vs` planes ends.
pub open spec fn block_end(s: Seq<u8>, pos: int, vs: int, groups: int) -> int {
    plane_pos(s, pos, groups, vs)
}

/// The folded difference at place `k` of the `i`-th record of a block.
pub open spec fn block_delta(s: Seq<u8>, pos: int, groups: int, i: int, k: int) -> u8 {
    plane_values(s, plane_pos(s, pos, groups, k), groups, groups)[i]
}

/// The `i`-th record of a block, where `prev` is the record before the
/// block's first.
pub open spec fn block_row(s: Seq<u8>, pos: int, vs: int, groups: int, prev: Seq<u8>, i: int)
    -> Seq<u8>
    decreases i + 1,
{
    if i < 0 {
        prev
    } else {
        let p = block_row(s, pos, vs, groups, prev, i - 1);
        Seq::new(vs as nat, |k: int| apply_byte_delta(p[k], block_delta(s, pos, groups, i, k)))
    }
}

/// The first `i` records of a block, one behind the other.
pub open spec fn block_rows(s: Seq<u8>, pos: int, vs: int, groups: int, prev: Seq<u8>, i: int)
    -> Seq<u8>
    decreases i,
{
    if i <= 0 {
        Seq::<u8>::empty()
    } else {
        block_rows(s, pos, vs, groups, prev, i - 1) + block_row(s, pos, vs, groups, prev, i - 1)
    }
}

/// Where the blocks end that hold the records from `start` on, when the block
/// of the record `start` starts at `pos`.
pub open spec fn stream_end(s: Seq<u8>, n: int, vs: int, start: int, pos: int) -> int
    decreases n - start,
{
    if start >= n || block_len(n, vs, start) < 1 {
        pos
    } else {
        let len = block_len(n, vs, start);
        stream_end(s, n, vs, start + len, block_end(s, pos, vs, groups_for(len)))
    }
}

/// The records from `start` on, when the block of the record `start` starts
/// at `pos` and `prev` is the record before it.
pub open spec fn stream_bytes(s: Seq<u8>, n: int, vs: int, start: int, pos: int, prev: Seq<u8>)
    -> Seq<u8>
    decreases n - start,
{
    if start >= n || block_len(n, vs, start) < 1 {
        Seq::<u8>::empty()
    } else {
        let len = block_len(n, vs, start);
        let groups = groups_for(len);
        block_rows(s, pos, vs, groups, prev, len) + stream_bytes(
            s,
            n,
            vs,
            start + len,
            block_end(s, pos, vs, groups),
            block_row(s, pos, vs, groups, prev, len - 1),
        )
    }
}

/// The record that a reader of `s` takes for the predecessor of the first:
/// the last `vs` bytes.
pub open spec fn stream_tail(s: Seq<u8>, vs: int) -> Seq<u8> {
    s.subrange(s.len() - vs, s.len() as int)
}

/// What reading `n` records of `vs` bytes from the bytes `s` gives.
///
/// The record size must be one that the codec takes. The stream must have room
/// for the tag and one record, and must start with the tag. Then the blocks
/// must end exactly where the tail starts: a stream whose blocks would end
/// later is truncated, one whose blocks end earlier has trailing bytes.
pub open spec fn decode_vertex_result(s: Seq<u8>, n: int, vs: int) -> Result<Seq<u8>, Error> {
    if !valid_vertex_size(vs) {
        Err(Error::PreconditionViolation)
    } else if s.len() < 1 + vs {
        Err(Error::TruncatedInput)
    } else if s[0] != VERTEX_HEADER {
        Err(Error::FormatError)
    } else if stream_end(s, n, vs, 0, 1) + tail_size(vs) > s.len() {
        Err(Error::TruncatedInput)
    } else if stream_end(s, n, vs, 0, 1) + tail_size(vs) < s.len() {
        Err(Error::TrailingBytes)
    } else {
        Ok(stream_bytes(s, n, vs, 0, 1, stream_tail(s, vs)))
    }
}

/// The `j`-th record of the buffer `v` of records of `vs` bytes.
pub open spec fn record(v: Seq<u8>, vs: int, j: int) -> Seq<u8> {
    v.subrange(j * vs, j * vs + vs)
}

/// The record before the `j`-th; the first record is its own predecessor.
pub open spec fn prev_record(v: Seq<u8>, vs: int, j: int) -> Seq<u8> {
    if j <= 0 {
        record(v, vs, 0)
    } else {
        record(v, vs, j - 1)
    }
}

/// The plane at place `k` of the block of `len` records that starts at the
/// record `start`: the folded differences, filled up with zeros to whole
/// groups.
pub open spec fn plane_deltas(v: Seq<u8>, vs: int, start: int, len: int, k: int) -> Seq<u8> {
    Seq::new(
        (16 * groups_for(len)) as nat,
        |i: int|
            if i < len {
                byte_delta(record(v, vs, start + i)[k], prev_record(v, vs, start + i)[k])
            } else {
                0u8
            },
    )
}

/// What the writer makes of the first `k` planes of a block.
pub open spec fn enc_block(v: Seq<u8>, vs: int, start: int, len: int, k: int) -> Seq<u8>
    decreases k,
{
    if k <= 0 {
        Seq::<u8>::empty()
    } else {
        enc_block(v, vs, start, len, k - 1) + plane_bytes(plane_deltas(v, vs, start, len, k - 1))
    }
}

/// What the writer makes of the records from `start` on.
pub open spec fn enc_blocks(v: Seq<u8>, n: int, vs: int, start: int) -> Seq<u8>
    decreases n - start,
{
    if start >= n || block_len(n, vs, start) < 1 {
        Seq::<u8>::empty()
    } else {
        let len = block_len(n, vs, start);
        enc_block(v, vs, start, len, vs) + enc_blocks(v, n, vs, start + len)
    }
}

/// The tail of the stream of `v`: zeros up to the tail size, then the first
/// record, or zeros where there is no record.
pub open spec fn enc_tail(v: Seq<u8>, vs: int) -> Seq<u8> {
    Seq::new(
        tail_size(vs) as nat,
        |x: int|
            if x >= tail_size(vs) - vs && v.len() > 0 {
                v[x - (tail_size(vs) - vs)]
            } else {
                0u8
            },
    )
}

/// The stream of the records `v` of `vs` bytes each: tag, blocks, tail.
pub open spec fn encode_vertex_spec(v: Seq<u8>, vs: int) -> Seq<u8> {
    seq![VERTEX_HEADER] + enc_blocks(v, v.len() as int / vs, vs, 0) + enc_tail(v, vs)
}

/// Whether `v` is a buffer of records of `vs` bytes that the codec takes.
pub open spec fn valid_vertex_buffer(v: Seq<u8>, vs: int) -> bool {
    valid_vertex_size(vs) && v.len() % (vs as nat) == 0
}

/// How many blocks `n` records of `vs` bytes make.
pub open spec fn block_count(n: int, vs: int) -> int {
    n / block_size(vs) + if n % block_size(vs) != 0 {
        1int
    } else {
        0int
    }
}

/// The most bytes that the stream of `n` records of `vs` bytes can take: the
/// tag, for every plane of every block a full header and a byte for each
/// record of a full block, and the tail.
pub open spec fn vertex_bound_spec(n: int, vs: int) -> int {
    1 + block_count(n, vs) * vs * (header_size(block_size(vs) / 16) + block_size(vs)) + tail_size(
        vs,
    )
}

/// A full block holds from 16 to 256 records, a multiple of 16.
pub proof fn lemma_block_size(vs: int)
    ensures
        16 <= block_size(vs) <= 256,
        block_size(vs) % 16 == 0,
{
    let fit = (8192int / vs) / 16 * 16;
    assert(fit % 16 == 0) by {
        vstd::arithmetic::div_mod::lemma_mod_multiples_basic((8192int / vs) / 16, 16);
    }
}

/// A block ends no earlier than any of its planes starts.
pub proof fn lemma_plane_pos_monotone(s: Seq<u8>, pos: int, groups: int, j: int, k: int)
    requires
        0 <= j <= k,
        0 <= groups,
    ensures
        pos <= plane_pos(s, pos, groups, j) <= plane_pos(s, pos, groups, k),
    decreases k,
{
    if j < k {
        lemma_plane_pos_monotone(s, pos, groups, j, k - 1);
        lemma_group_pos_monotone(s, plane_pos(s, pos, groups, k - 1), groups, 0, groups);
    } else if j > 0 {
        lemma_plane_pos_monotone(s, pos, groups, j - 1, j - 1);
        lemma_group_pos_monotone(s, plane_pos(s, pos, groups, j - 1), groups, 0, groups);
    }
}

/// The blocks end no earlier than they start.
pub proof fn lemma_stream_end_monotone(s: Seq<u8>, n: int, vs: int, start: int, pos: int)
    requires
        0 <= vs,
    ensures
        pos <= stream_end(s, n, vs, start, pos),
    decreases n - start,
{
    if !(start >= n || block_len(n, vs, start) < 1) {
        let len = block_len(n, vs, start);
        lemma_plane_pos_monotone(s, pos, groups_for(len), 0, vs);
        lemma_stream_end_monotone(s, n, vs, start + len, block_end(s, pos, vs, groups_for(len)));
    }
}

/// The rows of a block have `vs` bytes each.
pub proof fn lemma_block_rows_len(
    s: Seq<u8>,
    pos: int,
    vs: int,
    groups: int,
    prev: Seq<u8>,
    i: int,
)
    requires
        0 <= i,
        0 <= vs,
        prev.len() == vs,
    ensures
        block_rows(s, pos, vs, groups, prev, i).len() == i * vs,
        block_row(s, pos, vs, groups, prev, i - 1).len() == vs,
    decreases i,
{
    if i > 0 {
        lemma_block_rows_len(s, pos, vs, groups, prev, i - 1);
        assert((i - 1) * vs + vs == i * vs) by (nonlinear_arith);
    } else {
        assert(0 * vs == 0);
    }
}

/// How many records a full block of records of `vs` bytes holds.
pub fn vertex_block_size(vs: usize) -> (b: usize)
    ensures
        b == block_size(vs as int),
        16 <= b <= 256,
        b % 16 == 0,
{
    proof {
        lemma_block_size(vs as int);
    }
    if vs == 0 {
        return 256;
    }
    let fit: usize = (8192 / vs) / 16 * 16;
    if fit >= 256 {
        256
    } else if fit < 16 {
        16
    } else {
        fit
    }
}

/// The folded difference of `v` against `last`.
fn fold_delta(v: u8, last: u8) -> (d: u8)
    ensures
        d == byte_delta(v, last),
{
    let diff: u8 = v.wrapping_sub(last);
    if diff < 128 {
        2 * diff
    } else {
        (511 - 2 * (diff as u16)) as u8
    }
}

/// The byte that the folded difference `d` leads to from `last`.
fn unfold_delta(last: u8, d: u8) -> (v: u8)
    ensures
        v == apply_byte_delta(last, d),
{
    let diff: u8 = if d % 2 == 0 {
        d / 2
    } else {
        255 - d / 2
    };
    last.wrapping_add(diff)
}

/// The plane at place `k` of the block of `len` records that starts at the
/// record `start`, whose first byte is at `base`.
fn block_plane(vertices: &[u8], vs: usize, start: usize, len: usize, base: usize, k: usize) -> (d:
    Vec<u8>)
    requires
        valid_vertex_size(vs as int),
        1 <= len <= 256,
        k < vs,
        base == start * vs,
        base + len * vs <= vertices.len(),
    ensures
        d@ == plane_deltas(vertices@, vs as int, start as int, len as int, k as int),
        d@.len() == 16 * groups_for(len as int),
{
    let groups: usize = (len + 15) / 16;
    let ghost want = plane_deltas(vertices@, vs as int, start as int, len as int, k as int);
    let mut deltas: Vec<u8> = Vec::new();
    let mut row: usize = base;
    let mut i: usize = 0;
    while i < len
        invariant
            i <= len,
            k < vs,
            valid_vertex_size(vs as int),
            1 <= len <= 256,
            base == start * vs,
            base + len * vs <= vertices.len(),
            row == base + i * vs,
            want == plane_deltas(vertices@, vs as int, start as int, len as int, k as int),
            deltas@ == want.take(i as int),
        decreases len - i,
    {
        proof {
            assert(i * vs + vs <= len * vs) by (nonlinear_arith)
                requires
                    i < len,
                    vs >= 0,
            ;
            assert((i + 1) * vs == i * vs + vs) by (nonlinear_arith);
            assert((start + i) * vs == start * vs + i * vs) by (nonlinear_arith);
            assert((start + i - 1) * vs == start * vs + i * vs - vs) by (nonlinear_arith);
        }
        let at: usize = row + k;
        let cur: u8 = vertices[at];
        let last: u8 = if row == 0 {
            vertices[k]
        } else {
            vertices[at - vs]
        };
        proof {
            let v = vertices@;
            let j = start + i;
            assert(row == j * vs);
            assert(cur == record(v, vs as int, j)[k as int]);
            if row == 0 {
                assert(j == 0) by (nonlinear_arith)
                    requires
                        j * vs == 0,
                        vs > 0,
                ;
            } else {
                assert(j >= 1 && row >= vs) by (nonlinear_arith)
                    requires
                        row == j * vs,
                        row > 0,
                        j >= 0,
                        vs > 0,
                ;
            }
            assert(last == prev_record(v, vs as int, j)[k as int]);
        }
        deltas.push(fold_delta(cur, last));
        assert(deltas@ =~= want.take(i + 1));
        row = row + vs;
        i = i + 1;
    }
    while i < 16 * groups
        invariant
            len <= i <= 16 * groups,
            groups == (len + 15) / 16,
            1 <= len <= 256,
            want == plane_deltas(vertices@, vs as int, start as int, len as int, k as int),
            deltas@ == want.take(i as int),
        decreases 16 * groups - i,
    {
        deltas.push(0);
        assert(deltas@ =~= want.take(i + 1));
        i = i + 1;
    }
    assert(want.take(16 * groups as int) =~= want);
    deltas
}

/// Appends to `out` what the writer makes of the block of `len` records
/// that starts at the record `start`, whose first byte is at `base`.
fn encode_block(vertices: &[u8], vs: usize, start: usize, len: usize, base: usize, out: &mut Vec<u8>)
    requires
        valid_vertex_size(vs as int),
        1 <= len <= 256,
        base == start * vs,
        base + len * vs <= vertices.len(),
    ensures
        final(out)@ == old(out)@ + enc_block(
            vertices@,
            vs as int,
            start as int,
            len as int,
            vs as int,
        ),
{
    let mut k: usize = 0;
    while k < vs
        invariant
            k <= vs,
            valid_vertex_size(vs as int),
            1 <= len <= 256,
            base == start * vs,
            base + len * vs <= vertices.len(),
            out@ == old(out)@ + enc_block(vertices@, vs as int, start as int, len as int, k as int),
        decreases vs - k,
    {
        let deltas = block_plane(vertices, vs, start, len, base, k);
        let ghost before = out@;
        write_plane(deltas.as_slice(), out);
        assert(out@ =~= old(out)@ + enc_block(
            vertices@,
            vs as int,
            start as int,
            len as int,
            k + 1,
        ));
        k = k + 1;
    }
}

/// Reads the block of `len` records that starts at `pos` and appends the
/// records to `out`. `prev` holds the record before the block's first, and
/// the block's last record afterwards. Returns the position behind the block,
/// or nothing where the stream is too short for one of its planes.
fn decode_block(
    s: &[u8],
    pos: usize,
    vs: usize,
    len: usize,
    prev: &mut Vec<u8>,
    out: &mut Vec<u8>,
) -> (r: Option<usize>)
    requires
        1 <= vs,
        1 <= len <= 256,
        pos <= s.len(),
        old(prev)@.len() == vs,
    ensures
        match r {
            Some(end) => {
                &&& end == block_end(s@, pos as int, vs as int, groups_for(len as int))
                &&& end <= s.len()
                &&& final(prev)@ == block_row(
                    s@,
                    pos as int,
                    vs as int,
                    groups_for(len as int),
                    old(prev)@,
                    len - 1,
                )
                &&& final(out)@ == old(out)@ + block_rows(
                    s@,
                    pos as int,
                    vs as int,
                    groups_for(len as int),
                    old(prev)@,
                    len as int,
                )
            },
            None => block_end(s@, pos as int, vs as int, groups_for(len as int)) > s.len() - 24,
        },
{
    let groups: usize = (len + 15) / 16;
    let mut planes: Vec<Vec<u8>> = Vec::new();
    let mut hp: usize = pos;
    let mut k: usize = 0;
    while k < vs
        invariant
            k <= vs,
            1 <= vs,
            1 <= len <= 256,
            groups == groups_for(len as int),
            hp <= s.len(),
            hp == plane_pos(s@, pos as int, groups as int, k as int),
            planes@.len() == k,
            forall|j: int|
                0 <= j < k ==> (#[trigger] planes@[j])@ == plane_values(
                    s@,
                    plane_pos(s@, pos as int, groups as int, j),
                    groups as int,
                    groups as int,
                ),
        decreases vs - k,
    {
        let mut values: Vec<u8> = Vec::new();
        match read_plane(s, hp, groups, &mut values) {
            Some(end) => {
                assert(values@ =~= plane_values(s@, hp as int, groups as int, groups as int));
                planes.push(values);
                hp = end;
            },
            None => {
                proof {
                    lemma_plane_pos_monotone(s@, pos as int, groups as int, k + 1, vs as int);
                }
                return None;
            },
        }
        k = k + 1;
    }
    let mut i: usize = 0;
    while i < len
        invariant
            i <= len,
            1 <= vs,
            1 <= len <= 256,
            groups == groups_for(len as int),
            planes@.len() == vs,
            forall|j: int|
                0 <= j < vs ==> (#[trigger] planes@[j])@ == plane_values(
                    s@,
                    plane_pos(s@, pos as int, groups as int, j),
                    groups as int,
                    groups as int,
                ),
            old(prev)@.len() == vs,
            prev@ == block_row(s@, pos as int, vs as int, groups as int, old(prev)@, i - 1),
            prev@.len() == vs,
            out@ == old(out)@ + block_rows(
                s@,
                pos as int,
                vs as int,
                groups as int,
                old(prev)@,
                i as int,
            ),
        decreases len - i,
    {
        let ghost want = block_row(s@, pos as int, vs as int, groups as int, old(prev)@, i as int);
        let mut row: Vec<u8> = Vec::new();
        let mut k: usize = 0;
        while k < vs
            invariant
                k <= vs,
                i < len,
                1 <= vs,
                1 <= len <= 256,
                groups == groups_for(len as int),
                planes@.len() == vs,
                forall|j: int|
                    0 <= j < vs ==> (#[trigger] planes@[j])@ == plane_values(
                        s@,
                        plane_pos(s@, pos as int, groups as int, j),
                        groups as int,
                        groups as int,
                    ),
                prev@ == block_row(s@, pos as int, vs as int, groups as int, old(prev)@, i - 1),
                prev@.len() == vs,
                want == block_row(s@, pos as int, vs as int, groups as int, old(prev)@, i as int),
                row@ == want.take(k as int),
            decreases vs - k,
        {
            proof {
                crate::vertex_plane::lemma_plane_values_len(
                    s@,
                    plane_pos(s@, pos as int, groups as int, k as int),
                    groups as int,
                    groups as int,
                );
                assert(planes@[k as int]@.len() == 16 * groups);
            }
            let d: u8 = planes[k][i];
            assert(d == block_delta(s@, pos as int, groups as int, i as int, k as int));
            row.push(unfold_delta(prev[k], d));
            assert(row@ =~= want.take(k + 1));
            k = k + 1;
        }
        assert(want.take(vs as int) =~= want);
        let ghost before = out@;
        let mut k: usize = 0;
        while k < vs
            invariant
                k <= vs,
                row@.len() == vs,
                out@ == before + row@.take(k as int),
            decreases vs - k,
        {
            out.push(row[k]);
            assert(out@ =~= before + row@.take(k + 1));
            k = k + 1;
        }
        assert(row@.take(vs as int) =~= row@);
        *prev = row;
        i = i + 1;
    }
    Some(hp)
}

/// Encodes a buffer of records of `vertex_size` bytes each.
///
/// Records of any size of at least one byte are taken, and nothing is read
/// into them. The buffer must hold whole records; a buffer that does not, and
/// a record size of 0, are refused. Every other buffer encodes, to the bytes
/// that [`encode_vertex_spec`] gives.
pub fn encode_vertex_buffer(vertices: &[u8], vertex_size: usize) -> (r: Result<Vec<u8>, Error>)
    ensures
        match r {
            Ok(bytes) => {
                &&& valid_vertex_buffer(vertices@, vertex_size as int)
                &&& bytes@ == encode_vertex_spec(vertices@, vertex_size as int)
                &&& bytes@[0] == VERTEX_HEADER
                &&& 1 + tail_size(vertex_size as int) <= bytes@.len() <= vertex_bound_spec(
                    vertices@.len() as int / vertex_size as int,
                    vertex_size as int,
                )
            },
            Err(e) => e == Error::PreconditionViolation && !valid_vertex_buffer(
                vertices@,
                vertex_size as int,
            ),
        },
{
    if vertex_size == 0 || vertices.len() % vertex_size != 0 {
        return Err(Error::PreconditionViolation);
    }
    let vs: usize = vertex_size;
    let n: usize = vertices.len() / vs;
    let block: usize = vertex_block_size(vs);
    proof {
        vstd::arithmetic::div_mod::lemma_fundamental_div_mod(vertices@.len() as int, vs as int);
        assert(n * vs == vs * n) by (nonlinear_arith);
    }
    let mut out: Vec<u8> = Vec::new();
    out.push(VERTEX_HEADER);
    let mut start: usize = 0;
    let mut base: usize = 0;
    while start < n
        invariant
            start <= n,
            valid_vertex_size(vs as int),
            n * vs == vertices.len(),
            block == block_size(vs as int),
            16 <= block <= 256,
            base == start * vs,
            out@ + enc_blocks(vertices@, n as int, vs as int, start as int) == seq![VERTEX_HEADER]
                + enc_blocks(vertices@, n as int, vs as int, 0),
        decreases n - start,
    {
        let len: usize = if n - start < block {
            n - start
        } else {
            block
        };
        proof {
            assert(start * vs + len * vs == (start + len) * vs) by (nonlinear_arith);
            assert((start + len) * vs <= n * vs) by (nonlinear_arith)
                requires
                    start + len <= n,
            ;
        }
        let ghost before = out@;
        encode_block(vertices, vs, start, len, base, &mut out);
        proof {
            let rest = enc_blocks(vertices@, n as int, vs as int, start + len);
            let this = enc_block(vertices@, vs as int, start as int, len as int, vs as int);
            assert(enc_blocks(vertices@, n as int, vs as int, start as int) == this + rest);
            assert(out@ + rest =~= before + (this + rest));
        }
        base = base + len * vs;
        start = start + len;
    }
    let tail: usize = if vs < 32 {
        32
    } else {
        vs
    };
    let ghost blocks = out@;
    assert(blocks =~= seq![VERTEX_HEADER] + enc_blocks(vertices@, n as int, vs as int, 0));
    let mut x: usize = 0;
    while x < tail
        invariant
            x <= tail,
            tail == tail_size(vs as int),
            valid_vertex_size(vs as int),
            n * vs == vertices.len(),
            out@ == blocks + enc_tail(vertices@, vs as int).take(x as int),
        decreases tail - x,
    {
        let byte: u8 = if x >= tail - vs && n > 0 {
            proof {
                assert(vs <= n * vs) by (nonlinear_arith)
                    requires
                        n >= 1,
                        vs >= 0,
                ;
            }
            vertices[x - (tail - vs)]
        } else {
            0
        };
        proof {
            if n == 0 {
                assert(vertices@.len() == 0);
            } else {
                assert(vs <= n * vs) by (nonlinear_arith)
                    requires
                        n >= 1,
                        vs >= 0,
                ;
            }
        }
        out.push(byte);
        assert(out@ =~= blocks + enc_tail(vertices@, vs as int).take(x + 1));
        x = x + 1;
    }
    assert(enc_tail(vertices@, vs as int).take(tail as int) =~= enc_tail(vertices@, vs as int));
    proof {
        crate::vertex_laws::lemma_vertex_encode_len(vertices@, vs as int);
        crate::vertex_laws::lemma_vertex_bound(vertices@, vs as int);
    }
    Ok(out)
}

/// Decodes `vertex_count` records of `vertex_size` bytes each from `encoded`.
///
/// The result is exactly what [`decode_vertex_result`] gives: the bytes of the
/// records of a well-formed stream, or the reason why the bytes are none. No
/// byte outside `encoded` is read, whatever the bytes are.
pub fn decode_vertex_buffer(encoded: &[u8], vertex_count: usize, vertex_size: usize) -> (r: Result<
    Vec<u8>,
    Error,
>)
    ensures
        match r {
            Ok(v) => decode_vertex_result(encoded@, vertex_count as int, vertex_size as int)
                == Ok::<Seq<u8>, Error>(v@),
            Err(e) => decode_vertex_result(encoded@, vertex_count as int, vertex_size as int)
                == Err::<Seq<u8>, Error>(e),
        },
{
    if vertex_size == 0 {
        return Err(Error::PreconditionViolation);
    }
    let vs: usize = vertex_size;
    let n: usize = vertex_count;
    let total: usize = encoded.len();
    if total <= vs {
        return Err(Error::TruncatedInput);
    }
    if encoded[0] != VERTEX_HEADER {
        return Err(Error::FormatError);
    }
    let block: usize = vertex_block_size(vs);
    let tail: usize = if vs < 32 {
        32
    } else {
        vs
    };
    let mut prev: Vec<u8> = Vec::new();
    let mut k: usize = 0;
    while k < vs
        invariant
            k <= vs,
            total == encoded.len(),
            total >= 1 + vs,
            prev@ == stream_tail(encoded@, vs as int).take(k as int),
        decreases vs - k,
    {
        prev.push(encoded[total - vs + k]);
        assert(prev@ =~= stream_tail(encoded@, vs as int).take(k + 1));
        k = k + 1;
    }
    assert(stream_tail(encoded@, vs as int).take(vs as int) =~= stream_tail(encoded@, vs as int));
    let ghost first = prev@;
    let ghost s = encoded@;
    let mut out: Vec<u8> = Vec::new();
    let mut start: usize = 0;
    let mut pos: usize = 1;
    while start < n
        invariant
            start <= n,
            valid_vertex_size(vs as int),
            s == encoded@,
            total == encoded.len(),
            block == block_size(vs as int),
            16 <= block <= 256,
            pos <= total,
            total >= 1 + vs,
            n == vertex_count,
            vs == vertex_size,
            s[0] == VERTEX_HEADER,
            tail == tail_size(vs as int),
            prev@.len() == vs,
            stream_end(s, n as int, vs as int, start as int, pos as int) == stream_end(
                s,
                n as int,
                vs as int,
                0,
                1,
            ),
            out@ + stream_bytes(s, n as int, vs as int, start as int, pos as int, prev@)
                == stream_bytes(s, n as int, vs as int, 0, 1, first),
        decreases n - start,
    {
        let len: usize = if n - start < block {
            n - start
        } else {
            block
        };
        let ghost before = out@;
        let ghost prev0 = prev@;
        let ghost groups = groups_for(len as int);
        match decode_block(encoded, pos, vs, len, &mut prev, &mut out) {
            Some(end) => {
                proof {
                    let rest = stream_bytes(s, n as int, vs as int, start + len, end as int, prev@);
                    let this = block_rows(s, pos as int, vs as int, groups, prev0, len as int);
                    assert(stream_bytes(s, n as int, vs as int, start as int, pos as int, prev0)
                        == this + rest);
                    assert(out@ + rest =~= before + (this + rest));
                    lemma_block_rows_len(s, pos as int, vs as int, groups, prev0, len as int);
                }
                pos = end;
            },
            None => {
                proof {
                    assert(block_len(n as int, vs as int, start as int) == len);
                    assert(stream_end(s, n as int, vs as int, start as int, pos as int)
                        == stream_end(
                        s,
                        n as int,
                        vs as int,
                        start + len,
                        block_end(s, pos as int, vs as int, groups),
                    ));
                    lemma_stream_end_monotone(
                        s,
                        n as int,
                        vs as int,
                        start + len,
                        block_end(s, pos as int, vs as int, groups),
                    );
                }
                return Err(Error::TruncatedInput);
            },
        }
        start = start + len;
    }
    let left: usize = total - pos;
    if left < tail {
        return Err(Error::TruncatedInput);
    }
    if left > tail {
        return Err(Error::TrailingBytes);
    }
    assert(out@ =~= stream_bytes(s, n as int, vs as int, 0, 1, first));
    Ok(out)
}

/// The most bytes that [`encode_vertex_buffer`] returns for `vertex_count`
/// records of `vertex_size` bytes; `usize::MAX` where that number does not
/// fit.
pub fn encode_vertex_buffer_bound(vertex_count: usize, vertex_size: usize) -> (r: usize)
    ensures
        r == if vertex_bound_spec(vertex_count as int, vertex_size as int) <= usize::MAX {
            vertex_bound_spec(vertex_count as int, vertex_size as int)
        } else {
            usize::MAX as int
        },
{
    let block: usize = vertex_block_size(vertex_size);
    let whole: usize = vertex_count / block;
    proof {
        vstd::arithmetic::div_mod::lemma_fundamental_div_mod(vertex_count as int, block as int);
        assert(16 * whole <= block * whole) by (nonlinear_arith)
            requires
                block >= 16,
                whole >= 0,
        ;
    }
    let blocks: usize = whole + if vertex_count % block != 0 {
        1usize
    } else {
        0usize
    };
    assert(blocks == block_count(vertex_count as int, vertex_size as int));
    let per_plane: usize = (block / 16 + 3) / 4 + block;
    let tail: usize = if vertex_size < 32 {
        32
    } else {
        vertex_size
    };
    let ghost exact = vertex_bound_spec(vertex_count as int, vertex_size as int);
    assert(exact == 1 + blocks * vertex_size * per_plane + tail);
    match blocks.checked_mul(vertex_size) {
        Some(planes) => match planes.checked_mul(per_plane) {
            Some(body) => match body.checked_add(tail) {
                Some(most) => match most.checked_add(1) {
                    Some(all) => all,
                    None => usize::MAX,
                },
                None => usize::MAX,
            },
            None => usize::MAX,
        },
        None => {
            assert(blocks * vertex_size * per_plane >= blocks * vertex_size) by (nonlinear_arith)
                requires
                    blocks * vertex_size >= 0,
                    per_plane >= 1,
            ;
            usize::MAX
        },
    }
}

} // verus!
