//! Groups of sixteen bytes, as the vertex codec packs them.
//!
//! A group is written in one of four ways, named by a code from 0 to 3: not at
//! all when every byte is 0; in fields of two bits; in fields of four bits; or
//! as it is. A field that is all ones is an escape: the byte is then written
//! in full behind the fields of the group, in the order of the escapes.

use vstd::prelude::*;

verus! {

/// How many bytes a group holds.
pub const GROUP_SIZE: usize = 16;

/// The most bytes that a reader takes for one group.
pub const GROUP_LIMIT: usize = 24;

/// Folds a signed byte difference: 0, -1, 1, -2, ... become 0, 1, 2, 3, ...
pub open spec fn zigzag8(v: u8) -> u8 {
    if v < 128 {
        (2 * v) as u8
    } else {
        (511 - 2 * v) as u8
    }
}

/// The inverse of [`zigzag8`].
pub open spec fn unzigzag8(v: u8) -> u8 {
    if v % 2 == 0 {
        v / 2
    } else {
        (255 - v / 2) as u8
    }
}

/// The difference `v - last` modulo 256, folded.
pub open spec fn byte_delta(v: u8, last: u8) -> u8 {
    zigzag8(vstd::wrapping::u8_specs::wrapping_sub(v, last))
}

/// The byte that the folded difference `d` leads to from `last`.
pub open spec fn apply_byte_delta(last: u8, d: u8) -> u8 {
    vstd::wrapping::u8_specs::wrapping_add(last, unzigzag8(d))
}

/// A folded difference applied to the byte it was taken from gives the byte
/// back.
pub proof fn lemma_byte_delta_round_trip(v: u8, last: u8)
    ensures
        apply_byte_delta(last, byte_delta(v, last)) == v,
        byte_delta(v, v) == 0,
{
}

/// The escape of a code: the largest value of its fields.
pub open spec fn sentinel(code: int) -> int {
    if code == 1 {
        3
    } else {
        15
    }
}

/// How many bytes the fields of a group take.
pub open spec fn fixed_size(code: int) -> int {
    if code == 0 {
        0
    } else if code == 1 {
        4
    } else if code == 2 {
        8
    } else {
        16
    }
}

/// The field of two bits at place `slot` of a byte; place 0 is the highest.
pub open spec fn quarter(byte: int, slot: int) -> int {
    if slot == 0 {
        byte / 64
    } else if slot == 1 {
        (byte / 16) % 4
    } else if slot == 2 {
        (byte / 4) % 4
    } else {
        byte % 4
    }
}

/// The field of four bits at place `slot` of a byte; place 0 is the higher.
pub open spec fn nibble(byte: int, slot: int) -> int {
    if slot == 0 {
        byte / 16
    } else {
        byte % 16
    }
}

/// The `i`-th field of a group with the code 1 or 2 that starts at `pos`.
pub open spec fn group_field(code: int, s: Seq<u8>, pos: int, i: int) -> int {
    if code == 1 {
        quarter(s[pos + i / 4] as int, i % 4)
    } else {
        nibble(s[pos + i / 2] as int, i % 2)
    }
}

/// How many of the first `i` fields of a group are escapes.
pub open spec fn escapes(code: int, s: Seq<u8>, pos: int, i: int) -> int
    decreases i,
{
    if i <= 0 {
        0
    } else {
        escapes(code, s, pos, i - 1) + if group_field(code, s, pos, i - 1) == sentinel(code) {
            1int
        } else {
            0int
        }
    }
}

/// How many bytes a reader takes for the group with the code `code` at `pos`.
pub open spec fn group_size(code: int, s: Seq<u8>, pos: int) -> int {
    if code == 0 {
        0
    } else if code == 3 {
        16
    } else {
        fixed_size(code) + escapes(code, s, pos, 16)
    }
}

/// The `i`-th byte of the group with the code `code` at `pos`.
pub open spec fn group_value(code: int, s: Seq<u8>, pos: int, i: int) -> u8 {
    if code == 0 {
        0
    } else if code == 3 {
        s[pos + i]
    } else if group_field(code, s, pos, i) == sentinel(code) {
        s[pos + fixed_size(code) + escapes(code, s, pos, i)]
    } else {
        group_field(code, s, pos, i) as u8
    }
}

/// The sixteen bytes of the group with the code `code` at `pos`.
pub open spec fn group_values(code: int, s: Seq<u8>, pos: int) -> Seq<u8> {
    Seq::new(16, |i: int| group_value(code, s, pos, i))
}

/// How many of the first `i` bytes of `v` are `t` or more.
pub open spec fn count_ge(v: Seq<u8>, t: int, i: int) -> int
    decreases i,
{
    if i <= 0 {
        0
    } else {
        count_ge(v, t, i - 1) + if v[i - 1] >= t {
            1int
        } else {
            0int
        }
    }
}

/// Those of the first `i` bytes of `v` that are `t` or more, in their order.
pub open spec fn escaped_bytes(v: Seq<u8>, t: int, i: int) -> Seq<u8>
    decreases i,
{
    if i <= 0 {
        Seq::<u8>::empty()
    } else if v[i - 1] >= t {
        escaped_bytes(v, t, i - 1).push(v[i - 1])
    } else {
        escaped_bytes(v, t, i - 1)
    }
}

/// The code that the writer picks for the sixteen bytes `v`: the way that
/// takes the fewest bytes; among equals, the raw way first, then the way of
/// narrower fields.
pub open spec fn best_code(v: Seq<u8>) -> int {
    let s2 = 4 + count_ge(v, 3, 16);
    let s4 = 8 + count_ge(v, 15, 16);
    if count_ge(v, 1, 16) == 0 {
        0
    } else if s2 < 16 {
        if s4 < s2 {
            2
        } else {
            1
        }
    } else if s4 < 16 {
        2
    } else {
        3
    }
}

/// `x`, or `t` if `x` is larger.
pub open spec fn capped(x: u8, t: int) -> int {
    if x >= t {
        t
    } else {
        x as int
    }
}

/// The fields of the sixteen bytes `v`, written with the code 1 or 2.
pub open spec fn fixed_bytes(code: int, v: Seq<u8>) -> Seq<u8> {
    if code == 1 {
        Seq::new(
            4,
            |j: int|
                (64 * capped(v[4 * j], 3) + 16 * capped(v[4 * j + 1], 3) + 4 * capped(
                    v[4 * j + 2],
                    3,
                ) + capped(v[4 * j + 3], 3)) as u8,
        )
    } else {
        Seq::new(8, |j: int| (16 * capped(v[2 * j], 15) + capped(v[2 * j + 1], 15)) as u8)
    }
}

/// The bytes that the writer makes of the sixteen bytes `v` with the code
/// `code`.
pub open spec fn group_bytes(code: int, v: Seq<u8>) -> Seq<u8> {
    if code == 0 {
        Seq::<u8>::empty()
    } else if code == 3 {
        v
    } else {
        fixed_bytes(code, v) + escaped_bytes(v, sentinel(code), 16)
    }
}

/// There are as many escaped bytes as bytes that reach the escape, and never
/// more than bytes looked at.
pub proof fn lemma_escaped_len(v: Seq<u8>, t: int, i: int)
    requires
        0 <= i,
    ensures
        escaped_bytes(v, t, i).len() == count_ge(v, t, i),
        0 <= count_ge(v, t, i) <= i,
    decreases i,
{
    if i > 0 {
        lemma_escaped_len(v, t, i - 1);
    }
}

/// The escaped bytes of the first `i` bytes stay in front when more bytes are
/// looked at.
pub proof fn lemma_escaped_prefix(v: Seq<u8>, t: int, i: int, j: int)
    requires
        0 <= i <= j,
    ensures
        count_ge(v, t, i) <= count_ge(v, t, j),
        escaped_bytes(v, t, j).subrange(0, count_ge(v, t, i)) == escaped_bytes(v, t, i),
    decreases j,
{
    lemma_escaped_len(v, t, i);
    lemma_escaped_len(v, t, j);
    if i < j {
        lemma_escaped_prefix(v, t, i, j - 1);
        lemma_escaped_len(v, t, j - 1);
        assert(escaped_bytes(v, t, j).subrange(0, count_ge(v, t, i)) =~= escaped_bytes(
            v,
            t,
            j - 1,
        ).subrange(0, count_ge(v, t, i)));
    } else {
        assert(escaped_bytes(v, t, j).subrange(0, count_ge(v, t, i)) =~= escaped_bytes(v, t, i));
    }
}

/// The byte at place `i`, if it reaches the escape, is the escaped byte whose
/// number is the count of escapes in front of `i`.
pub proof fn lemma_escaped_at(v: Seq<u8>, t: int, i: int)
    requires
        0 <= i < 16,
        v[i] >= t,
    ensures
        0 <= count_ge(v, t, i) < count_ge(v, t, 16),
        escaped_bytes(v, t, 16)[count_ge(v, t, i)] == v[i],
{
    lemma_escaped_prefix(v, t, i + 1, 16);
    lemma_escaped_len(v, t, i);
    lemma_escaped_len(v, t, i + 1);
    lemma_escaped_len(v, t, 16);
    let e = escaped_bytes(v, t, 16);
    assert(count_ge(v, t, i + 1) == count_ge(v, t, i) + 1);
    assert(escaped_bytes(v, t, i + 1) == escaped_bytes(v, t, i).push(v[i]));
    assert(e.subrange(0, count_ge(v, t, i + 1))[count_ge(v, t, i)] == e[count_ge(v, t, i)]);
}

/// The way that the writer picks takes at most sixteen bytes.
pub proof fn lemma_group_bytes_len(v: Seq<u8>)
    requires
        v.len() == 16,
    ensures
        0 <= best_code(v) <= 3,
        group_bytes(best_code(v), v).len() <= 16,
        group_bytes(best_code(v), v).len() == if best_code(v) == 0 {
            0
        } else if best_code(v) == 3 {
            16
        } else {
            fixed_size(best_code(v)) + count_ge(v, sentinel(best_code(v)), 16)
        },
{
    lemma_escaped_len(v, 3, 16);
    lemma_escaped_len(v, 15, 16);
}

/// Where no byte of a group is 1 or more, every byte is 0.
pub proof fn lemma_all_zero(v: Seq<u8>, i: int, k: int)
    requires
        0 <= k < i,
        count_ge(v, 1, i) == 0,
    ensures
        v[k] == 0,
    decreases i,
{
    lemma_escaped_len(v, 1, i - 1);
    if k < i - 1 {
        lemma_all_zero(v, i - 1, k);
    }
}

/// Four fields of two bits, packed and taken apart again.
pub proof fn lemma_quarters(a: int, b: int, c: int, d: int)
    requires
        0 <= a <= 3,
        0 <= b <= 3,
        0 <= c <= 3,
        0 <= d <= 3,
    ensures
        0 <= 64 * a + 16 * b + 4 * c + d <= 255,
        quarter(64 * a + 16 * b + 4 * c + d, 0) == a,
        quarter(64 * a + 16 * b + 4 * c + d, 1) == b,
        quarter(64 * a + 16 * b + 4 * c + d, 2) == c,
        quarter(64 * a + 16 * b + 4 * c + d, 3) == d,
{
}

/// Two fields of four bits, packed and taken apart again.
pub proof fn lemma_nibbles(a: int, b: int)
    requires
        0 <= a <= 15,
        0 <= b <= 15,
    ensures
        0 <= 16 * a + b <= 255,
        nibble(16 * a + b, 0) == a,
        nibble(16 * a + b, 1) == b,
{
}

/// The fields that a reader finds are the bytes of the group, capped at the
/// escape.
pub proof fn lemma_group_field(code: int, v: Seq<u8>, s: Seq<u8>, pos: int, i: int)
    requires
        code == 1 || code == 2,
        v.len() == 16,
        0 <= i < 16,
        0 <= pos,
        pos + fixed_size(code) <= s.len(),
        s.subrange(pos, pos + fixed_size(code)) == fixed_bytes(code, v),
    ensures
        group_field(code, s, pos, i) == capped(v[i], sentinel(code)),
{
    let f = fixed_bytes(code, v);
    let w = s.subrange(pos, pos + fixed_size(code));
    if code == 1 {
        let j = i / 4;
        let r = i % 4;
        assert(i == 4 * j + r);
        assert(w[j] == f[j]);
        assert(s[pos + j] == f[j]);
        let a = capped(v[4 * j], 3);
        let b = capped(v[4 * j + 1], 3);
        let c = capped(v[4 * j + 2], 3);
        let d = capped(v[4 * j + 3], 3);
        lemma_quarters(a, b, c, d);
        assert(f[j] as int == 64 * a + 16 * b + 4 * c + d);
        assert(group_field(code, s, pos, i) == quarter(f[j] as int, r));
    } else {
        let j = i / 2;
        let r = i % 2;
        assert(i == 2 * j + r);
        assert(w[j] == f[j]);
        assert(s[pos + j] == f[j]);
        let a = capped(v[2 * j], 15);
        let b = capped(v[2 * j + 1], 15);
        lemma_nibbles(a, b);
        assert(f[j] as int == 16 * a + b);
        assert(group_field(code, s, pos, i) == nibble(f[j] as int, r));
    }
}

/// The escapes that a reader counts are the bytes that reach the escape.
pub proof fn lemma_escapes(code: int, v: Seq<u8>, s: Seq<u8>, pos: int, i: int)
    requires
        code == 1 || code == 2,
        v.len() == 16,
        0 <= i <= 16,
        0 <= pos,
        pos + fixed_size(code) <= s.len(),
        s.subrange(pos, pos + fixed_size(code)) == fixed_bytes(code, v),
    ensures
        escapes(code, s, pos, i) == count_ge(v, sentinel(code), i),
    decreases i,
{
    if i > 0 {
        lemma_escapes(code, v, s, pos, i - 1);
        lemma_group_field(code, v, s, pos, i - 1);
    }
}

/// A group is read back as written: the reader takes the bytes that the
/// writer made and finds the sixteen bytes of the group.
pub proof fn lemma_group_round_trip(v: Seq<u8>, s: Seq<u8>, pos: int)
    requires
        v.len() == 16,
        0 <= pos,
        pos + group_bytes(best_code(v), v).len() <= s.len(),
        s.subrange(pos, pos + group_bytes(best_code(v), v).len()) == group_bytes(best_code(v), v),
    ensures
        group_size(best_code(v), s, pos) == group_bytes(best_code(v), v).len(),
        group_values(best_code(v), s, pos) == v,
{
    let code = best_code(v);
    let bytes = group_bytes(code, v);
    let w = s.subrange(pos, pos + bytes.len());
    lemma_group_bytes_len(v);
    if code == 0 {
        assert forall|i: int| 0 <= i < 16 implies v[i] == 0 by {
            lemma_all_zero(v, 16, i);
        }
        assert(group_values(code, s, pos) =~= v);
    } else if code == 3 {
        assert forall|i: int| 0 <= i < 16 implies s[pos + i] == v[i] by {
            assert(w[i] == v[i]);
        }
        assert(group_values(code, s, pos) =~= v);
    } else {
        let t = sentinel(code);
        let fixed = fixed_bytes(code, v);
        let esc = escaped_bytes(v, t, 16);
        lemma_escaped_len(v, t, 16);
        assert(s.subrange(pos, pos + fixed_size(code)) =~= fixed) by {
            assert forall|x: int| 0 <= x < fixed_size(code) implies s[pos + x] == fixed[x] by {
                assert(w[x] == bytes[x]);
            }
        }
        lemma_escapes(code, v, s, pos, 16);
        assert forall|i: int| 0 <= i < 16 implies group_value(code, s, pos, i) == v[i] by {
            lemma_group_field(code, v, s, pos, i);
            lemma_escapes(code, v, s, pos, i);
            if v[i] >= t {
                lemma_escaped_at(v, t, i);
                let x = count_ge(v, t, i);
                assert(w[fixed_size(code) + x] == bytes[fixed_size(code) + x]);
                assert(bytes[fixed_size(code) + x] == esc[x]);
            }
        }
        assert(group_values(code, s, pos) =~= v);
    }
}

/// A reader takes at most twenty-four bytes for a group, whatever the bytes.
pub proof fn lemma_group_size_bounds(code: int, s: Seq<u8>, pos: int)
    requires
        0 <= code <= 3,
    ensures
        0 <= group_size(code, s, pos) <= 24,
{
    lemma_escapes_bounds(code, s, pos, 16);
}

/// No more fields are escapes than fields were looked at.
pub proof fn lemma_escapes_bounds(code: int, s: Seq<u8>, pos: int, i: int)
    requires
        0 <= i,
    ensures
        0 <= escapes(code, s, pos, i) <= i,
    decreases i,
{
    if i > 0 {
        lemma_escapes_bounds(code, s, pos, i - 1);
    }
}

/// `x`, or `t` if `x` is larger.
fn cap(x: u8, t: u8) -> (r: u8)
    ensures
        r == capped(x, t as int),
{
    if x >= t {
        t
    } else {
        x
    }
}

/// Picks the code for the sixteen bytes of `v` that start at `at`.
pub fn measure_group(v: &[u8], at: usize) -> (code: u8)
    requires
        at + 16 <= v.len(),
    ensures
        code == best_code(v@.subrange(at as int, at + 16)),
{
    let ghost g = v@.subrange(at as int, at + 16);
    let mut nonzero: usize = 0;
    let mut wide: usize = 0;
    let mut full: usize = 0;
    let mut i: usize = 0;
    while i < 16
        invariant
            i <= 16,
            at + 16 <= v.len(),
            g == v@.subrange(at as int, at + 16),
            nonzero == count_ge(g, 1, i as int),
            wide == count_ge(g, 3, i as int),
            full == count_ge(g, 15, i as int),
            nonzero <= i,
            wide <= i,
            full <= i,
        decreases 16 - i,
    {
        let x: u8 = v[at + i];
        assert(x == g[i as int]);
        if x >= 1 {
            nonzero = nonzero + 1;
        }
        if x >= 3 {
            wide = wide + 1;
        }
        if x >= 15 {
            full = full + 1;
        }
        i = i + 1;
    }
    let s2: usize = 4 + wide;
    let s4: usize = 8 + full;
    if nonzero == 0 {
        0
    } else if s2 < 16 {
        if s4 < s2 {
            2
        } else {
            1
        }
    } else if s4 < 16 {
        2
    } else {
        3
    }
}

/// Appends to `out` the sixteen bytes of `v` that start at `at`, written
/// with the code `code`.
pub fn write_group(v: &[u8], at: usize, code: u8, out: &mut Vec<u8>)
    requires
        at + 16 <= v.len(),
        code <= 3,
    ensures
        final(out)@ == old(out)@ + group_bytes(code as int, v@.subrange(at as int, at + 16)),
{
    let ghost g = v@.subrange(at as int, at + 16);
    if code == 0 {
        assert(out@ =~= old(out)@ + group_bytes(code as int, g));
        return ;
    }
    if code == 3 {
        let mut i: usize = 0;
        while i < 16
            invariant
                i <= 16,
                at + 16 <= v.len(),
                g == v@.subrange(at as int, at + 16),
                out@ == old(out)@ + g.take(i as int),
            decreases 16 - i,
        {
            out.push(v[at + i]);
            assert(out@ =~= old(out)@ + g.take(i + 1));
            i = i + 1;
        }
        assert(g.take(16) =~= g);
        return ;
    }
    let ghost fixed = fixed_bytes(code as int, g);
    let t: u8 = if code == 1 {
        3
    } else {
        15
    };
    if code == 1 {
        let mut j: usize = 0;
        while j < 4
            invariant
                j <= 4,
                at + 16 <= v.len(),
                g == v@.subrange(at as int, at + 16),
                fixed == fixed_bytes(1, g),
                out@ == old(out)@ + fixed.take(j as int),
            decreases 4 - j,
        {
            let a: u8 = cap(v[at + 4 * j], 3);
            let b: u8 = cap(v[at + 4 * j + 1], 3);
            let c: u8 = cap(v[at + 4 * j + 2], 3);
            let d: u8 = cap(v[at + 4 * j + 3], 3);
            assert(v@[at + 4 * j] == g[4 * j] && v@[at + 4 * j + 1] == g[4 * j + 1] && v@[at + 4
                * j + 2] == g[4 * j + 2] && v@[at + 4 * j + 3] == g[4 * j + 3]);
            out.push(64 * a + 16 * b + 4 * c + d);
            assert(out@ =~= old(out)@ + fixed.take(j + 1));
            j = j + 1;
        }
        assert(fixed.take(4) =~= fixed);
    } else {
        let mut j: usize = 0;
        while j < 8
            invariant
                j <= 8,
                at + 16 <= v.len(),
                g == v@.subrange(at as int, at + 16),
                fixed == fixed_bytes(2, g),
                out@ == old(out)@ + fixed.take(j as int),
            decreases 8 - j,
        {
            let a: u8 = cap(v[at + 2 * j], 15);
            let b: u8 = cap(v[at + 2 * j + 1], 15);
            assert(v@[at + 2 * j] == g[2 * j] && v@[at + 2 * j + 1] == g[2 * j + 1]);
            out.push(16 * a + b);
            assert(out@ =~= old(out)@ + fixed.take(j + 1));
            j = j + 1;
        }
        assert(fixed.take(8) =~= fixed);
    }
    let mut i: usize = 0;
    while i < 16
        invariant
            i <= 16,
            at + 16 <= v.len(),
            g == v@.subrange(at as int, at + 16),
            out@ == old(out)@ + fixed + escaped_bytes(g, t as int, i as int),
        decreases 16 - i,
    {
        let x: u8 = v[at + i];
        assert(x == g[i as int]);
        if x >= t {
            out.push(x);
        }
        assert(out@ =~= old(out)@ + fixed + escaped_bytes(g, t as int, i + 1));
        i = i + 1;
    }
    assert(out@ =~= old(out)@ + (fixed + escaped_bytes(g, t as int, 16)));
}

/// Reads the group with the code `code` at `pos` of `s` and appends its
/// sixteen bytes to `values`; returns the position behind the group.
pub fn read_group(code: u8, s: &[u8], pos: usize, values: &mut Vec<u8>) -> (end: usize)
    requires
        code <= 3,
        pos + 24 <= s.len(),
    ensures
        end == pos + group_size(code as int, s@, pos as int),
        final(values)@ == old(values)@ + group_values(code as int, s@, pos as int),
{
    let ghost want = group_values(code as int, s@, pos as int);
    let fixed: usize = if code == 0 {
        0
    } else if code == 1 {
        4
    } else if code == 2 {
        8
    } else {
        16
    };
    let t: u8 = if code == 1 {
        3
    } else {
        15
    };
    let mut extra: usize = 0;
    let mut i: usize = 0;
    while i < 16
        invariant
            i <= 16,
            code <= 3,
            pos + 24 <= s.len(),
            fixed == fixed_size(code as int),
            t == sentinel(code as int),
            want == group_values(code as int, s@, pos as int),
            extra <= i,
            (code == 1 || code == 2) ==> extra == escapes(code as int, s@, pos as int, i as int),
            values@ == old(values)@ + want.take(i as int),
        decreases 16 - i,
    {
        let x: u8 = if code == 0 {
            0
        } else if code == 3 {
            s[pos + i]
        } else {
            let field: u8 = if code == 1 {
                let byte: u8 = s[pos + i / 4];
                let slot: usize = i % 4;
                if slot == 0 {
                    byte / 64
                } else if slot == 1 {
                    (byte / 16) % 4
                } else if slot == 2 {
                    (byte / 4) % 4
                } else {
                    byte % 4
                }
            } else {
                let byte: u8 = s[pos + i / 2];
                if i % 2 == 0 {
                    byte / 16
                } else {
                    byte % 16
                }
            };
            assert(field == group_field(code as int, s@, pos as int, i as int));
            if field == t {
                let y: u8 = s[pos + fixed + extra];
                extra = extra + 1;
                y
            } else {
                field
            }
        };
        assert(x == want[i as int]);
        values.push(x);
        assert(values@ =~= old(values)@ + want.take(i + 1));
        i = i + 1;
    }
    assert(want.take(16) =~= want);
    if code == 0 {
        pos
    } else if code == 3 {
        pos + 16
    } else {
        pos + fixed + extra
    }
}

} // verus!
