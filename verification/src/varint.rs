//! Variable-length integers and signed deltas, as the index codec stores them.
//!
//! An index that the codec cannot predict is written as its distance from the
//! previously written index. The distance is folded so that small distances in
//! either direction become small numbers, and the number is cut into groups of
//! seven bits, lowest group first, each but the last with its top bit set.

use vstd::prelude::*;

verus! {

/// Folds a two's-complement distance into an unsigned number: 0, -1, 1, -2, ...
/// become 0, 1, 2, 3, ...
pub open spec fn zigzag32(d: u32) -> u32 {
    if d < 0x8000_0000 {
        (2 * d) as u32
    } else {
        (2 * (0xffff_ffff - d) + 1) as u32
    }
}

/// The inverse of [`zigzag32`].
pub open spec fn unzigzag32(v: u32) -> u32 {
    if v % 2 == 0 {
        v / 2
    } else {
        (0xffff_ffff - v / 2) as u32
    }
}

/// The number written for `index` when the previously written index is `last`.
pub open spec fn index_delta(index: u32, last: u32) -> u32 {
    zigzag32(vstd::wrapping::u32_specs::wrapping_sub(index, last))
}

/// The index that the number `v` stands for when the previous index is `last`.
pub open spec fn apply_delta(last: u32, v: u32) -> u32 {
    vstd::wrapping::u32_specs::wrapping_add(last, unzigzag32(v))
}

/// How many bytes the groups of `v` take.
pub open spec fn vbyte_len(v: u32) -> nat {
    if v < 0x80 {
        1
    } else if v < 0x4000 {
        2
    } else if v < 0x20_0000 {
        3
    } else if v < 0x1000_0000 {
        4
    } else {
        5
    }
}

/// The bytes written for `v`.
pub open spec fn vbyte_encode(v: u32) -> Seq<u8>
    decreases v,
{
    if v < 128 {
        seq![v as u8]
    } else {
        seq![(v % 128 + 128) as u8] + vbyte_encode(v / 128)
    }
}

/// How many bytes a reader takes for the number that starts at `pos`: it stops
/// after the first byte below 128, and after five bytes at the latest.
pub open spec fn vbyte_size(s: Seq<u8>, pos: int) -> int {
    if s[pos] < 128 {
        1
    } else if s[pos + 1] < 128 {
        2
    } else if s[pos + 2] < 128 {
        3
    } else if s[pos + 3] < 128 {
        4
    } else {
        5
    }
}

/// The number that a reader finds at `pos`. Of a fifth byte only the low four
/// bits count: the rest would lie above bit 31.
pub open spec fn vbyte_value(s: Seq<u8>, pos: int) -> u32 {
    let g0 = s[pos] % 128;
    let g1 = s[pos + 1] % 128;
    let g2 = s[pos + 2] % 128;
    let g3 = s[pos + 3] % 128;
    let g4 = s[pos + 4] % 16;
    let n = vbyte_size(s, pos);
    if n == 1 {
        g0 as u32
    } else if n == 2 {
        (g0 + 0x80 * g1) as u32
    } else if n == 3 {
        (g0 + 0x80 * g1 + 0x4000 * g2) as u32
    } else if n == 4 {
        (g0 + 0x80 * g1 + 0x4000 * g2 + 0x20_0000 * g3) as u32
    } else {
        (g0 + 0x80 * g1 + 0x4000 * g2 + 0x20_0000 * g3 + 0x1000_0000 * g4) as u32
    }
}

/// Folding and unfolding a distance gives the distance back.
pub proof fn lemma_zigzag_round_trip(d: u32)
    ensures
        unzigzag32(zigzag32(d)) == d,
{
}

/// A delta applied to the index it was taken from gives the index back.
pub proof fn lemma_delta_round_trip(index: u32, last: u32)
    ensures
        apply_delta(last, index_delta(index, last)) == index,
{
    lemma_zigzag_round_trip(vstd::wrapping::u32_specs::wrapping_sub(index, last));
}

/// The written form of a number has the length that [`vbyte_len`] gives.
pub proof fn lemma_vbyte_encode_len(v: u32)
    ensures
        vbyte_encode(v).len() == vbyte_len(v),
        1 <= vbyte_len(v) <= 5,
{
    reveal_with_fuel(vbyte_encode, 6);
}

/// A reader that meets the written form of `v` at `pos` finds `v` and takes
/// exactly the bytes that were written.
pub proof fn lemma_vbyte_round_trip(s: Seq<u8>, pos: int, v: u32)
    requires
        0 <= pos,
        pos + vbyte_len(v) <= s.len(),
        s.subrange(pos, pos + vbyte_len(v)) == vbyte_encode(v),
    ensures
        vbyte_size(s, pos) == vbyte_len(v),
        vbyte_value(s, pos) == v,
{
    reveal_with_fuel(vbyte_encode, 6);
    let e = vbyte_encode(v);
    let w = s.subrange(pos, pos + vbyte_len(v));
    lemma_vbyte_encode_len(v);
    assert(forall|i: int| 0 <= i < e.len() ==> s[pos + i] == #[trigger] w[i]);
    assert(s[pos] == e[0]);
    if v >= 0x80 {
        assert(s[pos + 1] == e[1]);
        if v >= 0x4000 {
            assert(s[pos + 2] == e[2]);
            if v >= 0x20_0000 {
                assert(s[pos + 3] == e[3]);
                if v >= 0x1000_0000 {
                    assert(s[pos + 4] == e[4]);
                }
            }
        }
    }
}

/// Appends the written form of `v` to `out`.
pub fn write_vbyte(out: &mut Vec<u8>, v: u32)
    ensures
        final(out)@ == old(out)@ + vbyte_encode(v),
{
    let mut rest: u32 = v;
    while rest >= 128
        invariant
            out@ + vbyte_encode(rest) == old(out)@ + vbyte_encode(v),
        decreases rest,
    {
        let ghost before = out@;
        out.push((rest % 128 + 128) as u8);
        proof {
            assert(vbyte_encode(rest) == seq![(rest % 128 + 128) as u8] + vbyte_encode(
                rest / 128,
            ));
            assert(out@ + vbyte_encode(rest / 128) == before + vbyte_encode(rest));
        }
        rest = rest / 128;
    }
    let ghost before = out@;
    out.push(rest as u8);
    proof {
        assert(out@ == before + vbyte_encode(rest));
    }
}

/// Reads the number that starts at `pos`; the second part of the result is the
/// position behind it.
pub fn read_vbyte(data: &[u8], pos: usize) -> (r: (u32, usize))
    requires
        pos + 5 <= data.len(),
    ensures
        r.0 == vbyte_value(data@, pos as int),
        r.1 == pos + vbyte_size(data@, pos as int),
{
    let b0: u8 = data[pos];
    let mut value: u32 = (b0 % 128) as u32;
    if b0 < 128 {
        return (value, pos + 1);
    }
    let b1: u8 = data[pos + 1];
    value = value + 0x80 * ((b1 % 128) as u32);
    if b1 < 128 {
        return (value, pos + 2);
    }
    let b2: u8 = data[pos + 2];
    value = value + 0x4000 * ((b2 % 128) as u32);
    if b2 < 128 {
        return (value, pos + 3);
    }
    let b3: u8 = data[pos + 3];
    value = value + 0x20_0000 * ((b3 % 128) as u32);
    if b3 < 128 {
        return (value, pos + 4);
    }
    let b4: u8 = data[pos + 4];
    value = value + 0x1000_0000 * ((b4 % 16) as u32);
    (value, pos + 5)
}

/// Appends the delta of `index` against `last` to `out`.
pub fn write_index(out: &mut Vec<u8>, index: u32, last: u32)
    ensures
        final(out)@ == old(out)@ + vbyte_encode(index_delta(index, last)),
{
    let d: u32 = index.wrapping_sub(last);
    let v: u32 = if d < 0x8000_0000 {
        2 * d
    } else {
        2 * (0xffff_ffff - d) + 1
    };
    write_vbyte(out, v);
}

/// Reads a delta at `pos` and applies it to `last`; the second part of the
/// result is the position behind the delta.
pub fn read_index(data: &[u8], pos: usize, last: u32) -> (r: (u32, usize))
    requires
        pos + 5 <= data.len(),
    ensures
        r.0 == apply_delta(last, vbyte_value(data@, pos as int)),
        r.1 == pos + vbyte_size(data@, pos as int),
{
    let (v, end) = read_vbyte(data, pos);
    let d: u32 = if v % 2 == 0 {
        v / 2
    } else {
        0xffff_ffff - v / 2
    };
    (last.wrapping_add(d), end)
}

} // verus!
