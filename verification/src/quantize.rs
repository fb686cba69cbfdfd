//! Quantization of 32-bit floats, on their bit patterns.
//!
//! A float is taken as the pattern that `f32::to_bits` gives and handed back
//! as a pattern for `f32::from_bits`: a sign bit, eight bits of exponent,
//! twenty-three bits of mantissa. A half float has a sign bit, five bits of
//! exponent and ten bits of mantissa.

use vstd::prelude::*;

verus! {

/// The half float for the float with the pattern `bits`: rounded to the
/// nearest, with infinity for what is too large, zero for what is too small
/// to be a normal half float, and one pattern for every NaN.
pub open spec fn quantize_half_spec(bits: u32) -> u16 {
    let sign: int = if bits >= 0x8000_0000 {
        0x8000
    } else {
        0
    };
    let em = bits % 0x8000_0000;
    let half: int = if em > 0x7f80_0000 {
        0x7e00
    } else if em >= 0x4780_0000 {
        0x7c00
    } else if em < 0x3880_0000 {
        0
    } else {
        (em - 0x3800_0000 + 0x1000) / 0x2000
    };
    (sign + half) as u16
}

/// The pattern of the float for the half float `h`: exact for normal half
/// floats, zero for what is below them, infinity and NaN kept.
pub open spec fn dequantize_half_spec(h: u16) -> u32 {
    let sign: int = if h >= 0x8000 {
        0x8000_0000
    } else {
        0
    };
    let em = h % 0x8000;
    let rest: int = if em < 0x400 {
        0
    } else if em >= 0x7c00 {
        (em + 0x1_c000) * 0x2000 + 0x3800_0000
    } else {
        (em + 0x1_c000) * 0x2000
    };
    (sign + rest) as u32
}

/// Whether the half float `h` is normal: neither zero nor below the normal
/// range, neither infinite nor NaN.
pub open spec fn is_normal_half(h: u16) -> bool {
    0x400 <= h % 0x8000 < 0x7c00
}

/// Quantizes the float with the pattern `bits` to a half float.
pub fn quantize_half_bits(bits: u32) -> (h: u16)
    ensures
        h == quantize_half_spec(bits),
{
    let sign: u16 = if bits >= 0x8000_0000 {
        0x8000
    } else {
        0
    };
    let em: u32 = bits % 0x8000_0000;
    let half: u16 = if em > 0x7f80_0000 {
        0x7e00
    } else if em >= 0x4780_0000 {
        0x7c00
    } else if em < 0x3880_0000 {
        0
    } else {
        ((em - 0x3800_0000 + 0x1000) / 0x2000) as u16
    };
    sign + half
}

/// The pattern of the float that the half float `h` stands for.
pub fn dequantize_half_bits(h: u16) -> (bits: u32)
    ensures
        bits == dequantize_half_spec(h),
{
    let sign: u32 = if h >= 0x8000 {
        0x8000_0000
    } else {
        0
    };
    let em: u32 = (h % 0x8000) as u32;
    let rest: u32 = if em < 0x400 {
        0
    } else if em >= 0x7c00 {
        (em + 0x1_c000) * 0x2000 + 0x3800_0000
    } else {
        (em + 0x1_c000) * 0x2000
    };
    sign + rest
}

/// A normal half float survives the way to a float and back.
pub proof fn lemma_half_round_trip(h: u16)
    requires
        is_normal_half(h),
    ensures
        quantize_half_spec(dequantize_half_spec(h)) == h,
{
}

/// 2 to the power `k`, for `k` up to 22.
pub open spec fn two_to(k: int) -> int
    decreases k,
{
    if k <= 0 {
        1
    } else {
        2 * two_to(k - 1)
    }
}

/// The pattern of the float with the pattern `bits`, rounded to `n` bits of
/// mantissa: infinity and NaN are kept, what is below the normal range
/// becomes zero, and the rounding may carry into the exponent.
pub open spec fn quantize_float_spec(bits: u32, n: int) -> u32 {
    let step = two_to(23 - n);
    let exponent = (bits % 0x8000_0000) / 0x80_0000;
    if exponent == 0 {
        0
    } else if exponent == 255 {
        bits
    } else {
        (((bits + step / 2) / step) * step) as u32
    }
}

/// Rounds the float with the pattern `bits` to `n` bits of mantissa, `n`
/// from 1 to 23.
pub fn quantize_float_bits(bits: u32, n: u32) -> (r: u32)
    requires
        1 <= n <= 23,
    ensures
        r == quantize_float_spec(bits, n as int),
{
    let mut step: u32 = 1;
    let mut k: u32 = 0;
    while k < 23 - n
        invariant
            k <= 23 - n,
            1 <= n <= 23,
            step == two_to(k as int),
            1 <= step <= 0x40_0000,
        decreases 23 - n - k,
    {
        proof {
            lemma_two_to_bounds(k as int);
        }
        step = step * 2;
        k = k + 1;
    }
    let exponent: u32 = (bits % 0x8000_0000) / 0x80_0000;
    if exponent == 0 {
        0
    } else if exponent == 255 {
        bits
    } else {
        // below infinity a carry ends in the exponent, so nothing overflows
        assert(bits % 0x8000_0000 < 0x7f80_0000);
        assert((bits + step / 2) / (step as int) * step <= bits + step / 2) by (nonlinear_arith)
            requires
                step >= 1,
        ;
        (bits + step / 2) / step * step
    }
}

/// The powers of 2 up to the twenty-second.
pub proof fn lemma_two_to_bounds(k: int)
    requires
        0 <= k <= 22,
    ensures
        1 <= two_to(k) <= 0x40_0000,
        k < 22 ==> two_to(k) <= 0x20_0000,
    decreases 22 - k,
{
    if k < 22 {
        lemma_two_to_bounds(k + 1);
        assert(two_to(k + 1) == 2 * two_to(k));
    } else {
        reveal_with_fuel(two_to, 23);
    }
}

} // verus!
