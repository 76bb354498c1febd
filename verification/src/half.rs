//! IEEE 754 binary16 storage conversion, on raw bit patterns.
//!
//! The language never performs arithmetic in this format. These helpers
//! convert between raw binary16 bits and raw binary64 bits: narrowing
//! rounds to nearest, ties to even; widening is exact.
use vstd::prelude::*;
use vstd::arithmetic::power2::{pow2, lemma_pow2_pos, lemma2_to64, lemma2_to64_rest};
use vstd::bits::{lemma_u64_shr_is_div, lemma_u64_low_bits_mask_is_mod, lemma_u64_shl_is_mul, low_bits_mask, lemma_u64_pow2_no_overflow};

verus! {

/// `value / 2^shift` rounded to the nearest integer, ties toward an even
/// result.
pub open spec fn round_half_even(value: int, shift: nat) -> int {
    if shift == 0 {
        value
    } else {
        let q = value / pow2(shift) as int;
        let r = value % pow2(shift) as int;
        let half = pow2((shift - 1) as nat) as int;
        if r > half || (r == half && q % 2 == 1) { q + 1 } else { q }
    }
}

/// Rounds `value / 2^shift` to the nearest integer, breaking ties toward
/// an even low bit.
pub fn round_shift_even(value: u64, shift: u32) -> (r: u64)
    requires
        shift < 64,
    ensures
        r == round_half_even(value as int, shift as nat),
{
    if shift == 0 {
        return value;
    }
    proof {
        lemma_u64_shr_is_div(value, shift as u64);
        lemma_u64_pow2_no_overflow(shift as nat);
        lemma_u64_pow2_no_overflow((shift - 1) as nat);
        lemma_u64_shl_is_mul(1, shift as u64);
        lemma_u64_shl_is_mul(1, (shift - 1) as u64);
        lemma_u64_low_bits_mask_is_mod(value, shift as nat);
        lemma_pow2_pos(shift as nat);
        vstd::arithmetic::power2::lemma_pow2_unfold(shift as nat);
        assert(value as int / pow2(shift as nat) as int <= value) by {
            vstd::arithmetic::div_mod::lemma_div_is_ordered_by_denominator(value as int, 1, pow2(shift as nat) as int);
        }
    }
    let quotient = value >> shift;
    let mask = (1u64 << shift) - 1;
    let remainder = value & mask;
    let halfway = 1u64 << (shift - 1);
    if remainder > halfway || (remainder == halfway && quotient & 1 != 0) {
        proof {
            assert(quotient & 1 != 0 <==> quotient % 2 == 1) by (bit_vector);
            assert(quotient < u64::MAX) by {
                if shift >= 1 {
                    vstd::arithmetic::div_mod::lemma_div_is_ordered_by_denominator(value as int, 2, pow2(shift as nat) as int);
                }
            }
        }
        quotient + 1
    } else {
        proof {
            assert(quotient & 1 != 0 <==> quotient % 2 == 1) by (bit_vector);
        }
        quotient
    }
}

/// `2^52`, the binary64 exponent field's unit.
pub open spec fn exp64_unit() -> int {
    0x10_0000_0000_0000
}

/// Binary16 bits of the binary64 value with bits `bits`, rounding to
/// nearest with ties to even: overflow becomes infinity, values below
/// half the smallest subnormal become a signed zero, and a NaN keeps its
/// sign and the top ten bits of its payload (never all zero).
pub open spec fn binary16_from_binary64(bits: int) -> int {
    let sign: int = if bits >= 0x8000_0000_0000_0000 { 0x8000 } else { 0 };
    let e = (bits / exp64_unit()) % 2048;
    let f = bits % exp64_unit();
    if e == 2047 {
        if f == 0 {
            sign + 0x7c00
        } else {
            let payload = f / 0x400_0000_0000;
            sign + 0x7c00 + if payload == 0 { 1 } else { payload }
        }
    } else if e == 0 {
        sign
    } else {
        let u = e - 1023;
        let m = exp64_unit() + f;
        if u > 15 {
            sign + 0x7c00
        } else if u >= -14 {
            let r = round_half_even(m, 42);
            let he = if r == 2048 { u + 16 } else { u + 15 };
            let mant = if r == 2048 { 0 } else { r - 1024 };
            if he >= 31 { sign + 0x7c00 } else { sign + he * 1024 + mant }
        } else if u >= -25 {
            let r = round_half_even(m, (28 - u) as nat);
            if r == 1024 { sign + 0x400 } else { sign + r }
        } else {
            sign
        }
    }
}

/// Index of the highest set bit of `m` (`m >= 1`).
pub open spec fn highest_bit(m: nat) -> nat
    decreases m,
{
    if m < 2 { 0 } else { 1 + highest_bit(m / 2) }
}

/// Binary64 bits of the binary16 value with bits `b` (exact): signed
/// zero, subnormals, infinities and NaN payloads are all preserved.
pub open spec fn binary64_from_binary16(b: int) -> int {
    let sign: int = if b >= 0x8000 { 0x8000_0000_0000_0000 } else { 0 };
    let e = (b / 1024) % 32;
    let m = b % 1024;
    if e == 0 && m == 0 {
        sign
    } else if e == 0 {
        let top = highest_bit(m as nat);
        sign + (top + 999) * exp64_unit() + (m - pow2(top) as int) * pow2((52 - top) as nat) as int
    } else if e == 31 {
        sign + 0x7ff * exp64_unit() + m * 0x400_0000_0000
    } else {
        sign + (e + 1008) * exp64_unit() + m * 0x400_0000_0000
    }
}

/// The powers of two the conversions shift by.
proof fn lemma_pow2_table()
    ensures
        pow2(42) == 0x400_0000_0000,
        pow2(52) == 0x10_0000_0000_0000,
        pow2(0) == 1,
        pow2(1) == 2,
        pow2(2) == 4,
        pow2(3) == 8,
        pow2(4) == 16,
        pow2(5) == 32,
        pow2(6) == 64,
        pow2(7) == 128,
        pow2(8) == 256,
        pow2(9) == 512,
        pow2(10) == 1024,
        pow2(41) == 0x200_0000_0000,
{
    lemma2_to64();
    lemma2_to64_rest();
}

/// Dividing an exact multiple by a power of two rounds to the quotient.
proof fn lemma_round_exact(q: int, shift: nat)
    requires
        shift >= 1,
        q >= 0,
    ensures
        round_half_even(q * pow2(shift) as int, shift) == q,
{
    lemma_pow2_pos(shift);
    vstd::arithmetic::div_mod::lemma_div_multiples_vanish(q, pow2(shift) as int);
    vstd::arithmetic::div_mod::lemma_mod_multiples_vanish(q, 0, pow2(shift) as int);
    lemma_pow2_pos((shift - 1) as nat);
    assert(q * pow2(shift) as int == pow2(shift) as int * q) by (nonlinear_arith);
}

/// A binary16 subnormal survives widening and narrowing.
proof fn lemma_subnormal_round_trip(b: u16)
    requires
        (b / 1024) % 32 == 0,
        b % 1024 != 0,
    ensures
        binary16_from_binary64(binary64_from_binary16(b as int)) == b,
{
    lemma_pow2_table();
    let m = b % 1024;
    let top = highest_bit(m as nat);
    reveal_with_fuel(highest_bit, 11);
    assert(top <= 9 && pow2(top) <= m < pow2(top + 1)) by {
        if m >= 512 {} else if m >= 256 {} else if m >= 128 {} else if m >= 64 {} else if m
            >= 32 {} else if m >= 16 {} else if m >= 8 {} else if m >= 4 {} else if m >= 2 {} else {}
    }
    let shift = (52 - top) as nat;
    lemma_pow2_pos(shift);
    vstd::arithmetic::power2::lemma_pow2_adds(top, shift);
    vstd::arithmetic::power2::lemma_pow2_unfold((top + 1) as nat);
    let low = (m - pow2(top)) * pow2(shift) as int;
    assert(low < exp64_unit() && 0 <= low) by (nonlinear_arith)
        requires
            low == (m - pow2(top)) * pow2(shift) as int,
            0 <= m - pow2(top) < pow2(top),
            pow2(top) * pow2(shift) == exp64_unit(),
            pow2(shift) > 0,
    ;
    assert(exp64_unit() + low == m * pow2(shift) as int) by (nonlinear_arith)
        requires
            low == (m - pow2(top)) * pow2(shift) as int,
            pow2(top) * pow2(shift) == exp64_unit(),
    ;
    let bits = binary64_from_binary16(b as int);
    let sign64: int = if b >= 0x8000 { 0x8000_0000_0000_0000 } else { 0 };
    assert(bits == sign64 + (top + 999) * exp64_unit() + low);
    assert((bits / exp64_unit()) % 2048 == top + 999);
    assert(bits % exp64_unit() == low);
    assert(bits >= 0x8000_0000_0000_0000 <==> b >= 0x8000);
    lemma_round_exact(m as int, shift);
}

/// A normal binary16 value survives widening and narrowing.
proof fn lemma_normal_round_trip(b: u16)
    requires
        1 <= (b / 1024) % 32 <= 30,
    ensures
        binary16_from_binary64(binary64_from_binary16(b as int)) == b,
{
    lemma_pow2_table();
    let e = (b / 1024) % 32;
    let m = b % 1024;
    let bits = binary64_from_binary16(b as int);
    assert((bits / exp64_unit()) % 2048 == e + 1008);
    assert(bits % exp64_unit() == m * 0x400_0000_0000);
    assert(bits >= 0x8000_0000_0000_0000 <==> b >= 0x8000);
    assert(exp64_unit() + m * 0x400_0000_0000 == (1024 + m) * pow2(42));
    lemma_round_exact(1024 + m, 42);
}

/// Every binary16 bit pattern survives widening to binary64 and narrowing
/// back, NaN payloads included.
pub proof fn lemma_binary16_round_trip(b: u16)
    ensures
        binary16_from_binary64(binary64_from_binary16(b as int)) == b,
{
    let e = (b / 1024) % 32;
    let m = b % 1024;
    if e == 0 && m == 0 {
    } else if e == 0 {
        lemma_subnormal_round_trip(b);
    } else if e == 31 {
        let bits = binary64_from_binary16(b as int);
        assert((bits / exp64_unit()) % 2048 == 2047);
        assert(bits % exp64_unit() == m * 0x400_0000_0000);
        assert(bits >= 0x8000_0000_0000_0000 <==> b >= 0x8000);
    } else {
        lemma_normal_round_trip(b);
    }
}

/// Converts raw binary64 bits to raw binary16 bits, round-to-nearest-even.
pub fn f16_from_f64_bits(bits: u64) -> (r: u16)
    ensures
        r == binary16_from_binary64(bits as int),
{
    proof {
        lemma_pow2_table();
    }
    let sign = ((bits >> 48) & 0x8000) as u16;
    let exponent = ((bits >> 52) & 0x07ff) as u16;
    let fraction = bits & 0x000f_ffff_ffff_ffff;
    proof {
        assert(sign == if bits >= 0x8000_0000_0000_0000 { 0x8000u16 } else { 0u16 }) by (bit_vector)
            requires
                sign == ((bits >> 48) & 0x8000) as u16,
        ;
        assert(exponent == (bits / 0x10_0000_0000_0000) % 2048) by (bit_vector)
            requires
                exponent == ((bits >> 52) & 0x07ff) as u16,
        ;
        assert(fraction == bits % 0x10_0000_0000_0000) by (bit_vector)
            requires
                fraction == bits & 0x000f_ffff_ffff_ffff,
        ;
        assert(sign == 0 || sign == 0x8000);
        assert(sign | 0x7c00 == sign + 0x7c00) by (bit_vector)
            requires
                sign == 0 || sign == 0x8000,
        ;
    }
    if exponent == 0x07ff {
        if fraction == 0 {
            return sign | 0x7c00;
        }
        let p = (fraction >> 42) as u16;
        let payload = if p == 0 { 1 } else { p };
        proof {
            assert(p == fraction / 0x400_0000_0000) by (bit_vector)
                requires
                    p == (fraction >> 42) as u16,
                    fraction < 0x10_0000_0000_0000,
            ;
            assert(sign | 0x7c00 | payload == sign + 0x7c00 + payload) by (bit_vector)
                requires
                    sign == 0 || sign == 0x8000,
                    1 <= payload <= 0x3ff,
            ;
        }
        return sign | 0x7c00 | payload;
    }
    if exponent == 0 {
        return sign;
    }
    let unbiased = exponent as i32 - 1023;
    let significand = 0x10_0000_0000_0000u64 | fraction;
    proof {
        assert(significand == 0x10_0000_0000_0000 + fraction) by (bit_vector)
            requires
                significand == 0x10_0000_0000_0000u64 | fraction,
                fraction < 0x10_0000_0000_0000,
        ;
    }
    if unbiased >= -14 {
        if unbiased > 15 {
            return sign | 0x7c00;
        }
        let rounded = round_shift_even(significand, 42);
        proof {
            assert(0x400 <= rounded <= 0x800);
        }
        let mut half_exp = unbiased + 15;
        let mantissa = if rounded == 2048 {
            half_exp = half_exp + 1;
            0
        } else {
            (rounded - 1024) as u16
        };
        if half_exp >= 31 {
            sign | 0x7c00
        } else {
            let he = half_exp as u16;
            proof {
                assert(sign | (he << 10) | mantissa == sign + he * 1024 + mantissa) by (bit_vector)
                    requires
                        sign == 0 || sign == 0x8000,
                        1 <= he <= 30,
                        mantissa <= 0x3ff,
                ;
            }
            sign | (he << 10) | mantissa
        }
    } else if unbiased >= -25 {
        // A binary16 subnormal is `mantissa * 2^-24`. Re-express the
        // normalized binary64 significand in those units before rounding.
        let shift = (28 - unbiased) as u32;
        let mantissa = round_shift_even(significand, shift);
        proof {
            lemma_pow2_pos(shift as nat);
            if shift > 43 {
                vstd::arithmetic::power2::lemma_pow2_strictly_increases(43, shift as nat);
            }
            assert(pow2(43) == 0x800_0000_0000) by {
                lemma2_to64();
                lemma2_to64_rest();
            }
            assert(pow2(shift as nat) >= 0x800_0000_0000);
            assert(significand as int / pow2(shift as nat) as int <= 1023) by {
                vstd::arithmetic::div_mod::lemma_div_is_ordered_by_denominator(significand as int, 0x800_0000_0000, pow2(shift as nat) as int);
            }
            vstd::arithmetic::power2::lemma_pow2_unfold(shift as nat);
        }
        if mantissa == 1024 {
            proof {
                assert(sign | 0x0400 == sign + 0x400) by (bit_vector)
                    requires
                        sign == 0 || sign == 0x8000,
                ;
            }
            sign | 0x0400
        } else {
            let mm = mantissa as u16;
            proof {
                assert(sign | mm == sign + mm) by (bit_vector)
                    requires
                        sign == 0 || sign == 0x8000,
                        mm <= 0x3ff,
                ;
            }
            sign | mm
        }
    } else {
        sign
    }
}

/// Index of the highest set bit of a nonzero ten-bit mantissa.
fn highest_bit_of(m: u16) -> (r: u32)
    requires
        1 <= m < 1024,
    ensures
        r == highest_bit(m as nat),
        r <= 9,
        pow2(r as nat) <= m < pow2((r + 1) as nat),
{
    proof {
        lemma_pow2_table();
        reveal_with_fuel(highest_bit, 11);
    }
    if m >= 512 {
        9
    } else if m >= 256 {
        8
    } else if m >= 128 {
        7
    } else if m >= 64 {
        6
    } else if m >= 32 {
        5
    } else if m >= 16 {
        4
    } else if m >= 8 {
        3
    } else if m >= 4 {
        2
    } else if m >= 2 {
        1
    } else {
        0
    }
}

/// Converts raw binary16 bits to the raw bits of the exactly equal
/// binary64 value.
pub fn f64_bits_from_f16(bits: u16) -> (r: u64)
    ensures
        r == binary64_from_binary16(bits as int),
{
    proof {
        lemma_pow2_table();
    }
    let sign = ((bits & 0x8000) as u64) << 48;
    let exponent = (bits >> 10) & 0x001f;
    let mantissa = bits & 0x03ff;
    proof {
        assert(sign == if bits >= 0x8000 { 0x8000_0000_0000_0000u64 } else { 0u64 }) by (bit_vector)
            requires
                sign == ((bits & 0x8000) as u64) << 48,
        ;
        assert(exponent == (bits / 1024) % 32) by (bit_vector)
            requires
                exponent == (bits >> 10) & 0x001f,
        ;
        assert(mantissa == bits % 1024) by (bit_vector)
            requires
                mantissa == bits & 0x03ff,
        ;
    }
    if exponent == 0 && mantissa == 0 {
        sign
    } else if exponent == 0 {
        let top = highest_bit_of(mantissa);
        let exp64 = (top as u64 + 999) << 52;
        let leading = 1u16 << top;
        proof {
            vstd::bits::lemma_u16_shl_is_mul(1, top as u16);
            assert(leading == pow2(top as nat));
            assert(exp64 == (top + 999) * 0x10_0000_0000_0000) by (bit_vector)
                requires
                    exp64 == ((top as u64 + 999) as u64) << 52,
                    top <= 9,
            ;
        }
        let low = (mantissa - leading) as u64;
        let frac64 = low << (52 - top);
        proof {
            assert(low < pow2(top as nat));
            vstd::arithmetic::power2::lemma_pow2_adds(top as nat, (52 - top) as nat);
            assert(low * pow2((52 - top) as nat) < 0x10_0000_0000_0000) by (nonlinear_arith)
                requires
                    low < pow2(top as nat),
                    pow2(top as nat) * pow2((52 - top) as nat) == 0x10_0000_0000_0000,
            ;
            lemma_u64_shl_is_mul(low, (52 - top) as u64);
            assert(sign | exp64 | frac64 == sign + exp64 + frac64) by (bit_vector)
                requires
                    sign == 0 || sign == 0x8000_0000_0000_0000,
                    exp64 == (top + 999) * 0x10_0000_0000_0000,
                    top <= 9,
                    frac64 < 0x10_0000_0000_0000,
            ;
        }
        sign | exp64 | frac64
    } else if exponent == 0x1f {
        let m = (mantissa as u64) << 42;
        proof {
            assert(sign | (0x07ffu64 << 52) | m == sign + 0x7ff * 0x10_0000_0000_0000 + mantissa * 0x400_0000_0000) by (bit_vector)
                requires
                    sign == 0 || sign == 0x8000_0000_0000_0000,
                    mantissa <= 0x3ff,
                    m == (mantissa as u64) << 42,
            ;
        }
        sign | (0x07ffu64 << 52) | m
    } else {
        let exp64 = (exponent as u64 + 1008) << 52;
        let m = (mantissa as u64) << 42;
        proof {
            assert(sign | exp64 | m == sign + (exponent + 1008) * 0x10_0000_0000_0000 + mantissa * 0x400_0000_0000) by (bit_vector)
                requires
                    sign == 0 || sign == 0x8000_0000_0000_0000,
                    1 <= exponent <= 30,
                    mantissa <= 0x3ff,
                    exp64 == ((exponent as u64 + 1008) as u64) << 52,
                    m == (mantissa as u64) << 42,
            ;
        }
        sign | exp64 | m
    }
}

} // verus!
