//! Conversions between the 64-bit layout and IEEE binary128, given by its bits.
//!
//! Binary128 numbers are finer than the model's unit `2^-1074`, so here both sides
//! are counted in steps of `2^-16494`, the smallest binary128 step: binary128 is then
//! the layout `(15, 112, 963)`, and the 64-bit layout, whose numbers counted in these
//! steps are `2^15420` times larger, is `(11, 52, 1023 - 15420)`.
use vstd::prelude::*;
use vstd::arithmetic::power2::{pow2, lemma2_to64, lemma2_to64_rest, lemma_pow2_adds, lemma_pow2_pos, lemma_pow2_strictly_increases, lemma_pow2_unfold};
use crate::model::{log2, units, exp_field, man_field, max_exp, sign_bit, inf_bits, nan_bits, encode_value, encode_float, is_nan_bits, is_inf_bits, is_finite_bits, lemma_log2_bounds, lemma_log2_scaled};
use crate::bitfacts::{lemma_u128_split, lemma_u128_one_shl, lemma_u128_shl_is_mul, lemma_pow2_below_u128};
use crate::codec::{round_shift, lemma_encode_overflow, lemma_subnormal_bounds, lemma_subnormal_round, lemma_normal_bounds, lemma_normal_round, lemma_normal_pattern};
use crate::integers::floor_log2_u128;
use crate::convert::ConversionError;

verus! {

/// The bias of the 64-bit layout when its numbers are counted in binary128 steps.
pub open spec fn quad_bias() -> int {
    1023 - 15420
}

/// The 64-bit pattern that a binary128 value (given by its bits) encodes to: NaN for
/// NaN and every negative number, infinity for positive infinity, zero for either
/// zero, and otherwise the value rounded to nearest with ties to even.
pub open spec fn encode_f128(x: nat) -> nat {
    encode_float(x, 15, 112, 963, 11, 52, quad_bias())
}

/// Encodes the positive finite value `significand * 2^exponent` (a binary128 number
/// split into its integer significand and exponent) into the 64-bit layout.
#[verifier::rlimit(40)]
pub(crate) fn encode_finite_quad(significand: u128, exponent: i32) -> (r: u64)
    requires
        0 < significand < pow2(113),
        -16494 <= exponent <= 16271,
    ensures
        r == encode_value(significand as nat * pow2((exponent + 16494) as nat), 11, 52, quad_bias()),
{
    let ghost mb: nat = 52;
    let ghost bias: int = quad_bias();
    let ghost a: nat = (exponent + 16494) as nat;
    let ghost u: nat = significand as nat * pow2(a);
    proof {
        lemma2_to64();
        lemma2_to64_rest();
        lemma_pow2_pos(a);
        assert(u >= 1) by (nonlinear_arith)
            requires
                u == significand * pow2(a),
                significand >= 1,
                pow2(a) >= 1,
        ;
        assert(max_exp(11) == 2047);
        assert(inf_bits(11, 52) == 0x7ff0_0000_0000_0000);
    }
    let top = floor_log2_u128(significand);
    proof {
        lemma_log2_bounds(significand as nat);
        if log2(significand as nat) >= 113 {
            lemma_pow2_strictly_increases(113, log2(significand as nat));
        }
    }
    let value_unbiased = top as i32 + exponent;
    proof {
        lemma_log2_scaled(significand as nat, a);
        lemma_log2_bounds(u);
        assert(log2(u) == value_unbiased + 16494);
    }

    if value_unbiased > 1023 {
        proof {
            lemma_encode_overflow(u, 11, mb, bias);
        }
        return 0x7ff0_0000_0000_0000;
    }

    if value_unbiased < -1022 {
        proof {
            lemma_subnormal_bounds(significand as nat, a, mb, bias);
        }
        let rounded = round_shift(significand, exponent + 1074);
        proof {
            lemma_subnormal_round(significand as nat, a, mb, bias, (exponent + 1074) as int, rounded as nat);
        }
        if rounded == 0 {
            return 0;
        }
        if rounded >= 0x10_0000_0000_0000 {
            return 0x10_0000_0000_0000;
        }
        return rounded as u64;
    }

    let mut unbiased = value_unbiased;
    let shift = 52 - top as i32;
    proof {
        lemma_normal_bounds(significand as nat, a, mb, bias);
    }
    let mut rounded = round_shift(significand, shift);
    proof {
        lemma_normal_round(significand as nat, a, mb, bias, shift as int, rounded as nat);
        lemma_pow2_unfold(53);
    }
    if rounded == 0x20_0000_0000_0000 {
        rounded = 0x10_0000_0000_0000;
        unbiased = unbiased + 1;
    }
    let biased = unbiased + 1023;
    proof {
        lemma_normal_pattern(u, mb, bias, 16494, value_unbiased as int, biased as int, rounded as nat);
    }
    if biased >= 2047 {
        proof {
            let m = (rounded - pow2(mb)) as nat;
            assert(biased * pow2(mb) + m >= 2047 * pow2(mb)) by (nonlinear_arith)
                requires
                    biased >= 2047,
                    pow2(mb) > 0,
            ;
        }
        return 0x7ff0_0000_0000_0000;
    }
    let mantissa = (rounded - 0x10_0000_0000_0000) as u64;
    proof {
        assert(biased * pow2(mb) + mantissa < 0x7ff0_0000_0000_0000) by (nonlinear_arith)
            requires
                biased < 2047,
                mantissa < pow2(mb),
                pow2(mb) == 0x10_0000_0000_0000,
        ;
        crate::bitfacts::lemma_u64_compose(biased as u64, mantissa, 52);
    }
    ((biased as u64) << 52u32) | mantissa
}

/// How the fields of a binary128 pattern read with shifts and masks.
proof fn lemma_f128_fields(x: u128)
    ensures
        (x >> 127u32) == sign_bit(x as nat, 15, 112),
        sign_bit(x as nat, 15, 112) <= 1,
        ((x >> 112u32) & (((1u128 << 15u32) - 1) as u128)) == exp_field(x as nat, 15, 112),
        (x & (((1u128 << 112u32) - 1) as u128)) == man_field(x as nat, 112),
        man_field(x as nat, 112) < pow2(112),
        exp_field(x as nat, 15, 112) <= 32767,
        pow2(15) == 32768,
        (1u128 << 112u32) == pow2(112),
        (1u128 << 15u32) == 32768,
        pow2(113) <= 0x8000_0000_0000_0000_0000_0000_0000_0000,
        max_exp(15) == 32767,
{
    lemma_u128_one_shl(15);
    lemma_pow2_below_u128(113);
    lemma2_to64();
    lemma_u128_split(x, 127);
    lemma_u128_split(x, 112);
    lemma_u128_split(x >> 112u32, 15);
    lemma_u128_one_shl(112);
    lemma_pow2_pos(112);
    lemma2_to64_rest();
    lemma_pow2_adds(64, 63);
    assert(pow2(127) == 0x8000_0000_0000_0000_0000_0000_0000_0000);
    vstd::arithmetic::div_mod::lemma_mod_pos_bound(x as int, pow2(112) as int);
    vstd::arithmetic::div_mod::lemma_mod_pos_bound((x as nat / pow2(112)) as int, 32768);
    assert(sign_bit(x as nat, 15, 112) <= 1) by {
        vstd::arithmetic::div_mod::lemma_div_is_ordered(x as int, u128::MAX as int, pow2(127) as int);
        assert(u128::MAX as nat / pow2(127) == 1);
    }
}

/// Encodes the binary128 value with bits `value` into the 64-bit layout: rounded to
/// nearest with ties to even, infinity once the rounded value leaves the finite range,
/// zero for either zero, and the quiet NaN for NaN, negative infinity and every
/// negative number.
pub fn encode_from_f128(value: u128) -> (r: u64)
    ensures
        r == encode_f128(value as nat),
{
    proof {
        lemma_f128_fields(value);
        lemma2_to64();
        lemma2_to64_rest();
        assert(inf_bits(11, 52) == 0x7ff0_0000_0000_0000);
        assert(nan_bits(11, 52) == 0x7ff8_0000_0000_0000);
    }
    let sign = value >> 127u32;
    let exp = (value >> 112u32) & ((1u128 << 15u32) - 1);
    let fraction = value & ((1u128 << 112u32) - 1);

    if exp == 0x7fff {
        return if fraction == 0 && sign == 0 {
            0x7ff0_0000_0000_0000
        } else {
            0x7ff8_0000_0000_0000
        };
    }
    if exp == 0 && fraction == 0 {
        return 0;
    }
    if sign != 0 {
        return 0x7ff8_0000_0000_0000;
    }
    proof {
        lemma_pow2_unfold(113);
    }
    if exp == 0 {
        proof {
            assert(pow2(0) == 1);
            assert(units(value as nat, 15, 112, 963) == fraction * pow2(0));
        }
        encode_finite_quad(fraction, 1 - 16383 - 112)
    } else {
        proof {
            assert(units(value as nat, 15, 112, 963) == (pow2(112) + fraction) * pow2((exp - 1) as nat));
        }
        encode_finite_quad(fraction + (1u128 << 112u32), exp as i32 - 16383 - 112)
    }
}

/// `r` is the binary128 pattern of the 64-bit pattern `bits`: the canonical quiet NaN
/// for a NaN, infinity for infinity, and otherwise the non-negative finite binary128
/// number of the same value.
pub open spec fn is_f128_of(bits: nat, r: nat) -> bool {
    if is_nan_bits(bits, 11, 52) {
        r == nan_bits(15, 112)
    } else if is_inf_bits(bits, 11, 52) {
        r == inf_bits(15, 112)
    } else {
        &&& sign_bit(r, 15, 112) == 0
        &&& is_finite_bits(r, 15, 112)
        &&& units(r, 15, 112, 963) == units(bits, 11, 52, quad_bias())
    }
}

/// The binary128 pattern `e * 2^112 + m` of a finite positive number.
proof fn lemma_f128_pattern(e: nat, m: nat)
    requires
        e < 32767,
        m < pow2(112),
    ensures
        exp_field(e * pow2(112) + m, 15, 112) == e,
        man_field(e * pow2(112) + m, 112) == m,
        sign_bit(e * pow2(112) + m, 15, 112) == 0,
        is_finite_bits(e * pow2(112) + m, 15, 112),
        e * pow2(112) + m < pow2(127),
{
    lemma2_to64();
    crate::model::lemma_fields(e, m, 15, 112);
    lemma_pow2_adds(15, 112);
    lemma_pow2_pos(112);
    assert(e * pow2(112) + m < pow2(15) * pow2(112)) by (nonlinear_arith)
        requires
            e < pow2(15),
            m < pow2(112),
    ;
    vstd::arithmetic::div_mod::lemma_basic_div((e * pow2(112) + m) as int, pow2(127) as int);
}

/// The binary128 bits of the value of a 64-bit pattern: every number of the layout is
/// a binary128 number, so the conversion is exact.
pub fn decode_to_f128(bits: u64) -> (r: u128)
    ensures
        is_f128_of(bits as nat, r as nat),
{
    proof {
        crate::codec::lemma_f64_fields(bits);
        crate::bitfacts::lemma_u64_one_shl(52);
        lemma2_to64();
        lemma2_to64_rest();
        lemma_f128_fields(0);
        lemma_pow2_adds(15, 112);
        lemma_pow2_adds(64, 63);
        assert(inf_bits(15, 112) == 0x7fff_0000_0000_0000_0000_0000_0000_0000) by {
            lemma_pow2_adds(64, 48);
        }
        assert(nan_bits(15, 112) == 0x7fff_8000_0000_0000_0000_0000_0000_0000) by {
            lemma_pow2_adds(64, 48);
            lemma_pow2_adds(64, 47);
        }
    }
    let exp = (bits >> 52u32) & 0x7ff;
    let mantissa = bits & ((1u64 << 52u32) - 1);
    if exp == 0x7ff {
        return if mantissa == 0 {
            0x7fff_0000_0000_0000_0000_0000_0000_0000
        } else {
            0x7fff_8000_0000_0000_0000_0000_0000_0000
        };
    }
    if exp == 0 {
        if mantissa == 0 {
            proof {
                lemma_f128_pattern(0, 0);
                crate::model::lemma_units_binade(bits as nat, 11, 52, quad_bias());
                crate::model::lemma_units_binade(0, 15, 112, 963);
            }
            return 0;
        }
        let top = crate::codec::floor_log2(mantissa);
        proof {
            lemma_log2_bounds(mantissa as nat);
            if log2(mantissa as nat) >= 52 {
                lemma_pow2_strictly_increases(52, log2(mantissa as nat));
            }
            crate::bitfacts::lemma_u64_one_shl(top);
            lemma_pow2_pos((112 - top) as nat);
            lemma_pow2_adds(top as nat, (112 - top) as nat);
            lemma_pow2_unfold(top as nat + 1);
            vstd::arithmetic::mul::lemma_mul_strict_inequality((mantissa - pow2(top as nat)) as int, pow2(top as nat) as int, pow2((112 - top) as nat) as int);
            lemma_u128_shl_is_mul((mantissa - pow2(top as nat)) as u128, (112 - top) as u32);
        }
        let e128 = (top + 15309) as u128;
        let m128 = ((mantissa - (1u64 << top)) as u128) << (112 - top);
        proof {
            crate::model::lemma_rebias_subnormal(mantissa as nat, top as nat, 52, quad_bias(), 112, 963, e128 as nat, m128 as nat);
            lemma_f128_pattern(e128 as nat, m128 as nat);
            lemma_u128_shl_is_mul(e128, 112);
        }
        return (e128 << 112u32) + m128;
    }
    proof {
        lemma_pow2_pos(60);
        lemma_pow2_adds(52, 60);
        vstd::arithmetic::mul::lemma_mul_strict_inequality(mantissa as int, pow2(52) as int, pow2(60) as int);
        lemma_u128_shl_is_mul(mantissa as u128, 60);
    }
    let e128 = (exp + 15360) as u128;
    let m128 = (mantissa as u128) << 60u32;
    proof {
        crate::model::lemma_rebias_normal(exp as nat, mantissa as nat, 52, quad_bias(), 112, 963);
        lemma_f128_pattern(e128 as nat, m128 as nat);
        lemma_u128_shl_is_mul(e128, 112);
    }
    (e128 << 112u32) + m128
}

/// The binary128 bits are a NaN.
pub open spec fn f128_is_nan(x: nat) -> bool {
    exp_field(x, 15, 112) == 32767 && man_field(x, 112) != 0
}

/// The binary128 bits are an infinity of either sign.
pub open spec fn f128_is_infinite(x: nat) -> bool {
    exp_field(x, 15, 112) == 32767 && man_field(x, 112) == 0
}

/// The binary128 bits are a zero of either sign.
pub open spec fn f128_is_zero(x: nat) -> bool {
    exp_field(x, 15, 112) == 0 && man_field(x, 112) == 0
}

/// The binary128 bits are a number below zero.
pub open spec fn f128_is_negative(x: nat) -> bool {
    sign_bit(x, 15, 112) == 1 && !f128_is_zero(x) && !f128_is_nan(x)
}

/// Why a binary128 value is refused before it is encoded: NaN, an infinity, or a
/// negative number.
pub open spec fn f128_input_outcome(value: nat) -> Option<ConversionError> {
    if f128_is_nan(value) {
        Some(ConversionError::Nan)
    } else if f128_is_infinite(value) {
        Some(ConversionError::Infinite)
    } else if f128_is_negative(value) {
        Some(ConversionError::Negative)
    } else {
        None
    }
}

/// What a checked conversion of the binary128 value `value` refuses, given the 64-bit
/// pattern `encoded` that it encodes to: NaN, an infinity, a negative number, a value
/// that encodes to infinity, and a non-zero value that encodes to zero.
pub open spec fn quad_outcome(value: nat, encoded: nat) -> Option<ConversionError> {
    match f128_input_outcome(value) {
        Some(e) => Some(e),
        None => if encoded == inf_bits(11, 52) {
            Some(ConversionError::Overflow)
        } else if !f128_is_zero(value) && encoded == 0 {
            Some(ConversionError::Underflow)
        } else {
            None
        },
    }
}

/// Refuses NaN, infinities and negative numbers among binary128 values.
pub fn check_f128_input(value: u128) -> (r: Result<(), ConversionError>)
    ensures
        r == (match f128_input_outcome(value as nat) {
            Some(e) => Err(e),
            None => Ok(()),
        }),
{
    proof {
        lemma_f128_fields(value);
    }
    let sign = value >> 127u32;
    let exp = (value >> 112u32) & ((1u128 << 15u32) - 1);
    let fraction = value & ((1u128 << 112u32) - 1);
    if exp == 0x7fff {
        if fraction != 0 {
            return Err(ConversionError::Nan);
        }
        return Err(ConversionError::Infinite);
    }
    if sign != 0 && !(exp == 0 && fraction == 0) {
        return Err(ConversionError::Negative);
    }
    Ok(())
}

/// Whether the binary128 bits are a zero of either sign.
pub fn is_zero_f128(value: u128) -> (r: bool)
    ensures
        r == f128_is_zero(value as nat),
{
    proof {
        lemma_f128_fields(value);
    }
    let exp = (value >> 112u32) & ((1u128 << 15u32) - 1);
    let fraction = value & ((1u128 << 112u32) - 1);
    exp == 0 && fraction == 0
}

/// Converting a non-NaN 64-bit pattern with a clear top bit to binary128 and back
/// gives it unchanged.
pub proof fn lemma_f128_roundtrip(x: nat, r: nat)
    requires
        x < pow2(63),
        !is_nan_bits(x, 11, 52),
        is_f128_of(x, r),
    ensures
        encode_f128(r) == x,
{
    lemma2_to64();
    lemma2_to64_rest();
    lemma_pow2_adds(11, 52);
    crate::model::lemma_split(x, 11, 52);
    crate::model::lemma_classes(x, 11, 52);
    if is_inf_bits(x, 11, 52) {
        lemma_pow2_adds(15, 112);
        lemma_pow2_pos(112);
        crate::model::lemma_fields(32767, 0, 15, 112);
        assert(inf_bits(15, 112) < pow2(127)) by (nonlinear_arith)
            requires
                inf_bits(15, 112) == 32767 * pow2(112),
                pow2(127) == 32768 * pow2(112),
                pow2(112) > 0,
        ;
        vstd::arithmetic::div_mod::lemma_basic_div(inf_bits(15, 112) as int, pow2(127) as int);
    } else {
        crate::model::lemma_units_binade(x, 11, 52, quad_bias());
        crate::model::lemma_units_binade(r, 15, 112, 963);
        if units(x, 11, 52, quad_bias()) == 0 {
            assert(x == 0 * pow2(52) + 0);
        } else {
            crate::model::lemma_encode_units_roundtrip(x, 11, 52, quad_bias());
        }
    }
}

/// The binary64 bits of a binary128 value (given by its bits), as narrowing it to
/// binary64 gives them: the same sign, and the magnitude rounded to nearest with ties
/// to even, infinity once it leaves binary64's finite range (the canonical quiet NaN
/// for a NaN).
pub open spec fn narrow_f128(x: nat) -> nat {
    sign_bit(x, 15, 112) * pow2(63) + encode_float(x % pow2(127), 15, 112, 963, 11, 52, quad_bias())
}

/// Converting a non-NaN binary128 value with a clear sign bit to the 64-bit layout and
/// then to binary64 gives that value narrowed to binary64: the 64-bit layout is
/// binary64's own, so the conversion to binary64 changes no pattern it can produce.
pub proof fn lemma_f128_to_f64(x: nat)
    requires
        x < pow2(128),
        !is_nan_bits(x, 15, 112),
        sign_bit(x, 15, 112) == 0,
    ensures
        crate::model::decode_f64(encode_f128(x), 11, 52, 1023) == narrow_f128(x),
{
    lemma2_to64();
    lemma2_to64_rest();
    lemma_pow2_adds(15, 112);
    lemma_pow2_adds(11, 52);
    lemma_pow2_pos(52);
    lemma_pow2_pos(127);
    vstd::arithmetic::div_mod::lemma_fundamental_div_mod(x as int, pow2(127) as int);
    vstd::arithmetic::div_mod::lemma_mod_pos_bound(x as int, pow2(127) as int);
    assert(x < pow2(127));
    vstd::arithmetic::div_mod::lemma_small_mod(x, pow2(127));
    let t = encode_f128(x);
    assert(narrow_f128(x) == t);
    crate::model::lemma_fields(2047, 0, 11, 52);
    crate::model::lemma_fields(0, 0, 11, 52);
    assert(inf_bits(11, 52) == 2047 * pow2(52));
    if t != inf_bits(11, 52) && t != 0 {
        assert(exp_field(x, 15, 112) != max_exp(15));
        assert(!(exp_field(x, 15, 112) == 0 && man_field(x, 112) == 0));
        crate::model::lemma_units_binade(x, 15, 112, 963);
        let u = units(x, 15, 112, 963);
        assert(t == crate::model::round_bits(u, 52, quad_bias()));
        assert(t < 2047 * pow2(52));
        assert(crate::model::in_width(t, 11, 52)) by (nonlinear_arith)
            requires
                t < 2047 * pow2(52),
                pow2(11 + 52) == pow2(11) * pow2(52),
                pow2(11) == 2048,
                pow2(52) > 0,
        ;
        crate::model::lemma_split(t, 11, 52);
        assert(exp_field(t, 11, 52) < 2047) by (nonlinear_arith)
            requires
                t == exp_field(t, 11, 52) * pow2(52) + man_field(t, 52),
                t < 2047 * pow2(52),
                pow2(52) > 0,
        ;
        crate::model::lemma_encode_units_roundtrip(t, 11, 52, 1023);
    }
}

} // verus!
