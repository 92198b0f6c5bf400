//! Bit-level encoding and decoding between unsigned float layouts and IEEE binary64.
//!
//! Floating-point values cross this module as their binary64 bit patterns.
use vstd::prelude::*;
use vstd::std_specs::bits::u64_leading_zeros;
use vstd::arithmetic::power2::{pow2, lemma2_to64, lemma_pow2_pos, lemma_pow2_unfold};
use vstd::bits::lemma_u64_shl_is_mul;
use crate::model::{log2, rne, units, exp_field, man_field, max_exp, sub_shift, is_nan_bits, is_inf_bits, is_finite_bits, inf_bits, nan_bits, decodable, encodable, lemma_log2_bounds, lemma_fields, encode_f64, encode_value, round_bits, quantum, f64_sign, scaled_layout, lemma_log2_scaled, lemma_rne_exact, lemma_rne_scaled, lemma_rne_small, lemma_rne_binade, lemma_rne_below, decode_f64, lemma_split, lemma_encode_units_roundtrip};
use crate::bitfacts::{lemma_u128_shl_is_mul, lemma_u128_split, lemma_u128_one_shl, lemma_pow2_below_u128, lemma_u64_one_shl, lemma_u64_shl, lemma_u64_shr, lemma_u64_mask, lemma_u64_compose};
use vstd::arithmetic::power2::{lemma_pow2_adds, lemma_pow2_strictly_increases, lemma2_to64_rest};
use vstd::arithmetic::mul::{lemma_mul_strict_inequality, lemma_mul_is_associative};

verus! {

proof fn lemma_leading_zeros_log2(value: u64)
    requires
        value > 0,
    ensures
        u64_leading_zeros(value) == 63 - log2(value as nat),
    decreases value,
{
    reveal(u64_leading_zeros);
    if value >= 2 {
        lemma_leading_zeros_log2(value / 2);
    } else {
        assert(u64_leading_zeros(0) == 64);
    }
}

/// Index of the highest set bit of a non-zero value.
pub fn floor_log2(value: u64) -> (r: u32)
    requires
        value > 0,
    ensures
        r == log2(value as nat),
{
    proof {
        lemma_leading_zeros_log2(value);
    }
    u64::BITS - 1 - value.leading_zeros()
}

/// The mantissa bits that mark a NaN as quiet: the top mantissa bit, if there is one.
pub fn quiet_nan_payload(mantissa_bits: u32) -> (r: u64)
    requires
        mantissa_bits <= 64,
    ensures
        mantissa_bits == 0 ==> r == 0,
        mantissa_bits > 0 ==> r == pow2((mantissa_bits - 1) as nat),
{
    if mantissa_bits == 0 {
        0
    } else {
        proof {
            vstd::bits::lemma_u64_pow2_no_overflow((mantissa_bits - 1) as nat);
            lemma_u64_shl_is_mul(1, (mantissa_bits - 1) as u64);
        }
        1u64 << (mantissa_bits - 1)
    }
}

/// Multiplies `value` by `2^shift`: a left shift for a non-negative `shift`
/// (all ones once the shift reaches the word size), and for a negative one a
/// division rounded to nearest, ties to even (zero once the shift reaches the
/// word size).
pub fn round_shift(value: u128, shift: i32) -> (r: u128)
    requires
        shift != i32::MIN,
    ensures
        shift >= 128 ==> r == u128::MAX,
        0 <= shift < 128 ==> r == (value << (shift as u32)),
        0 <= shift < 128 && value * pow2(shift as nat) <= u128::MAX ==> r == value * pow2(shift as nat),
        -128 < shift < 0 ==> r == rne(value as nat, (-shift) as nat),
        shift <= -128 ==> r == 0,
{
    if shift >= 0 {
        let shift = shift as u32;
        if shift >= u128::BITS {
            return u128::MAX;
        }
        proof {
            if value * pow2(shift as nat) <= u128::MAX {
                lemma_u128_shl_is_mul(value, shift);
            }
        }
        return value << shift;
    }
    let shift = (-shift) as u32;
    if shift >= u128::BITS {
        return 0;
    }
    proof {
        lemma_u128_one_shl(shift);
        lemma_pow2_below_u128(shift as nat);
    }
    let quotient = value >> shift;
    let remainder_mask = (1u128 << shift) - 1;
    let remainder = value & remainder_mask;
    let halfway = 1u128 << (shift - 1);
    proof {
        lemma_u128_split(value, shift);
        lemma_u128_one_shl(shift);
        lemma_u128_one_shl((shift - 1) as u32);
        lemma_pow2_below_u128(shift as nat);
        lemma_pow2_unfold(shift as nat);
        assert(quotient & 1 == quotient % 2 && quotient <= u128::MAX / 2) by (bit_vector)
            requires
                quotient == value >> shift,
                1 <= shift < 128,
        ;
    }
    if remainder > halfway || (remainder == halfway && (quotient & 1) == 1) {
        quotient + 1
    } else {
        quotient
    }
}

/// The binary64 bits of positive infinity.
pub open spec fn f64_inf() -> nat {
    0x7ff0_0000_0000_0000
}

/// The binary64 bits of the canonical quiet NaN.
pub open spec fn f64_nan() -> nat {
    0x7ff8_0000_0000_0000
}

proof fn lemma_f64_constants()
    ensures
        pow2(52) == 0x10_0000_0000_0000,
        pow2(11) == 2048,
        inf_bits(11, 52) == f64_inf(),
        nan_bits(11, 52) == f64_nan(),
{
    lemma2_to64();
    lemma2_to64_rest();
}

/// The binary64 pattern `fe * 2^52 + fm` built for a subnormal mantissa `m` has the
/// value `m` subnormal steps.
proof fn lemma_decode_subnormal_value(m: nat, top: nat, mb: nat, bias: int, fe: nat, fm: nat)
    requires
        pow2(top) <= m,
        top < mb <= 52,
        bias + mb <= 1023,
        fe == top + 1024 - bias - mb,
        fm == (m - pow2(top)) * pow2((52 - top) as nat),
        m < pow2(top + 1),
    ensures
        fm < pow2(52),
        (pow2(52) + fm) * pow2((fe - 1) as nat) == m * pow2(sub_shift(mb, bias)),
{
    let pt = pow2(top);
    let pr = pow2((52 - top) as nat);
    lemma_pow2_adds(top, (52 - top) as nat);
    lemma_pow2_unfold(top + 1);
    lemma_pow2_pos((52 - top) as nat);
    lemma_mul_strict_inequality((m - pt) as int, pt as int, pr as int);
    assert(pow2(52) + fm == m * pr) by (nonlinear_arith)
        requires
            pow2(52) == pt * pr,
            fm == (m - pt) * pr,
            pt <= m,
    ;
    lemma_mul_is_associative(m as int, pr as int, pow2((fe - 1) as nat) as int);
    lemma_pow2_adds((52 - top) as nat, (fe - 1) as nat);
}

/// The binary64 pattern `fe * 2^52 + fm` built for a normal pattern with exponent `e`
/// and mantissa `m` has the same value.
proof fn lemma_decode_normal_value(e: nat, m: nat, mb: nat, bias: int, fe: nat, fm: nat)
    requires
        m < pow2(mb),
        1 <= mb <= 52,
        e >= 1,
        bias + mb <= 1023,
        fe == e - bias + 1023,
        fm == m * pow2((52 - mb) as nat),
    ensures
        fm < pow2(52),
        (pow2(52) + fm) * pow2((fe - 1) as nat) == (pow2(mb) + m) * pow2((e - 1 + sub_shift(mb, bias)) as nat),
{
    let pm = pow2(mb);
    let pr = pow2((52 - mb) as nat);
    lemma_pow2_adds(mb, (52 - mb) as nat);
    lemma_pow2_pos((52 - mb) as nat);
    lemma_mul_strict_inequality(m as int, pm as int, pr as int);
    assert(pow2(52) + fm == (pm + m) * pr) by (nonlinear_arith)
        requires
            pow2(52) == pm * pr,
            fm == m * pr,
    ;
    lemma_mul_is_associative((pm + m) as int, pr as int, pow2((fe - 1) as nat) as int);
    lemma_pow2_adds((52 - mb) as nat, (fe - 1) as nat);
}

/// A finite non-negative binary64 pattern with a finite pattern's value is that
/// pattern's decoding.
proof fn lemma_decoded(r: u64, bits: u64, eb: nat, mb: nat, bias: int)
    requires
        r < f64_inf(),
        is_finite_bits(bits as nat, eb, mb),
        units(r as nat, 11, 52, 1023) == units(bits as nat, eb, mb, bias),
    ensures
        r == decode_f64(bits as nat, eb, mb, bias),
{
    lemma_f64_constants();
    lemma2_to64_rest();
    lemma_pow2_adds(11, 52);
    lemma_split(r as nat, 11, 52);
    lemma_encode_units_roundtrip(r as nat, 11, 52, 1023);
}

/// Decodes a pattern of the layout `(exp_bits, mantissa_bits, bias)` into the binary64
/// bits of the same value, field by field; bits above the layout's width are ignored.
pub fn decode_to_f64(bits: u64, exp_bits: u32, mantissa_bits: u32, bias: i32) -> (r: u64)
    requires
        decodable(exp_bits as nat, mantissa_bits as nat, bias as int),
    ensures
        is_nan_bits(bits as nat, exp_bits as nat, mantissa_bits as nat) ==> r == f64_nan(),
        is_inf_bits(bits as nat, exp_bits as nat, mantissa_bits as nat) ==> r == f64_inf(),
        is_finite_bits(bits as nat, exp_bits as nat, mantissa_bits as nat) ==> r < f64_inf()
            && units(r as nat, 11, 52, 1023) == units(bits as nat, exp_bits as nat, mantissa_bits as nat, bias as int),
        r == decode_f64(bits as nat, exp_bits as nat, mantissa_bits as nat, bias as int),
{
    let ghost eb = exp_bits as nat;
    let ghost mb = mantissa_bits as nat;
    proof {
        lemma_u64_one_shl(exp_bits);
        lemma_u64_one_shl(mantissa_bits);
        lemma_u64_shr(bits, mantissa_bits);
        lemma_u64_mask(bits, mantissa_bits);
        lemma_u64_mask(bits >> mantissa_bits, exp_bits);
        lemma_f64_constants();
        lemma_pow2_pos(eb);
        lemma_pow2_pos(mb);
        if eb < 11 {
            lemma_pow2_strictly_increases(eb, 11);
        }
    }
    let exp_mask = (1u64 << exp_bits) - 1;
    let mantissa_mask = (1u64 << mantissa_bits) - 1;
    let exp = (bits >> mantissa_bits) & exp_mask;
    let mantissa = bits & mantissa_mask;
    assert(exp == exp_field(bits as nat, eb, mb));
    assert(mantissa == man_field(bits as nat, mb));
    proof {
        vstd::arithmetic::div_mod::lemma_mod_pos_bound(bits as int, pow2(mb) as int);
        vstd::arithmetic::div_mod::lemma_mod_pos_bound((bits as nat / pow2(mb)) as int, pow2(eb) as int);
    }

    if exp == exp_mask {
        return if mantissa == 0 {
            0x7ff0_0000_0000_0000
        } else {
            0x7ff8_0000_0000_0000
        };
    }

    if exp == 0 {
        if mantissa == 0 {
            proof {
                lemma_fields(0, 0, 11, 52);
                lemma_decoded(0, bits, eb, mb, bias as int);
            }
            return 0;
        }

        let top = floor_log2(mantissa);
        proof {
            lemma_log2_bounds(mantissa as nat);
            if top as nat >= mb {
                if mb < top as nat {
                    lemma_pow2_strictly_increases(mb, top as nat);
                }
            }
            lemma_u64_one_shl(top);
            lemma_pow2_adds(top as nat, (52 - top) as nat);
            lemma_pow2_unfold(top as nat + 1);
            lemma_pow2_pos((52 - top) as nat);
            lemma_mul_strict_inequality((mantissa - pow2(top as nat)) as int, pow2(top as nat) as int, pow2((52 - top) as nat) as int);
        }
        let unbiased = top as i32 + 1 - bias - mantissa_bits as i32;
        let f64_exp = (unbiased + 1023) as u64;
        proof {
            lemma_u64_shl((mantissa - (1u64 << top)) as u64, (52 - top) as u32);
        }
        let f64_mantissa = (mantissa - (1u64 << top)) << (52 - top);
        proof {
            lemma_decode_subnormal_value(mantissa as nat, top as nat, mb, bias as int, f64_exp as nat, f64_mantissa as nat);
            lemma_u64_compose(f64_exp, f64_mantissa, 52);
            lemma_fields(f64_exp as nat, f64_mantissa as nat, 11, 52);
            lemma_decoded(((f64_exp << 52) | f64_mantissa), bits, eb, mb, bias as int);
        }
        return (f64_exp << 52) | f64_mantissa;
    }

    let unbiased = exp as i32 - bias;
    let f64_exp = (unbiased + 1023) as u64;
    proof {
        lemma_pow2_adds(mb, (52 - mb) as nat);
        lemma_pow2_pos((52 - mb) as nat);
        lemma_mul_strict_inequality(mantissa as int, pow2(mb) as int, pow2((52 - mb) as nat) as int);
        lemma_u64_shl(mantissa, (52 - mantissa_bits) as u32);
    }
    let f64_mantissa = mantissa << (52 - mantissa_bits);
    proof {
        lemma_decode_normal_value(exp as nat, mantissa as nat, mb, bias as int, f64_exp as nat, f64_mantissa as nat);
        lemma_u64_compose(f64_exp, f64_mantissa, 52);
        lemma_fields(f64_exp as nat, f64_mantissa as nat, 11, 52);
        lemma_decoded(((f64_exp << 52) | f64_mantissa), bits, eb, mb, bias as int);
    }
    (f64_exp << 52) | f64_mantissa
}

/// How the fields of a binary64 pattern read with shifts and masks.
pub(crate) proof fn lemma_f64_fields(bits: u64)
    ensures
        (bits >> 63u32) == f64_sign(bits as nat),
        f64_sign(bits as nat) <= 1,
        ((bits >> 52u32) & 0x7ff) == exp_field(bits as nat, 11, 52),
        (bits & (((1u64 << 52u32) - 1) as u64)) == man_field(bits as nat, 52),
        ((bits << 1u32) == 0) == (exp_field(bits as nat, 11, 52) == 0 && man_field(bits as nat, 52) == 0),
        man_field(bits as nat, 52) < pow2(52),
        exp_field(bits as nat, 11, 52) < 2048,
{
    lemma_f64_constants();
    lemma_u64_shr(bits, 63);
    lemma_u64_shr(bits, 52);
    lemma_u64_mask(bits >> 52u32, 11);
    lemma_u64_mask(bits, 52);
    lemma_u64_one_shl(63);
    lemma_u64_one_shl(52);
    assert((bits >> 63u32) <= 1 && 0x7ffu64 == (((1u64 << 11u32) - 1) as u64)
        && ((bits << 1u32) == 0) == (((bits >> 52u32) & 0x7ff) == 0 && (bits & (((1u64 << 52u32) - 1) as u64)) == 0)) by (bit_vector);
    vstd::arithmetic::div_mod::lemma_mod_pos_bound(bits as int, pow2(52) as int);
    vstd::arithmetic::div_mod::lemma_mod_pos_bound((bits as nat / pow2(52)) as int, 2048);
}

/// Above the largest finite binade the rounded pattern is at least infinity.
pub proof fn lemma_encode_overflow(u: nat, eb: nat, mb: nat, bias: int)
    requires
        scaled_layout(eb, mb, bias),
        u >= 1,
        log2(u) + bias >= max_exp(eb) + 1074,
    ensures
        encode_value(u, eb, mb, bias) == inf_bits(eb, mb),
{
    let s = sub_shift(mb, bias);
    lemma2_to64();
    lemma_pow2_unfold(eb);
    if eb > 1 {
            lemma_pow2_strictly_increases(1, eb);
        }
    let q = quantum(u, mb, bias);
    assert(q == log2(u) - mb);
    lemma_log2_bounds(u);
    assert(q + mb == log2(u));
    lemma_rne_binade(u, q, mb);
    let n = rne(u, q);
    let k = (q - s) as nat;
    assert(k + 1 >= max_exp(eb));
    lemma_pow2_pos(mb);
    assert(k * pow2(mb) + n >= max_exp(eb) * pow2(mb)) by (nonlinear_arith)
        requires
            k + 1 >= max_exp(eb),
            n >= pow2(mb),
    ;
}

/// In the subnormal range the exact scaled significand fits below `2^mb`.
pub(crate) proof fn lemma_subnormal_bounds(sig: nat, a: nat, mb: nat, bias: int)
    requires
        scaled_layout(2, mb, bias),
        sig >= 1,
        log2(sig * pow2(a)) < mb + sub_shift(mb, bias),
    ensures
        a >= sub_shift(mb, bias) ==> sig * pow2((a - sub_shift(mb, bias)) as nat) < pow2(mb),
        pow2(mb) <= u128::MAX,
{
    let s = sub_shift(mb, bias);
    let u = sig * pow2(a);
    lemma_pow2_pos(a);
    assert(u >= 1) by (nonlinear_arith)
        requires
            u == sig * pow2(a),
            sig >= 1,
            pow2(a) >= 1,
    ;
    lemma_log2_bounds(u);
    if log2(u) + 1 < s + mb {
        lemma_pow2_strictly_increases(log2(u) + 1, s + mb);
    }
    lemma_pow2_strictly_increases(mb, 64);
    lemma2_to64_rest();
    if a >= s {
        let sh = (a - s) as nat;
        lemma_pow2_adds(sh, s);
        lemma_pow2_adds(mb, s);
        lemma_pow2_pos(s);
        lemma_mul_is_associative(sig as int, pow2(sh) as int, pow2(s) as int);
        assert(sig * pow2(sh) < pow2(mb)) by (nonlinear_arith)
            requires
                (sig * pow2(sh)) * pow2(s) < pow2(mb) * pow2(s),
                pow2(s) > 0,
        ;
    }
}

/// In the subnormal range the shifted significand is the rounded pattern.
pub(crate) proof fn lemma_subnormal_round(sig: nat, a: nat, mb: nat, bias: int, sh: int, rounded: nat)
    requires
        scaled_layout(2, mb, bias),
        1 <= sig < pow2(113),
        log2(sig * pow2(a)) < mb + sub_shift(mb, bias),
        sh == a - sub_shift(mb, bias),
        sh >= 0 ==> rounded == sig * pow2(sh as nat),
        -128 < sh < 0 ==> rounded == rne(sig, (-sh) as nat),
        sh <= -128 ==> rounded == 0,
    ensures
        rounded == rne(sig * pow2(a), sub_shift(mb, bias)),
        rounded == round_bits(sig * pow2(a), mb, bias),
        rounded <= pow2(mb),
{
    let s = sub_shift(mb, bias);
    let u = sig * pow2(a);
    lemma_pow2_pos(a);
    assert(u >= 1) by (nonlinear_arith)
        requires
            u == sig * pow2(a),
            sig >= 1,
            pow2(a) >= 1,
    ;
    lemma_log2_bounds(u);
    if log2(u) + 1 < s + mb {
        lemma_pow2_strictly_increases(log2(u) + 1, s + mb);
    }
    assert(u < pow2(s + mb));
    lemma_rne_below(u, s, mb);
    assert(quantum(u, mb, bias) == s);
    if sh >= 0 {
        let k = sh as nat;
        lemma_pow2_adds(k, s);
        lemma_mul_is_associative(sig as int, pow2(k) as int, pow2(s) as int);
        lemma_rne_exact(sig * pow2(k), s);
    } else {
        let k = (s - a) as nat;
        lemma_rne_scaled(sig, a, k);
        if sh <= -128 {
            lemma_pow2_unfold(114);
            lemma_pow2_strictly_increases(114, k);
            lemma_rne_small(sig, k);
        }
    }
    assert(round_bits(u, mb, bias) == 0 * pow2(mb) + rne(u, s));
}

/// In the normal range an exactly shifted significand stays below `2^(mb+1)`.
pub(crate) proof fn lemma_normal_bounds(sig: nat, a: nat, mb: nat, bias: int)
    requires
        scaled_layout(2, mb, bias),
        1 <= sig,
        log2(sig) <= 112,
    ensures
        log2(sig) <= mb ==> sig * pow2((mb - log2(sig)) as nat) < pow2(mb + 1),
        pow2(mb + 1) <= u128::MAX,
{
    lemma_log2_bounds(sig);
    lemma_pow2_strictly_increases(mb + 1, 64);
    lemma2_to64_rest();
    if log2(sig) <= mb {
        let sh = (mb - log2(sig)) as nat;
        lemma_pow2_adds(log2(sig) + 1, sh);
        lemma_pow2_pos(sh);
        lemma_mul_strict_inequality(sig as int, pow2(log2(sig) + 1) as int, pow2(sh) as int);
    }
}

/// In the normal range the rounded significand is the rounding at the binade's step.
pub(crate) proof fn lemma_normal_round(sig: nat, a: nat, mb: nat, bias: int, sh: int, rounded: nat)
    requires
        scaled_layout(2, mb, bias),
        1 <= sig,
        log2(sig) <= 112,
        log2(sig * pow2(a)) >= mb + sub_shift(mb, bias),
        sh == mb - log2(sig),
        sh >= 0 ==> rounded == sig * pow2(sh as nat),
        sh < 0 ==> rounded == rne(sig, (-sh) as nat),
    ensures
        quantum(sig * pow2(a), mb, bias) == log2(sig) + a - mb,
        rounded == rne(sig * pow2(a), quantum(sig * pow2(a), mb, bias)),
        pow2(mb) <= rounded <= pow2(mb + 1),
{
    let u = sig * pow2(a);
    lemma_log2_scaled(sig, a);
    let q = quantum(u, mb, bias);
    assert(q == log2(u) - mb);
    lemma_pow2_pos(a);
    lemma_log2_bounds(u);
    lemma_rne_binade(u, q, mb);
    if sh >= 0 {
        let k = sh as nat;
        assert(a == q + k);
        lemma_pow2_adds(k, q);
        lemma_mul_is_associative(sig as int, pow2(k) as int, pow2(q) as int);
        lemma_rne_exact(sig * pow2(k), q);
    } else {
        let k = (-sh) as nat;
        assert(q == k + a);
        lemma_rne_scaled(sig, a, k);
    }
}

/// In the normal range the rounded pattern is `biased * 2^mb` plus the stored mantissa.
pub(crate) proof fn lemma_normal_pattern(u: nat, mb: nat, bias: int, scale: int, vu: int, biased: int, rounded: nat)
    requires
        scaled_layout(2, mb, bias),
        u >= 1,
        log2(u) == vu + scale,
        log2(u) >= mb + sub_shift(mb, bias),
        pow2(mb) <= rne(u, quantum(u, mb, bias)) <= pow2(mb + 1),
        pow2(mb + 1) == 2 * pow2(mb),
        rne(u, quantum(u, mb, bias)) == pow2(mb + 1) ==> (biased == vu + bias + scale - 1074 + 1 && rounded == pow2(mb)),
        rne(u, quantum(u, mb, bias)) != pow2(mb + 1) ==> (biased == vu + bias + scale - 1074 && rounded == rne(u, quantum(u, mb, bias))),
    ensures
        pow2(mb) <= rounded < pow2(mb + 1),
        biased >= 1,
        round_bits(u, mb, bias) == biased * pow2(mb) + (rounded - pow2(mb)),
{
    let q = quantum(u, mb, bias);
    let s = sub_shift(mb, bias);
    let n = rne(u, q);
    let p = pow2(mb);
    lemma_pow2_pos(mb);
    assert(q - s == vu + bias + scale - 1075);
    let k = (q - s) as nat;
    assert(round_bits(u, mb, bias) == k * p + n);
    assert(k * p + n == biased * p + (rounded - p)) by (nonlinear_arith)
        requires
            k == vu + bias + scale - 1075,
            n == 2 * p ==> (biased == vu + bias + scale - 1074 + 1 && rounded == p),
            n != 2 * p ==> (biased == vu + bias + scale - 1074 && rounded == n),
    ;
}

/// Encodes the positive finite value `significand * 2^exponent` (a binary64 number
/// split into its integer significand and exponent) into the layout.
#[verifier::rlimit(40)]
pub(crate) fn encode_finite(significand: u64, exponent: i32, max_exp: u64, exp_bits: u32, mantissa_bits: u32, bias: i32) -> (r: u64)
    requires
        encodable(exp_bits as nat, mantissa_bits as nat, bias as int),
        0 < significand < pow2(53),
        -1074 <= exponent <= 971,
        max_exp == crate::model::max_exp(exp_bits as nat),
    ensures
        r == encode_value(significand as nat * pow2((exponent + 1074) as nat), exp_bits as nat, mantissa_bits as nat, bias as int),
{
    let ghost eb = exp_bits as nat;
    let ghost mb = mantissa_bits as nat;
    let ghost s = sub_shift(mb, bias as int);
    let ghost a: nat = (exponent + 1074) as nat;
    let ghost u: nat = significand as nat * pow2(a);
    proof {
        lemma_u64_one_shl(exp_bits);
        lemma_u64_one_shl(mantissa_bits);
        lemma_pow2_pos(eb);
        lemma_pow2_pos(mb);
        lemma_pow2_pos(a);
        lemma_pow2_adds(eb, mb);
        if eb + mb < 63 {
            lemma_pow2_strictly_increases(eb + mb, 63);
        }
        lemma2_to64_rest();
        lemma_pow2_unfold(eb);
        if eb > 1 {
            lemma_pow2_strictly_increases(1, eb);
        }
        lemma2_to64();
        assert(max_exp * pow2(mb) < pow2(eb) * pow2(mb)) by (nonlinear_arith)
            requires
                max_exp < pow2(eb),
                pow2(mb) > 0,
        ;
        lemma_u64_shl(max_exp, mantissa_bits);
        assert(u >= 1) by (nonlinear_arith)
            requires
                u == significand * pow2(a),
                significand >= 1,
                pow2(a) >= 1,
        ;
    }
    assert((max_exp << mantissa_bits) == inf_bits(eb, mb));
    let max_finite_unbiased = max_exp as i32 - 1 - bias;
    let min_normal_unbiased = 1 - bias;
    let top = floor_log2(significand);
    proof {
        lemma_log2_bounds(significand as nat);
        if log2(significand as nat) >= 64 {
            lemma_pow2_strictly_increases(64, log2(significand as nat));
        }
    }
    let value_unbiased = top as i32 + exponent;
    proof {
        lemma_log2_scaled(significand as nat, a);
        lemma_log2_bounds(u);
        lemma_log2_bounds(significand as nat);
        assert(log2(u) == value_unbiased + 1074);
    }

    if value_unbiased > max_finite_unbiased {
        proof {
            lemma_encode_overflow(u, eb, mb, bias as int);
        }
        return max_exp << mantissa_bits;
    }

    if value_unbiased < min_normal_unbiased {
        let scale = min_normal_unbiased - mantissa_bits as i32;
        proof {
            lemma_subnormal_bounds(significand as nat, a, mb, bias as int);
            lemma_pow2_strictly_increases(53, 113);
        }
        let rounded = round_shift(significand as u128, exponent - scale);
        proof {
            lemma_subnormal_round(significand as nat, a, mb, bias as int, (exponent - scale) as int, rounded as nat);
            lemma_u128_one_shl(mantissa_bits);
            assert(pow2(mb) <= inf_bits(eb, mb)) by (nonlinear_arith)
                requires
                    inf_bits(eb, mb) == max_exp * pow2(mb),
                    max_exp >= 1,
                    pow2(mb) > 0,
            ;
        }

        if rounded == 0 {
            return 0;
        }

        if rounded >= (1u128 << mantissa_bits) {
            return 1u64 << mantissa_bits;
        }

        return rounded as u64;
    }

    let mut unbiased = value_unbiased;
    let shift = mantissa_bits as i32 - top as i32;
    proof {
        lemma_normal_bounds(significand as nat, a, mb, bias as int);
    }
    let mut rounded = round_shift(significand as u128, shift);
    let ghost q = quantum(u, mb, bias as int);
    proof {
        lemma_normal_round(significand as nat, a, mb, bias as int, shift as int, rounded as nat);
        lemma_u128_one_shl((mantissa_bits + 1) as u32);
        lemma_u128_one_shl(mantissa_bits);
        lemma_pow2_unfold(mb + 1);
    }

    if rounded == (1u128 << (mantissa_bits + 1)) {
        proof {
            assert(rounded >> 1u32 == rounded / 2) by (bit_vector);
        }
        rounded = rounded >> 1u32;
        unbiased = unbiased + 1;
    }
    let biased = unbiased + bias;
    proof {
        lemma_normal_pattern(u, mb, bias as int, 1074, value_unbiased as int, biased as int, rounded as nat);
        let m = (rounded - pow2(mb)) as nat;
        assert((biased >= max_exp) == (biased * pow2(mb) + m >= max_exp * pow2(mb))) by (nonlinear_arith)
            requires
                m < pow2(mb),
                pow2(mb) > 0,
        ;
    }
    if biased >= max_exp as i32 {
        return max_exp << mantissa_bits;
    }

    let mantissa = (rounded - (1u128 << mantissa_bits)) as u64;
    proof {
        assert(biased * pow2(mb) + mantissa < pow2(eb) * pow2(mb)) by (nonlinear_arith)
            requires
                biased < pow2(eb) - 1,
                mantissa < pow2(mb),
                pow2(mb) > 0,
        ;
        lemma_u64_compose(biased as u64, mantissa, mantissa_bits);
    }
    ((biased as u64) << mantissa_bits) | mantissa
}

/// Encodes the binary64 value with bits `value` into the layout
/// `(exp_bits, mantissa_bits, bias)`: rounded to nearest with ties to even, infinity
/// once the rounded value leaves the finite range, zero for either zero, and the
/// layout's quiet NaN for NaN, negative infinity and every negative number.
#[verifier::rlimit(60)]
pub fn encode_from_f64(value: u64, exp_bits: u32, mantissa_bits: u32, bias: i32) -> (r: u64)
    requires
        encodable(exp_bits as nat, mantissa_bits as nat, bias as int),
    ensures
        r == encode_f64(value as nat, exp_bits as nat, mantissa_bits as nat, bias as int),
{
    let ghost eb = exp_bits as nat;
    let ghost mb = mantissa_bits as nat;
    let ghost s = sub_shift(mb, bias as int);
    proof {
        lemma_f64_fields(value);
        lemma_u64_one_shl(exp_bits);
        lemma_u64_one_shl(mantissa_bits);
        lemma_pow2_pos(eb);
        lemma_pow2_pos(mb);
        lemma_pow2_adds(eb, mb);
        if eb + mb < 63 {
            lemma_pow2_strictly_increases(eb + mb, 63);
        }
        lemma2_to64_rest();
        lemma_pow2_unfold(eb);
        if eb > 1 {
            lemma_pow2_strictly_increases(1, eb);
        }
        lemma2_to64();
        lemma_u64_one_shl(52);
    }
    let bits = value;
    let sign = bits >> 63u32;
    let f64_exp = ((bits >> 52u32) & 0x7ff) as i32;
    let f64_fraction = bits & ((1u64 << 52u32) - 1);
    let max_exp = (1u64 << exp_bits) - 1;
    proof {
        assert(max_exp * pow2(mb) < pow2(eb) * pow2(mb)) by (nonlinear_arith)
            requires
                max_exp < pow2(eb),
                pow2(mb) > 0,
        ;
        lemma_u64_shl(max_exp, mantissa_bits);
        lemma_u64_compose(max_exp, pow2((mb - 1) as nat) as u64, mantissa_bits);
        lemma_pow2_strictly_increases((mb - 1) as nat, mb);
    }
    let quiet_nan = (max_exp << mantissa_bits) | quiet_nan_payload(mantissa_bits);
    assert(quiet_nan == nan_bits(eb, mb));
    assert((max_exp << mantissa_bits) == inf_bits(eb, mb));

    if f64_exp == 0x7ff {
        return if f64_fraction == 0 && sign == 0 {
            max_exp << mantissa_bits
        } else {
            quiet_nan
        };
    }

    if (bits << 1u32) == 0 {
        return 0;
    }

    if sign != 0 {
        return quiet_nan;
    }

    let ghost u = units(value as nat, 11, 52, 1023);
    let (significand, exponent) = if f64_exp == 0 {
        (f64_fraction, 1 - 1023 - 52)
    } else {
        proof {
            lemma_u64_compose(1, f64_fraction, 52);
        }
        ((1u64 << 52u32) | f64_fraction, f64_exp - 1023 - 52)
    };
    let ghost a: nat = (exponent + 1074) as nat;
    proof {
        assert(sub_shift(52, 1023) == 0);
        if f64_exp == 0 {
            assert(u == f64_fraction * pow2(0));
        } else {
            assert(u == (pow2(52) + f64_fraction) * pow2((f64_exp - 1) as nat));
        }
        assert(u == significand * pow2(a));
    }

    if significand == 0 {
        return 0;
    }

    proof {
        assert(significand < pow2(53)) by {
            lemma_pow2_unfold(53);
        }
    }
    encode_finite(significand, exponent, max_exp, exp_bits, mantissa_bits, bias)
}


} // verus!
