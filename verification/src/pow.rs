//! Choosing how to raise a native float to an unsigned-float exponent.
//!
//! The exponent arrives as the IEEE bits of its native value; the power itself is
//! computed on native floats by the caller, with the kernel chosen here.
use vstd::prelude::*;
use vstd::arithmetic::power2::{pow2, lemma2_to64, lemma2_to64_rest, lemma_pow2_adds, lemma_pow2_pos, lemma_pow2_strictly_increases};
use crate::bitfacts::{lemma_u64_shr, lemma_u64_mask, lemma_u64_one_shl};
use crate::model::{units, exp_field, man_field, sign_bit, is_finite_bits, in_width, lemma_units_binade, lemma_units_strictly_increasing, lemma_fields};
use crate::bitfacts::lemma_u64_shl;

verus! {

/// How to compute `base^exponent`.
#[derive(Clone, Copy, Debug, PartialEq, Eq, Structural)]
pub enum PowKernel {
    /// The result is one (the exponent is zero).
    One,
    /// The result is the base (the exponent is one).
    Base,
    /// The result is the square root of the base (the exponent is one half).
    Sqrt,
    /// The result is the base multiplied by itself this many times (the exponent is
    /// an integer from 2 to 32).
    Powi(u32),
    /// Any other exponent: a general power function.
    General,
}

/// The signed IEEE pattern `x` of the format `(eb, mb, bias)` is the non-negative
/// finite number `u` (in steps of `2^-1074`).
pub open spec fn float_is(x: nat, eb: nat, mb: nat, bias: int, u: nat) -> bool {
    sign_bit(x, eb, mb) == 0 && is_finite_bits(x, eb, mb) && units(x, eb, mb, bias) == u
}

/// The pattern is the non-negative integer `k`.
pub open spec fn float_is_integer(x: nat, eb: nat, mb: nat, bias: int, k: nat) -> bool {
    float_is(x, eb, mb, bias, k * pow2(1074))
}

/// `r` is the integer from 2 to 32 that the pattern is, or `None` where it is none
/// of them.
pub open spec fn small_integer_of(x: nat, eb: nat, mb: nat, bias: int, r: Option<u32>) -> bool {
    match r {
        Some(k) => 2 <= k <= 32 && float_is_integer(x, eb, mb, bias, k as nat),
        None => forall|k: nat| 2 <= k <= 32 ==> !#[trigger] float_is_integer(x, eb, mb, bias, k),
    }
}

/// The pattern is a zero of either sign.
pub open spec fn float_is_zero(x: nat, eb: nat, mb: nat) -> bool {
    exp_field(x, eb, mb) == 0 && man_field(x, mb) == 0
}

/// The kernel for the exponent with IEEE bits `x` of the format `(eb, mb, bias)`: one
/// for a zero, the base for one, the square root for one half, repeated
/// multiplication for the integers 2 to 32, and the general power otherwise.
pub open spec fn kernel_for(x: nat, eb: nat, mb: nat, bias: int) -> PowKernel {
    if float_is_zero(x, eb, mb) {
        PowKernel::One
    } else if float_is(x, eb, mb, bias, pow2(1074)) {
        PowKernel::Base
    } else if float_is(x, eb, mb, bias, pow2(1073)) {
        PowKernel::Sqrt
    } else if exists|k: nat| 2 <= k <= 32 && #[trigger] float_is_integer(x, eb, mb, bias, k) {
        PowKernel::Powi((choose|k: nat| 2 <= k <= 32 && #[trigger] float_is_integer(x, eb, mb, bias, k)) as u32)
    } else {
        PowKernel::General
    }
}

/// A signed pattern with a clear sign bit is within its format's width.
proof fn lemma_unsigned_in_width(x: nat, eb: nat, mb: nat)
    requires
        sign_bit(x, eb, mb) == 0,
    ensures
        in_width(x, eb, mb),
{
    lemma_pow2_pos(eb + mb);
    vstd::arithmetic::div_mod::lemma_fundamental_div_mod(x as int, pow2(eb + mb) as int);
    vstd::arithmetic::div_mod::lemma_mod_pos_bound(x as int, pow2(eb + mb) as int);
}

/// Two non-negative finite patterns with the same value are the same pattern.
proof fn lemma_float_is_unique(x: nat, y: nat, eb: nat, mb: nat, bias: int, u: nat)
    requires
        bias + mb <= 1075,
        float_is(x, eb, mb, bias, u),
        float_is(y, eb, mb, bias, u),
    ensures
        x == y,
{
    lemma_unsigned_in_width(x, eb, mb);
    lemma_unsigned_in_width(y, eb, mb);
    if x < y {
        lemma_units_strictly_increasing(x, y, eb, mb, bias);
    } else if y < x {
        lemma_units_strictly_increasing(y, x, eb, mb, bias);
    }
}

/// For a normal pattern with exponent field `e` and the significand `2^mb + m`, the
/// value is the integer `k` exactly when `k * 2^(mb + bias - e) == 2^mb + m`.
proof fn lemma_integer_value(x: nat, eb: nat, mb: nat, bias: int, k: nat)
    requires
        bias + mb <= 1075,
        exp_field(x, eb, mb) >= 1,
        exp_field(x, eb, mb) <= mb + bias,
    ensures
        ({
            let e = exp_field(x, eb, mb);
            let sig = pow2(mb) + man_field(x, mb);
            let sh = (mb + bias - e) as nat;
            (units(x, eb, mb, bias) == k * pow2(1074)) == (sig == k * pow2(sh))
        }),
{
    let e = exp_field(x, eb, mb);
    let sig = pow2(mb) + man_field(x, mb);
    let sh = (mb + bias - e) as nat;
    let t = (e - 1 + 1075 - bias - mb) as nat;
    assert(t + sh == 1074);
    lemma_pow2_adds(t, sh);
    lemma_pow2_pos(t);
    vstd::arithmetic::mul::lemma_mul_is_associative(k as int, pow2(sh) as int, pow2(t) as int);
    assert((sig * pow2(t) == (k * pow2(sh)) * pow2(t)) == (sig == k * pow2(sh))) by (nonlinear_arith)
        requires
            pow2(t) > 0,
    ;
}

/// A pattern whose value is an integer from 2 to 32 has an exponent field from
/// `bias + 1` to `bias + 5`.
proof fn lemma_small_integer_binade(x: nat, eb: nat, mb: nat, bias: int, k: nat)
    requires
        0 <= bias,
        bias + mb <= 1075,
        2 <= k <= 32,
        units(x, eb, mb, bias) == k * pow2(1074),
    ensures
        bias + 1 <= exp_field(x, eb, mb) <= bias + 5,
{
    lemma_units_binade(x, eb, mb, bias);
    let e = exp_field(x, eb, mb);
    let u = units(x, eb, mb, bias);
    lemma2_to64();
    lemma_pow2_adds(1, 1074);
    lemma_pow2_adds(5, 1074);
    lemma_pow2_pos(1074);
    vstd::arithmetic::mul::lemma_mul_inequality(2, k as int, pow2(1074) as int);
    vstd::arithmetic::mul::lemma_mul_inequality(k as int, 32, pow2(1074) as int);
    assert(pow2(1075) <= u <= pow2(1079));
    if e == 0 {
        if 1075 - bias < 1075 {
            lemma_pow2_strictly_increases((1075 - bias) as nat, 1075);
        }
    } else {
        let lo = (e - 1 + 1075 - bias) as nat;
        let hi = (e + 1075 - bias) as nat;
        assert(pow2(lo) <= u < pow2(hi));
        if lo > 1079 {
            lemma_pow2_strictly_increases(1079, lo);
        }
        if hi < 1075 {
            lemma_pow2_strictly_increases(hi, 1075);
        }
    }
}

/// The integer from 2 to 32 that the signed pattern `x` of the format `(eb, mb, bias)` is.
fn small_integer_exponent(x: u64, eb: u32, mb: u32, bias: u64) -> (r: Option<u32>)
    requires
        1 <= eb <= 11,
        5 <= mb <= 52,
        bias + mb <= 1075,
        bias + 6 < pow2(eb as nat),
    ensures
        small_integer_of(x as nat, eb as nat, mb as nat, bias as int, r),
{
    proof {
        lemma_u64_shr(x, (eb + mb) as u32);
        lemma_u64_shr(x, mb);
        lemma_u64_mask(x >> mb, eb);
        lemma_u64_mask(x, mb);
        lemma_u64_one_shl(mb);
        lemma_u64_one_shl(eb);
        lemma_pow2_pos(mb as nat);
    }
    let sign = x >> (eb + mb);
    let e = (x >> mb) & ((1u64 << eb) - 1);
    let m = x & ((1u64 << mb) - 1);
    let ghost xs = x as nat;
    let ghost b = bias as int;
    if sign != 0 || e < bias + 1 || e > bias + 5 {
        proof {
            assert forall|k: nat| 2 <= k <= 32 implies !#[trigger] float_is_integer(xs, eb as nat, mb as nat, b, k) by {
                if float_is_integer(xs, eb as nat, mb as nat, b, k) {
                    lemma_small_integer_binade(xs, eb as nat, mb as nat, b, k);
                }
            }
        }
        return None;
    }
    let sh: u32 = (mb as u64 + bias - e) as u32;
    let sig = m + (1u64 << mb);
    proof {
        vstd::arithmetic::div_mod::lemma_mod_pos_bound(xs as int, pow2(mb as nat) as int);
        lemma_pow2_strictly_increases(mb as nat, 53);
        lemma2_to64_rest();
        lemma_u64_shr(sig, sh);
        lemma_u64_mask(sig, sh);
        lemma_u64_one_shl(sh);
        lemma_pow2_pos(sh as nat);
        lemma_integer_value(xs, eb as nat, mb as nat, b, 0);
    }
    let k = sig >> sh;
    let rem = sig & ((1u64 << sh) - 1);
    let ghost p = pow2(sh as nat);
    proof {
        lemma_pow2_pos(sh as nat);
        vstd::arithmetic::div_mod::lemma_fundamental_div_mod(sig as int, p as int);
    }
    if k < 2 || k > 32 || rem != 0 {
        proof {
            assert forall|j: nat| 2 <= j <= 32 implies !#[trigger] float_is_integer(xs, eb as nat, mb as nat, b, j) by {
                if float_is_integer(xs, eb as nat, mb as nat, b, j) {
                    lemma_integer_value(xs, eb as nat, mb as nat, b, j);
                    assert(sig == j * p);
                    vstd::arithmetic::div_mod::lemma_fundamental_div_mod_converse(sig as int, p as int, j as int, 0);
                }
            }
        }
        return None;
    }
    proof {
        lemma_integer_value(xs, eb as nat, mb as nat, b, k as nat);
        vstd::arithmetic::mul::lemma_mul_is_commutative(p as int, k as int);
    }
    Some(k as u32)
}

/// The pattern `e * 2^mb` of a normal exponent field `e` is the power of two
/// `2^(e - bias)`, that is `2^(e - 1 + 1075 - bias)` units.
proof fn lemma_power_of_two_pattern(e: nat, eb: nat, mb: nat, bias: int)
    requires
        1 <= e,
        e + 1 < pow2(eb),
        bias + mb <= 1075,
    ensures
        float_is(e * pow2(mb), eb, mb, bias, pow2((e - 1 + 1075 - bias) as nat)),
{
    lemma_pow2_pos(mb);
    lemma_pow2_pos(eb);
    lemma_fields(e, 0, eb, mb);
    lemma_pow2_adds(eb, mb);
    vstd::arithmetic::mul::lemma_mul_strict_inequality(e as int, pow2(eb) as int, pow2(mb) as int);
    vstd::arithmetic::div_mod::lemma_basic_div((e * pow2(mb)) as int, pow2(eb + mb) as int);
    lemma_pow2_adds(mb, (e - 1 + 1075 - bias - mb) as nat);
}

/// The kernel for the signed pattern `x` of the format `(eb, mb, bias)`.
fn pow_kernel(x: u64, eb: u32, mb: u32, bias: u64) -> (r: PowKernel)
    requires
        1 <= eb <= 11,
        5 <= mb <= 52,
        2 <= bias,
        bias + mb <= 1075,
        bias + 6 < pow2(eb as nat),
    ensures
        r == kernel_for(x as nat, eb as nat, mb as nat, bias as int),
{
    let ghost xs = x as nat;
    let ghost b = bias as int;
    proof {
        lemma_u64_shr(x, mb);
        lemma_u64_mask(x >> mb, eb);
        lemma_u64_mask(x, mb);
        lemma_u64_one_shl(mb);
        lemma_u64_one_shl(eb);
        lemma_pow2_pos(mb as nat);
    }
    let e = (x >> mb) & ((1u64 << eb) - 1);
    let m = x & ((1u64 << mb) - 1);
    if e == 0 && m == 0 {
        return PowKernel::One;
    }
    proof {
        lemma2_to64();
        lemma2_to64_rest();
        if mb < 52 {
            lemma_pow2_strictly_increases(mb as nat, 52);
        }
        vstd::arithmetic::mul::lemma_mul_upper_bound(bias as int, 2048, pow2(mb as nat) as int, pow2(52) as int);
        lemma_u64_shl(bias, mb);
        vstd::arithmetic::mul::lemma_mul_inequality((bias - 1) as int, bias as int, pow2(mb as nat) as int);
        lemma_u64_shl((bias - 1) as u64, mb);
        lemma_power_of_two_pattern(bias as nat, eb as nat, mb as nat, b);
        lemma_power_of_two_pattern((bias - 1) as nat, eb as nat, mb as nat, b);
    }
    let one = bias << mb;
    if x == one {
        return PowKernel::Base;
    }
    let half = (bias - 1) << mb;
    if x == half {
        proof {
            if float_is(xs, eb as nat, mb as nat, b, pow2(1074)) {
                lemma_float_is_unique(xs, one as nat, eb as nat, mb as nat, b, pow2(1074));
            }
        }
        return PowKernel::Sqrt;
    }
    proof {
        if float_is(xs, eb as nat, mb as nat, b, pow2(1074)) {
            lemma_float_is_unique(xs, one as nat, eb as nat, mb as nat, b, pow2(1074));
        }
        if float_is(xs, eb as nat, mb as nat, b, pow2(1073)) {
            lemma_float_is_unique(xs, half as nat, eb as nat, mb as nat, b, pow2(1073));
        }
    }
    match small_integer_exponent(x, eb, mb, bias) {
        Some(k) => {
            proof {
                let j = choose|j: nat| 2 <= j <= 32 && #[trigger] float_is_integer(xs, eb as nat, mb as nat, b, j);
                lemma_pow2_pos(1074);
                vstd::arithmetic::mul::lemma_mul_is_commutative(j as int, pow2(1074) as int);
                vstd::arithmetic::mul::lemma_mul_is_commutative(k as int, pow2(1074) as int);
                vstd::arithmetic::mul::lemma_mul_equality_converse(pow2(1074) as int, j as int, k as int);
            }
            PowKernel::Powi(k)
        },
        None => PowKernel::General,
    }
}

/// The integer from 2 to 32 that an `f32` exponent (given by its bits) is, if any.
pub fn small_integer_exponent_f32(bits: u32) -> (r: Option<u32>)
    ensures
        small_integer_of(bits as nat, 8, 23, 127, r),
{
    proof {
        lemma2_to64();
    }
    small_integer_exponent(bits as u64, 8, 23, 127)
}

/// The integer from 2 to 32 that an `f64` exponent (given by its bits) is, if any.
pub fn small_integer_exponent_f64(bits: u64) -> (r: Option<u32>)
    ensures
        small_integer_of(bits as nat, 11, 52, 1023, r),
{
    proof {
        lemma2_to64();
    }
    small_integer_exponent(bits, 11, 52, 1023)
}

/// How to raise an `f32` base to the exponent with the given `f32` bits.
pub fn powuf_kernel_f32(bits: u32) -> (r: PowKernel)
    ensures
        r == kernel_for(bits as nat, 8, 23, 127),
{
    proof {
        lemma2_to64();
    }
    pow_kernel(bits as u64, 8, 23, 127)
}

/// How to raise an `f64` base to the exponent with the given `f64` bits.
pub fn powuf_kernel_f64(bits: u64) -> (r: PowKernel)
    ensures
        r == kernel_for(bits as nat, 11, 52, 1023),
{
    proof {
        lemma2_to64();
    }
    pow_kernel(bits, 11, 52, 1023)
}

} // verus!
