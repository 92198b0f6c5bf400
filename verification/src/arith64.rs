//! Arithmetic of the 64-bit layout: the exact result, rounded once to nearest with
//! ties to even.
//!
//! Products and quotients of 64-bit values are finer than the model's unit
//! `2^-1074`, so their results are stated with values counted in binary128 steps
//! (`2^-16494`), where the layout is `(11, 52, 1023 - 15420)`. Computing in binary128
//! and then rounding to the layout gives these same patterns (`promoted64.rs` proves
//! it).
use vstd::prelude::*;
use vstd::arithmetic::power2::{pow2, lemma2_to64, lemma2_to64_rest, lemma_pow2_adds, lemma_pow2_pos, lemma_pow2_strictly_increases};
use crate::model::{log2, quantum, units, inf_bits, nan_bits, is_nan_bits, is_inf_bits, is_finite_bits, lemma_log2_bounds};
use crate::quad::{quad_bias, encode_finite_quad};
use crate::arith8::{sum_bits, difference_bits, product_bits_in, quotient_bits_in, lemma_sticky_rounding, lemma_sticky_binade, lemma_div_scaled};
use crate::arith32::lemma_sticky_integer;
use crate::uf64::Uf64E11M52;
use core::ops::{Add, Sub, Mul, Div};
use vstd::std_specs::ops::{AddSpecImpl, SubSpecImpl, MulSpecImpl, DivSpecImpl};

verus! {

/// Facts about the 64-bit layout's constants.
proof fn lemma_e11m52_constants()
    ensures
        pow2(52) == 0x10_0000_0000_0000,
        pow2(53) == 0x20_0000_0000_0000,
        inf_bits(11, 52) == 0x7ff0_0000_0000_0000,
        nan_bits(11, 52) == 0x7ff8_0000_0000_0000,
        crate::model::max_exp(11) == 2047,
        quad_bias() == -14397,
{
    lemma2_to64();
    lemma2_to64_rest();
}

/// A finite 64-bit pattern as `sig * 2^exp`: its value is `sig * 2^(exp + 1074)` in
/// units and `sig * 2^(exp + 16494)` in binary128 steps; a normal number has
/// `exp > -1074` and a 53-bit `sig`.
fn decompose64(bits: u64) -> (r: (u64, i32))
    requires
        is_finite_bits(bits as nat, 11, 52),
    ensures
        units(bits as nat, 11, 52, 1023) == r.0 * pow2((r.1 + 1074) as nat),
        units(bits as nat, 11, 52, quad_bias()) == r.0 * pow2((r.1 + 16494) as nat),
        r.0 < 0x20_0000_0000_0000,
        -1074 <= r.1 <= 971,
        r.1 > -1074 ==> r.0 >= 0x10_0000_0000_0000,
        (r.0 == 0) == (units(bits as nat, 11, 52, 1023) == 0),
{
    proof {
        lemma_e11m52_constants();
        crate::codec::lemma_f64_fields(bits);
        crate::bitfacts::lemma_u64_one_shl(52);
        crate::model::lemma_units_binade(bits as nat, 11, 52, 1023);
        crate::model::lemma_units_rescaled(bits as nat, 11, 52, 1023, 15420);
    }
    let e = (bits >> 52u32) & 0x7ff;
    let m = bits & ((1u64 << 52u32) - 1);
    let r = if e == 0 {
        (m, -1074i32)
    } else {
        (m + 0x10_0000_0000_0000, e as i32 - 1075)
    };
    proof {
        lemma_pow2_adds((r.1 + 1074) as nat, 15420);
        vstd::arithmetic::mul::lemma_mul_is_associative(r.0 as int, pow2((r.1 + 1074) as nat) as int, pow2(15420) as int);
    }
    r
}

/// Whether a 64-bit pattern is NaN, and whether it is infinite.
fn classify64(bits: u64) -> (r: (bool, bool))
    ensures
        r.0 == is_nan_bits(bits as nat, 11, 52),
        r.1 == is_inf_bits(bits as nat, 11, 52),
{
    proof {
        lemma_e11m52_constants();
        crate::codec::lemma_f64_fields(bits);
        crate::bitfacts::lemma_u64_one_shl(52);
    }
    let e = (bits >> 52u32) & 0x7ff;
    let m = bits & ((1u64 << 52u32) - 1);
    (e == 0x7ff && m != 0, e == 0x7ff && m == 0)
}

/// A normal value with a higher exponent is larger than any value with a lower one.
proof fn lemma_value_order(sh: nat, eh: int, sl: nat, el: int, base: nat)
    requires
        sh >= pow2(52),
        sl < pow2(53),
        el < eh,
        el + base >= 0,
    ensures
        sl * pow2((el + base) as nat) < sh * pow2((eh + base) as nat),
{
    lemma_pow2_pos((el + base) as nat);
    lemma_pow2_adds(53, (el + base) as nat);
    lemma_pow2_adds(52, (eh + base) as nat);
    vstd::arithmetic::mul::lemma_mul_strict_inequality(sl as int, pow2(53) as int, pow2((el + base) as nat) as int);
    if 53 + el + base < 52 + eh + base {
        lemma_pow2_strictly_increases((53 + el + base) as nat, (52 + eh + base) as nat);
    }
    lemma_pow2_pos((eh + base) as nat);
    vstd::arithmetic::mul::lemma_mul_inequality(pow2(52) as int, sh as int, pow2((eh + base) as nat) as int);
}

/// Moves `sig * 2^(exp + base)` to the lower exponent `low`.
proof fn lemma_align(sig: nat, exp: int, low: int, base: nat)
    requires
        low <= exp,
        low + base >= 0,
    ensures
        sig * pow2((exp + base) as nat) == (sig * pow2((exp - low) as nat)) * pow2((low + base) as nat),
{
    lemma_pow2_adds((exp - low) as nat, (low + base) as nat);
    vstd::arithmetic::mul::lemma_mul_is_associative(sig as int, pow2((exp - low) as nat) as int, pow2((low + base) as nat) as int);
}

/// Operands whose exponents `eh > el + 59` differ by more than a significand: the
/// smaller one only decides the sticky bit, counted in binary128 steps.
proof fn lemma_far_operands(sh: nat, eh: int, sl: nat, el: int)
    requires
        pow2(52) <= sh < pow2(53),
        sl < pow2(53),
        -1074 <= el,
        el + 59 < eh <= 971,
    ensures
        ({
            let j = (eh + 16490) as nat;
            let hi = sh * pow2((eh + 16494) as nat);
            let lo = sl * pow2((el + 16494) as nat);
            &&& (hi + lo) / pow2(j + 1) == 8 * sh
            &&& ((hi + lo) % pow2(j + 1) != 0) == (sl != 0)
            &&& sl != 0 ==> ((hi - lo) as nat) / pow2(j + 1) == 8 * sh - 1
            &&& sl != 0 ==> ((hi - lo) as nat) % pow2(j + 1) != 0
            &&& lo < hi
        }),
{
    let j = (eh + 16490) as nat;
    let p = pow2(j + 1);
    let hi = sh * pow2((eh + 16494) as nat);
    let lo = sl * pow2((el + 16494) as nat);
    lemma2_to64();
    lemma_pow2_pos(52);
    lemma_pow2_pos(j + 1);
    lemma_pow2_pos((el + 16494) as nat);
    lemma_pow2_adds(3, j + 1);
    lemma_pow2_adds(53, (el + 16494) as nat);
    assert(hi == (8 * sh) * p) by (nonlinear_arith)
        requires
            hi == sh * pow2((eh + 16494) as nat),
            pow2((eh + 16494) as nat) == pow2(3) * p,
            pow2(3) == 8,
    ;
    if (el + 16494 + 53) < j + 1 {
        lemma_pow2_strictly_increases((el + 16494 + 53) as nat, j + 1);
    }
    assert(lo < p) by (nonlinear_arith)
        requires
            lo == sl * pow2((el + 16494) as nat),
            sl < pow2(53),
            pow2(53) * pow2((el + 16494) as nat) <= p,
            pow2((el + 16494) as nat) > 0,
    ;
    vstd::arithmetic::div_mod::lemma_fundamental_div_mod_converse((hi + lo) as int, p as int, (8 * sh) as int, lo as int);
    assert(lo == 0 <==> sl == 0) by (nonlinear_arith)
        requires
            lo == sl * pow2((el + 16494) as nat),
            pow2((el + 16494) as nat) > 0,
    ;
    if sl != 0 {
        assert(hi - lo == (8 * sh - 1) * p + (p - lo)) by (nonlinear_arith)
            requires
                hi == (8 * sh) * p,
        ;
        vstd::arithmetic::div_mod::lemma_fundamental_div_mod_converse((hi - lo) as int, p as int, (8 * sh - 1) as int, (p - lo) as int);
    }
    assert(lo < hi) by (nonlinear_arith)
        requires
            hi == (8 * sh) * p,
            lo < p,
            sh >= 1,
    ;
}

/// `a + b` for E11M52 patterns.
pub fn add_uf64(a: u64, b: u64) -> (r: u64)
    ensures
        r == sum_bits(a as nat, b as nat, 11, 52, 1023),
{
    proof {
        lemma_e11m52_constants();
    }
    let (a_nan, a_inf) = classify64(a);
    let (b_nan, b_inf) = classify64(b);
    if a_nan || b_nan {
        return 0x7ff8_0000_0000_0000;
    }
    if a_inf || b_inf {
        return 0x7ff0_0000_0000_0000;
    }
    proof {
        crate::model::lemma_classes(a as nat, 11, 52);
        crate::model::lemma_classes(b as nat, 11, 52);
    }
    let (sa, ea) = decompose64(a);
    let (sb, eb) = decompose64(b);
    let ghost ua = units(a as nat, 11, 52, 1023);
    let ghost ub = units(b as nat, 11, 52, 1023);
    let ghost total = units(a as nat, 11, 52, quad_bias()) + units(b as nat, 11, 52, quad_bias());
    proof {
        crate::model::lemma_units_rescaled(a as nat, 11, 52, 1023, 15420);
        crate::model::lemma_units_rescaled(b as nat, 11, 52, 1023, 15420);
        vstd::arithmetic::mul::lemma_mul_is_distributive_add_other_way(pow2(15420) as int, ua as int, ub as int);
        crate::model::lemma_encode_rescaled(ua + ub, 11, 52, 1023, 15420);
        assert(total == (ua + ub) * pow2(15420));
    }
    let (sh, eh, sl, el) = if ea >= eb { (sa, ea, sb, eb) } else { (sb, eb, sa, ea) };
    let gap = eh - el;
    if gap <= 59 {
        proof {
            lemma_align(sh as nat, eh as int, el as int, 16494);
            if gap < 59 {
                lemma_pow2_strictly_increases(gap as nat, 59);
            }
            lemma_pow2_adds(53, 59);
            lemma_pow2_pos(gap as nat);
            vstd::arithmetic::mul::lemma_mul_strict_inequality(sh as int, pow2(53) as int, pow2(gap as nat) as int);
            vstd::arithmetic::mul::lemma_mul_inequality(pow2(53) as int, pow2(53) as int, pow2(gap as nat) as int);
            crate::bitfacts::lemma_pow2_below_u128(112);
            lemma_pow2_strictly_increases(112, 113);
            crate::bitfacts::lemma_u128_shl_is_mul(sh as u128, gap as u32);
            vstd::arithmetic::mul::lemma_mul_is_distributive_add_other_way(pow2((el + 16494) as nat) as int, (sh * pow2(gap as nat)) as int, sl as int);
            lemma_pow2_adds(53, 59);
            vstd::arithmetic::power2::lemma_pow2_unfold(113);
        }
        let s = ((sh as u128) << (gap as u32)) + (sl as u128);
        if s == 0 {
            return 0;
        }
        return encode_finite_quad(s, el);
    }
    let big = 16 * (sh as u128) + (if sl != 0 { 1u128 } else { 0u128 });
    proof {
        lemma_far_operands(sh as nat, eh as int, sl as nat, el as int);
        let st: nat = if sl != 0 { 1 } else { 0 };
        lemma_pow2_strictly_increases(53, 55);
        lemma2_to64();
        lemma_pow2_adds(52, 3);
        lemma_sticky_integer(total, (eh + 16490) as nat, (8 * sh) as nat, st, 11, 52, quad_bias());
        lemma_pow2_strictly_increases(57, 113);
        lemma_pow2_adds(53, 4);
    }
    encode_finite_quad(big, eh - 4)
}

/// `a - b` for E11M52 patterns.
pub fn sub_uf64(a: u64, b: u64) -> (r: u64)
    ensures
        r == difference_bits(a as nat, b as nat, 11, 52, 1023),
{
    proof {
        lemma_e11m52_constants();
    }
    let (a_nan, a_inf) = classify64(a);
    let (b_nan, b_inf) = classify64(b);
    if a_nan || b_nan || b_inf {
        return 0x7ff8_0000_0000_0000;
    }
    if a_inf {
        return 0x7ff0_0000_0000_0000;
    }
    proof {
        crate::model::lemma_classes(a as nat, 11, 52);
        crate::model::lemma_classes(b as nat, 11, 52);
    }
    let (sa, ea) = decompose64(a);
    let (sb, eb) = decompose64(b);
    let ghost ua = units(a as nat, 11, 52, 1023);
    let ghost ub = units(b as nat, 11, 52, 1023);
    if ea < eb || (ea == eb && sa < sb) {
        proof {
            lemma_pow2_pos((ea + 1074) as nat);
            if ea < eb {
                lemma_value_order(sb as nat, eb as int, sa as nat, ea as int, 1074);
            } else {
                vstd::arithmetic::mul::lemma_mul_strict_inequality(sa as int, sb as int, pow2((ea + 1074) as nat) as int);
            }
        }
        return 0x7ff8_0000_0000_0000;
    }
    if ea == eb && sa == sb {
        return 0;
    }
    let ghost total = units(a as nat, 11, 52, quad_bias()) - units(b as nat, 11, 52, quad_bias());
    proof {
        lemma_pow2_pos((eb + 1074) as nat);
        if ea > eb {
            lemma_value_order(sa as nat, ea as int, sb as nat, eb as int, 1074);
        } else {
            vstd::arithmetic::mul::lemma_mul_strict_inequality(sb as int, sa as int, pow2((ea + 1074) as nat) as int);
        }
        assert(ua > ub);
        crate::model::lemma_units_rescaled(a as nat, 11, 52, 1023, 15420);
        crate::model::lemma_units_rescaled(b as nat, 11, 52, 1023, 15420);
        vstd::arithmetic::mul::lemma_mul_is_distributive_sub_other_way(pow2(15420) as int, ua as int, ub as int);
        crate::model::lemma_encode_rescaled((ua - ub) as nat, 11, 52, 1023, 15420);
        assert(total == (ua - ub) * pow2(15420));
    }
    let gap = ea - eb;
    if gap <= 59 {
        proof {
            lemma_align(sa as nat, ea as int, eb as int, 16494);
            if gap < 59 {
                lemma_pow2_strictly_increases(gap as nat, 59);
            }
            lemma_pow2_adds(53, 59);
            lemma_pow2_pos(gap as nat);
            lemma_pow2_pos((eb + 16494) as nat);
            vstd::arithmetic::mul::lemma_mul_strict_inequality(sa as int, pow2(53) as int, pow2(gap as nat) as int);
            vstd::arithmetic::mul::lemma_mul_inequality(pow2(53) as int, pow2(53) as int, pow2(gap as nat) as int);
            crate::bitfacts::lemma_pow2_below_u128(112);
            lemma_pow2_strictly_increases(112, 113);
            crate::bitfacts::lemma_u128_shl_is_mul(sa as u128, gap as u32);
            vstd::arithmetic::mul::lemma_mul_is_distributive_sub_other_way(pow2((eb + 16494) as nat) as int, (sa * pow2(gap as nat)) as int, sb as int);
            let w = pow2((eb + 16494) as nat);
            assert(sa * pow2(gap as nat) > sb) by (nonlinear_arith)
                requires
                    (sa * pow2(gap as nat)) * w > sb * w,
                    w > 0,
            ;
        }
        let s = ((sa as u128) << (gap as u32)) - (sb as u128);
        return encode_finite_quad(s, eb);
    }
    if sb == 0 {
        proof {
            lemma2_to64_rest();
            lemma_pow2_strictly_increases(53, 113);
        }
        return encode_finite_quad(sa as u128, ea);
    }
    let big = 16 * (sa as u128) - 1;
    proof {
        lemma_far_operands(sa as nat, ea as int, sb as nat, eb as int);
        lemma_pow2_strictly_increases(53, 55);
        lemma2_to64();
        lemma_pow2_adds(52, 3);
        lemma_sticky_integer(total as nat, (ea + 16490) as nat, (8 * sa - 1) as nat, 1, 11, 52, quad_bias());
        lemma_pow2_strictly_increases(57, 113);
        lemma_pow2_adds(53, 4);
    }
    encode_finite_quad(big, ea - 4)
}

/// Whether a 64-bit pattern is a zero (its unused top bit aside).
fn is_zero64(bits: u64) -> (r: bool)
    ensures
        r == (units(bits as nat, 11, 52, 1023) == 0),
        r == (units(bits as nat, 11, 52, quad_bias()) == 0),
{
    proof {
        lemma_e11m52_constants();
        crate::codec::lemma_f64_fields(bits);
        crate::bitfacts::lemma_u64_one_shl(52);
        crate::model::lemma_units_binade(bits as nat, 11, 52, 1023);
        crate::model::lemma_units_rescaled(bits as nat, 11, 52, 1023, 15420);
        lemma_pow2_pos(15420);
        let u = units(bits as nat, 11, 52, 1023);
        assert((u * pow2(15420) == 0) == (u == 0)) by (nonlinear_arith)
            requires
                pow2(15420) > 0,
        ;
    }
    let e = (bits >> 52u32) & 0x7ff;
    let m = bits & ((1u64 << 52u32) - 1);
    e == 0 && m == 0
}

/// With `k + log2(sa) == extra + 1 + log2(sb)`, the quotient `sa * 2^k / sb` lies in
/// `[2^extra, 2^(extra + 2))`.
pub(crate) proof fn lemma_scaled_bounds(sa: nat, sb: nat, k: nat, extra: nat)
    requires
        sa >= 1,
        sb >= 1,
        k + log2(sa) == extra + 1 + log2(sb),
    ensures
        sa * pow2(k) >= pow2(extra) * sb,
        sa * pow2(k) < pow2(extra + 2) * sb,
{
    let la = log2(sa);
    let lb = log2(sb);
    lemma_log2_bounds(sa);
    lemma_log2_bounds(sb);
    lemma_pow2_adds(la, k);
    lemma_pow2_adds(la + 1, k);
    lemma_pow2_adds(extra, lb + 1);
    lemma_pow2_adds(extra + 2, lb);
    lemma_pow2_pos(k);
    lemma_pow2_pos(extra);
    lemma_pow2_pos(extra + 2);
    assert(sa * pow2(k) >= pow2(la) * pow2(k)) by (nonlinear_arith)
        requires
            sa >= pow2(la),
            pow2(k) > 0,
    ;
    assert(pow2(extra) * sb < pow2(extra) * pow2(lb + 1)) by (nonlinear_arith)
        requires
            sb < pow2(lb + 1),
            pow2(extra) > 0,
    ;
    assert(sa * pow2(k) < pow2(la + 1) * pow2(k)) by (nonlinear_arith)
        requires
            sa < pow2(la + 1),
            pow2(k) > 0,
    ;
    assert(pow2(extra + 2) * pow2(lb) <= pow2(extra + 2) * sb) by (nonlinear_arith)
        requires
            pow2(lb) <= sb,
            pow2(extra + 2) > 0,
    ;
}

/// `a * b` for E11M52 patterns, values counted in binary128 steps.
pub fn mul_uf64(a: u64, b: u64) -> (r: u64)
    ensures
        r == product_bits_in(a as nat, b as nat, 11, 52, quad_bias(), 16494),
{
    proof {
        lemma_e11m52_constants();
    }
    let (a_nan, a_inf) = classify64(a);
    let (b_nan, b_inf) = classify64(b);
    if a_nan || b_nan {
        return 0x7ff8_0000_0000_0000;
    }
    if a_inf || b_inf {
        if is_zero64(a) || is_zero64(b) {
            return 0x7ff8_0000_0000_0000;
        }
        return 0x7ff0_0000_0000_0000;
    }
    proof {
        crate::model::lemma_classes(a as nat, 11, 52);
        crate::model::lemma_classes(b as nat, 11, 52);
    }
    let (sa, ea) = decompose64(a);
    let (sb, eb) = decompose64(b);
    let ghost ua = units(a as nat, 11, 52, quad_bias());
    let ghost ub = units(b as nat, 11, 52, quad_bias());
    if sa == 0 || sb == 0 {
        proof {
            assert(ua * ub == 0) by (nonlinear_arith)
                requires
                    ua == sa * pow2((ea + 16494) as nat),
                    ub == sb * pow2((eb + 16494) as nat),
                    sa == 0 || sb == 0,
            ;
            lemma_pow2_pos(16494);
        }
        return 0;
    }
    proof {
        assert((sa as nat) * (sb as nat) < pow2(53) * pow2(53)) by (nonlinear_arith)
            requires
                sa < pow2(53),
                sb < pow2(53),
        ;
        lemma_pow2_adds(53, 53);
        crate::bitfacts::lemma_pow2_below_u128(106);
    }
    let product = (sa as u128) * (sb as u128);
    let exponent = ea + eb;
    proof {
        let pa = pow2((ea + 16494) as nat);
        let pb = pow2((eb + 16494) as nat);
        let pe = pow2((exponent + 16494) as nat);
        lemma_pow2_adds((ea + 16494) as nat, (eb + 16494) as nat);
        lemma_pow2_adds((exponent + 16494) as nat, 16494);
        lemma_pow2_pos(16494);
        assert(ua * ub == (product * pe) * pow2(16494)) by (nonlinear_arith)
            requires
                ua == sa * pa,
                ub == sb * pb,
                pa * pb == pe * pow2(16494),
                product == sa * sb,
        ;
        vstd::arithmetic::div_mod::lemma_div_by_multiple((product * pe) as int, pow2(16494) as int);
        assert(product > 0) by (nonlinear_arith)
            requires
                product == sa * sb,
                sa > 0,
                sb > 0,
        ;
        lemma_pow2_strictly_increases(106, 113);
    }
    encode_finite_quad(product, exponent)
}

/// `a / b` for E11M52 patterns, values counted in binary128 steps.
pub fn div_uf64(a: u64, b: u64) -> (r: u64)
    ensures
        r == quotient_bits_in(a as nat, b as nat, 11, 52, quad_bias(), 16494),
{
    proof {
        lemma_e11m52_constants();
    }
    let (a_nan, a_inf) = classify64(a);
    let (b_nan, b_inf) = classify64(b);
    if a_nan || b_nan {
        return 0x7ff8_0000_0000_0000;
    }
    if a_inf {
        if b_inf {
            return 0x7ff8_0000_0000_0000;
        }
        return 0x7ff0_0000_0000_0000;
    }
    if b_inf {
        return 0;
    }
    proof {
        crate::model::lemma_classes(a as nat, 11, 52);
        crate::model::lemma_classes(b as nat, 11, 52);
    }
    let (sa, ea) = decompose64(a);
    let (sb, eb) = decompose64(b);
    proof {
        crate::model::lemma_units_rescaled(a as nat, 11, 52, 1023, 15420);
        crate::model::lemma_units_rescaled(b as nat, 11, 52, 1023, 15420);
        lemma_pow2_pos(15420);
        lemma_pow2_pos((ea + 16494) as nat);
        lemma_pow2_pos((eb + 16494) as nat);
        assert((units(a as nat, 11, 52, quad_bias()) == 0) == (sa == 0)) by (nonlinear_arith)
            requires
                units(a as nat, 11, 52, quad_bias()) == sa * pow2((ea + 16494) as nat),
                pow2((ea + 16494) as nat) > 0,
        ;
        assert((units(b as nat, 11, 52, quad_bias()) == 0) == (sb == 0)) by (nonlinear_arith)
            requires
                units(b as nat, 11, 52, quad_bias()) == sb * pow2((eb + 16494) as nat),
                pow2((eb + 16494) as nat) > 0,
        ;
    }
    if sb == 0 {
        if sa == 0 {
            return 0x7ff8_0000_0000_0000;
        }
        return 0x7ff0_0000_0000_0000;
    }
    if sa == 0 {
        proof {
            let ua = units(a as nat, 11, 52, quad_bias());
            assert(ua * pow2(16494) == 0) by (nonlinear_arith)
                requires
                    ua == 0,
            ;
        }
        return 0;
    }
    let ghost ua = units(a as nat, 11, 52, quad_bias());
    let ghost ub = units(b as nat, 11, 52, quad_bias());
    let ghost n = ua * pow2(16494);
    let ghost d = ub;
    let la = crate::codec::floor_log2(sa);
    let lb = crate::codec::floor_log2(sb);
    proof {
        lemma_log2_bounds(sa as nat);
        lemma_log2_bounds(sb as nat);
        if log2(sa as nat) >= 53 {
            lemma_pow2_strictly_increases(53, log2(sa as nat));
        }
        if log2(sb as nat) >= 53 {
            lemma_pow2_strictly_increases(53, log2(sb as nat));
        }
    }
    let k: u32 = 55 + lb - la;
    proof {
        lemma_pow2_adds(la as nat + 1, k as nat);
        lemma_pow2_pos(k as nat);
        vstd::arithmetic::mul::lemma_mul_strict_inequality(sa as int, pow2(la as nat + 1) as int, pow2(k as nat) as int);
        lemma_pow2_strictly_increases(56 + lb as nat, 127);
        crate::bitfacts::lemma_pow2_below_u128(127);
        crate::bitfacts::lemma_u128_shl_is_mul(sa as u128, k);
    }
    let scaled = (sa as u128) << k;
    let f = scaled / (sb as u128);
    let rem = scaled % (sb as u128);
    let ghost w = pow2((ea + 32988 - k) as nat);
    let ghost j = (ea - eb - k - 1 + 16494) as nat;
    proof {
        // The whole quotient has from 55 to 56 bits.
        lemma_scaled_bounds(sa as nat, sb as nat, k as nat, 54);
        lemma_pow2_pos(54);
        vstd::arithmetic::div_mod::lemma_div_is_ordered((pow2(54) * sb) as int, scaled as int, sb as int);
        vstd::arithmetic::div_mod::lemma_div_multiples_vanish(pow2(54) as int, sb as int);
        vstd::arithmetic::div_mod::lemma_fundamental_div_mod(scaled as int, sb as int);
        vstd::arithmetic::div_mod::lemma_mod_pos_bound(scaled as int, sb as int);
        assert(f < pow2(56)) by (nonlinear_arith)
            requires
                scaled == sb * f + rem,
                scaled < pow2(56) * sb,
                rem >= 0,
                sb > 0,
        ;
        assert(f >= pow2(54)) by (nonlinear_arith)
            requires
                scaled == sb * f + rem,
                scaled >= pow2(54) * sb,
                rem < sb,
                sb > 0,
        ;
        // The ratio's numerator and the sticky division's divisor share the factor `w`.
        lemma_pow2_pos((ea + 32988 - k) as nat);
        lemma_pow2_adds((ea + 16494) as nat, 16494);
        lemma_pow2_adds(k as nat, (ea + 32988 - k) as nat);
        lemma_pow2_adds((eb + 16494) as nat, j + 1);
        assert(n == (scaled as nat) * w) by (nonlinear_arith)
            requires
                n == ua * pow2(16494),
                ua == sa * pow2((ea + 16494) as nat),
                pow2((ea + 16494) as nat) * pow2(16494) == pow2((ea + 32988) as nat),
                pow2(k as nat) * w == pow2((ea + 32988) as nat),
                scaled == sa * pow2(k as nat),
        ;
        let c = d * pow2(j + 1);
        assert(c == (sb as nat) * w) by (nonlinear_arith)
            requires
                c == d * pow2(j + 1),
                d == sb * pow2((eb + 16494) as nat),
                pow2((eb + 16494) as nat) * pow2(j + 1) == w,
        ;
        lemma_div_scaled(scaled as nat, sb as nat, w);
        assert((n % c != 0) == (rem != 0)) by (nonlinear_arith)
            requires
                n % c == rem * w,
                w > 0,
        ;
    }
    let big = 2 * f + (if rem != 0 { 1u128 } else { 0u128 });
    let exponent = ea - eb - k as i32 - 1;
    proof {
        lemma_sticky_binade(n, d, j);
        crate::model::lemma_log2_bounds(f as nat);
        if log2(f as nat) < 54 {
            lemma_pow2_strictly_increases(log2(f as nat) + 1, 54);
        }
        let q = quantum(n / d, 52, quad_bias());
        lemma_sticky_rounding(n, d, j, q);
        lemma_pow2_strictly_increases(57, 113);
        lemma_pow2_adds(56, 1);
        lemma2_to64();
        lemma_pow2_pos(j);
        assert(big * pow2(j) > 0) by (nonlinear_arith)
            requires
                big >= 1,
                pow2(j) > 0,
        ;
        assert(n > 0) by (nonlinear_arith)
            requires
                n == scaled * w,
                scaled > 0,
                w > 0,
        ;
    }
    encode_finite_quad(big, exponent)
}

impl Add for Uf64E11M52 {
    type Output = Self;

    fn add(self, rhs: Self) -> (r: Self) {
        let r = Uf64E11M52::from_bits(add_uf64(self.to_bits(), rhs.to_bits()));
        proof {
            Uf64E11M52::lemma_with_bits(r@, r);
        }
        r
    }
}

impl AddSpecImpl for Uf64E11M52 {
    open spec fn obeys_add_spec() -> bool {
        true
    }

    open spec fn add_req(self, rhs: Self) -> bool {
        true
    }

    open spec fn add_spec(self, rhs: Self) -> Self {
        Uf64E11M52::with_bits(sum_bits(self@ as nat, rhs@ as nat, 11, 52, 1023) as u64)
    }
}

impl Sub for Uf64E11M52 {
    type Output = Self;

    fn sub(self, rhs: Self) -> (r: Self) {
        let r = Uf64E11M52::from_bits(sub_uf64(self.to_bits(), rhs.to_bits()));
        proof {
            Uf64E11M52::lemma_with_bits(r@, r);
        }
        r
    }
}

impl SubSpecImpl for Uf64E11M52 {
    open spec fn obeys_sub_spec() -> bool {
        true
    }

    open spec fn sub_req(self, rhs: Self) -> bool {
        true
    }

    open spec fn sub_spec(self, rhs: Self) -> Self {
        Uf64E11M52::with_bits(difference_bits(self@ as nat, rhs@ as nat, 11, 52, 1023) as u64)
    }
}

impl Mul for Uf64E11M52 {
    type Output = Self;

    fn mul(self, rhs: Self) -> (r: Self) {
        let r = Uf64E11M52::from_bits(mul_uf64(self.to_bits(), rhs.to_bits()));
        proof {
            Uf64E11M52::lemma_with_bits(r@, r);
        }
        r
    }
}

impl MulSpecImpl for Uf64E11M52 {
    open spec fn obeys_mul_spec() -> bool {
        true
    }

    open spec fn mul_req(self, rhs: Self) -> bool {
        true
    }

    open spec fn mul_spec(self, rhs: Self) -> Self {
        Uf64E11M52::with_bits(product_bits_in(self@ as nat, rhs@ as nat, 11, 52, quad_bias(), 16494) as u64)
    }
}

impl Div for Uf64E11M52 {
    type Output = Self;

    fn div(self, rhs: Self) -> (r: Self) {
        let r = Uf64E11M52::from_bits(div_uf64(self.to_bits(), rhs.to_bits()));
        proof {
            Uf64E11M52::lemma_with_bits(r@, r);
        }
        r
    }
}

impl DivSpecImpl for Uf64E11M52 {
    open spec fn obeys_div_spec() -> bool {
        true
    }

    open spec fn div_req(self, rhs: Self) -> bool {
        true
    }

    open spec fn div_spec(self, rhs: Self) -> Self {
        Uf64E11M52::with_bits(quotient_bits_in(self@ as nat, rhs@ as nat, 11, 52, quad_bias(), 16494) as u64)
    }
}

} // verus!
