//! Arithmetic of the 16-bit layouts, computed as binary32 arithmetic: the exact
//! result is rounded to binary32 and that number is rounded to the layout.
//!
//! Binary32 holds too few bits for a single rounding to the 16-bit layouts (a sum
//! can land exactly between two of their numbers in binary32 when it lies just
//! below that midpoint), so the two roundings are both part of the result.
use vstd::prelude::*;
use vstd::arithmetic::power2::{pow2, lemma2_to64, lemma2_to64_rest, lemma_pow2_adds, lemma_pow2_pos, lemma_pow2_strictly_increases};
use crate::model::{log2, quantum, units, exp_field, man_field, inf_bits, nan_bits, encode_value, encode_float, is_nan_bits, is_inf_bits, is_finite_bits, lemma_log2_bounds};
use crate::bitfacts::{lemma_u64_shr, lemma_u64_mask, lemma_u64_one_shl, lemma_u64_shl};
use crate::codec::encode_finite;
use crate::arith8::{encode_ratio, lemma_sticky_rounding, lemma_sticky_binade, lemma_div_scaled};
use crate::arith32::lemma_sticky_integer;
use crate::dispatch::{UF16_EXP_BITS, UF16_MANTISSA_BITS, UF16_BIAS, UF16_E6M10_EXP_BITS, UF16_E6M10_MANTISSA_BITS, UF16_E6M10_BIAS};
use crate::uf16::{Uf16, Uf16E6M10};
use core::ops::{Add, Sub, Mul, Div};
use vstd::std_specs::ops::{AddSpecImpl, SubSpecImpl, MulSpecImpl, DivSpecImpl};

verus! {

/// A 16-bit layout that the arithmetic handles.
pub open spec fn half_layout(eb: nat, mb: nat, bias: int) -> bool {
    &&& 5 <= eb <= 6
    &&& 10 <= mb <= 11
    &&& eb + mb == 16
    &&& 0 <= bias <= 31
}

/// The layout's pattern of the binary32 number nearest the value `u` (in units).
pub open spec fn through_f32(u: nat, eb: nat, mb: nat, bias: int) -> nat {
    encode_float(encode_value(u, 8, 23, 127), 8, 23, 127, eb, mb, bias)
}

/// The layout's pattern of the binary32 number nearest the ratio `n / d` (in units).
pub open spec fn ratio_through_f32(n: nat, d: nat, eb: nat, mb: nat, bias: int) -> nat {
    encode_float(encode_ratio(n, d, 8, 23, 127), 8, 23, 127, eb, mb, bias)
}

/// The pattern of `a + b` computed in binary32: NaN when either is NaN, infinity when
/// either is infinite, and otherwise the sum rounded to binary32, then to the layout.
pub open spec fn sum_f32_bits(a: nat, b: nat, eb: nat, mb: nat, bias: int) -> nat {
    if is_nan_bits(a, eb, mb) || is_nan_bits(b, eb, mb) {
        nan_bits(eb, mb)
    } else if is_inf_bits(a, eb, mb) || is_inf_bits(b, eb, mb) {
        inf_bits(eb, mb)
    } else {
        through_f32(units(a, eb, mb, bias) + units(b, eb, mb, bias), eb, mb, bias)
    }
}

/// The pattern of `a - b` computed in binary32: NaN when either is NaN, when `b` is
/// infinite and when the difference is negative; infinity when only `a` is; and
/// otherwise the difference rounded to binary32, then to the layout.
pub open spec fn difference_f32_bits(a: nat, b: nat, eb: nat, mb: nat, bias: int) -> nat {
    if is_nan_bits(a, eb, mb) || is_nan_bits(b, eb, mb) || is_inf_bits(b, eb, mb) {
        nan_bits(eb, mb)
    } else if is_inf_bits(a, eb, mb) {
        inf_bits(eb, mb)
    } else if units(a, eb, mb, bias) >= units(b, eb, mb, bias) {
        through_f32((units(a, eb, mb, bias) - units(b, eb, mb, bias)) as nat, eb, mb, bias)
    } else {
        nan_bits(eb, mb)
    }
}

/// The pattern of `a * b` computed in binary32: NaN when either is NaN or when zero
/// meets infinity, infinity when either is otherwise infinite, and otherwise the
/// product (a whole number of units) rounded to binary32, then to the layout.
pub open spec fn product_f32_bits(a: nat, b: nat, eb: nat, mb: nat, bias: int) -> nat {
    if is_nan_bits(a, eb, mb) || is_nan_bits(b, eb, mb) {
        nan_bits(eb, mb)
    } else if is_inf_bits(a, eb, mb) || is_inf_bits(b, eb, mb) {
        if units(a, eb, mb, bias) == 0 || units(b, eb, mb, bias) == 0 {
            nan_bits(eb, mb)
        } else {
            inf_bits(eb, mb)
        }
    } else {
        through_f32(units(a, eb, mb, bias) * units(b, eb, mb, bias) / pow2(1074), eb, mb, bias)
    }
}

/// The pattern of `a / b` computed in binary32: the special cases of division, and
/// otherwise the quotient rounded to binary32, then to the layout.
pub open spec fn quotient_f32_bits(a: nat, b: nat, eb: nat, mb: nat, bias: int) -> nat {
    if is_nan_bits(a, eb, mb) || is_nan_bits(b, eb, mb) {
        nan_bits(eb, mb)
    } else if is_inf_bits(a, eb, mb) {
        if is_inf_bits(b, eb, mb) {
            nan_bits(eb, mb)
        } else {
            inf_bits(eb, mb)
        }
    } else if is_inf_bits(b, eb, mb) {
        0
    } else if units(b, eb, mb, bias) == 0 {
        if units(a, eb, mb, bias) == 0 {
            nan_bits(eb, mb)
        } else {
            inf_bits(eb, mb)
        }
    } else {
        ratio_through_f32(units(a, eb, mb, bias) * pow2(1074), units(b, eb, mb, bias), eb, mb, bias)
    }
}

/// Facts about powers of two and the binary32 layout used below.
proof fn lemma_half_constants(eb: nat, mb: nat, bias: int)
    requires
        half_layout(eb, mb, bias),
    ensures
        pow2(eb + mb) == 0x1_0000,
        pow2(mb) <= 0x800,
        pow2(mb + 1) <= 0x1000,
        pow2(mb) >= 0x400,
        pow2(eb) <= 64,
        crate::model::encodable(eb, mb, bias),
        crate::model::encodable(8, 23, 127),
        inf_bits(8, 23) == 0x7f80_0000,
        crate::model::max_exp(8) == 255,
{
    lemma2_to64();
    lemma_pow2_adds(eb, mb);
    if mb < 11 {
        lemma_pow2_strictly_increases(mb, 11);
        lemma_pow2_strictly_increases(mb + 1, 12);
    }
    if mb > 10 {
        lemma_pow2_strictly_increases(10, mb);
    }
    if eb < 6 {
        lemma_pow2_strictly_increases(eb, 6);
    }
    vstd::arithmetic::power2::lemma_pow2_unfold(mb + 1);
}

/// A finite pattern of a 16-bit layout as `sig * 2^exp`: its value in units is
/// `sig * 2^(exp + 1074)`; a number above the subnormal range has `sig >= 2^mb`.
fn decompose16(bits: u16, exp_bits: u32, mantissa_bits: u32, bias: i32) -> (r: (u64, i32))
    requires
        half_layout(exp_bits as nat, mantissa_bits as nat, bias as int),
        is_finite_bits(bits as nat, exp_bits as nat, mantissa_bits as nat),
    ensures
        units(bits as nat, exp_bits as nat, mantissa_bits as nat, bias as int) == r.0 * pow2((r.1 + 1074) as nat),
        r.0 < 0x1000,
        1 - bias - mantissa_bits <= r.1 <= 62 - bias - mantissa_bits,
        r.1 > 1 - bias - mantissa_bits ==> r.0 >= 0x400,
        (r.0 == 0) == (units(bits as nat, exp_bits as nat, mantissa_bits as nat, bias as int) == 0),
        r.1 == (if exp_field(bits as nat, exp_bits as nat, mantissa_bits as nat) == 0 { 1int } else {
            exp_field(bits as nat, exp_bits as nat, mantissa_bits as nat) as int }) - bias - mantissa_bits,
{
    let ghost eb = exp_bits as nat;
    let ghost mb = mantissa_bits as nat;
    let x = bits as u64;
    proof {
        lemma_half_constants(eb, mb, bias as int);
        lemma_u64_shr(x, mantissa_bits);
        lemma_u64_mask(x >> mantissa_bits, exp_bits);
        lemma_u64_mask(x, mantissa_bits);
        lemma_u64_one_shl(exp_bits);
        lemma_u64_one_shl(mantissa_bits);
        lemma_pow2_pos(eb);
        lemma_pow2_pos(mb);
        vstd::arithmetic::div_mod::lemma_mod_pos_bound(bits as int, pow2(mb) as int);
        vstd::arithmetic::div_mod::lemma_mod_pos_bound((bits as nat / pow2(mb)) as int, pow2(eb) as int);
        crate::model::lemma_units_binade(bits as nat, eb, mb, bias as int);
    }
    let e = (x >> mantissa_bits) & ((1u64 << exp_bits) - 1);
    let m = x & ((1u64 << mantissa_bits) - 1);
    assert(e == exp_field(bits as nat, eb, mb));
    assert(m == man_field(bits as nat, mb));
    if e == 0 {
        (m, 1 - bias - mantissa_bits as i32)
    } else {
        (m + (1u64 << mantissa_bits), e as i32 - bias - mantissa_bits as i32)
    }
}

/// Whether a pattern of a 16-bit layout is NaN, and whether it is infinite.
fn classify16(bits: u16, exp_bits: u32, mantissa_bits: u32) -> (r: (bool, bool))
    requires
        half_layout(exp_bits as nat, mantissa_bits as nat, 0),
    ensures
        r.0 == is_nan_bits(bits as nat, exp_bits as nat, mantissa_bits as nat),
        r.1 == is_inf_bits(bits as nat, exp_bits as nat, mantissa_bits as nat),
{
    let x = bits as u64;
    proof {
        lemma_u64_shr(x, mantissa_bits);
        lemma_u64_mask(x >> mantissa_bits, exp_bits);
        lemma_u64_mask(x, mantissa_bits);
        lemma_u64_one_shl(exp_bits);
        lemma_u64_one_shl(mantissa_bits);
        lemma_pow2_pos(exp_bits as nat);
        lemma_pow2_pos(mantissa_bits as nat);
    }
    let max = (1u64 << exp_bits) - 1;
    let e = (x >> mantissa_bits) & max;
    let m = x & ((1u64 << mantissa_bits) - 1);
    (e == max && m != 0, e == max && m == 0)
}

/// The canonical infinity and quiet NaN of a 16-bit layout.
fn specials16(exp_bits: u32, mantissa_bits: u32) -> (r: (u16, u16))
    requires
        half_layout(exp_bits as nat, mantissa_bits as nat, 0),
    ensures
        r.0 == inf_bits(exp_bits as nat, mantissa_bits as nat),
        r.1 == nan_bits(exp_bits as nat, mantissa_bits as nat),
{
    let ghost eb = exp_bits as nat;
    let ghost mb = mantissa_bits as nat;
    proof {
        lemma_half_constants(eb, mb, 0);
        lemma_u64_one_shl(exp_bits);
        lemma_u64_one_shl(mantissa_bits);
        lemma_u64_one_shl((mantissa_bits - 1) as u32);
        lemma_pow2_pos(eb);
        lemma_pow2_pos(mb);
        lemma_pow2_strictly_increases((mb - 1) as nat, mb);
        lemma_pow2_adds(eb, mb);
        assert((pow2(eb) - 1) * pow2(mb) + pow2(mb) == pow2(eb) * pow2(mb)) by (nonlinear_arith);
        lemma_u64_shl((pow2(eb) - 1) as u64, mantissa_bits);
    }
    let max = (1u64 << exp_bits) - 1;
    let inf = max << mantissa_bits;
    let nan = inf + (1u64 << (mantissa_bits - 1));
    (inf as u16, nan as u16)
}

/// The layout's pattern of a binary32 value: what converting a binary32 result gives.
fn from_f32_result(value: u32, exp_bits: u32, mantissa_bits: u32, bias: i32) -> (r: u16)
    requires
        half_layout(exp_bits as nat, mantissa_bits as nat, bias as int),
    ensures
        r == encode_float(value as nat, 8, 23, 127, exp_bits as nat, mantissa_bits as nat, bias as int),
{
    proof {
        lemma_half_constants(exp_bits as nat, mantissa_bits as nat, bias as int);
        crate::model::lemma_layouts();
        lemma2_to64();
        lemma_pow2_adds(8, 23);
        crate::widths::lemma_widen_then_encode(value as nat, 8, 23, 127, exp_bits as nat, mantissa_bits as nat, bias as int);
        crate::model::lemma_encode_float_in_width(value as nat, 8, 23, 127, exp_bits as nat, mantissa_bits as nat, bias as int);
    }
    crate::codec::encode_from_f64(crate::widths::f32_to_f64(value), exp_bits, mantissa_bits, bias) as u16
}

/// Every binary32 pattern the encoder gives fits in 32 bits.
proof fn lemma_f32_encoded_fits(u: nat)
    ensures
        encode_value(u, 8, 23, 127) <= 0x7f80_0000,
{
    lemma2_to64();
}

/// Operands whose exponents `eh >= el + 27` differ by more than a significand and
/// binary32's guard bits: the smaller one only decides the sticky bit.
proof fn lemma_far16(sh: nat, eh: int, sl: nat, el: int)
    requires
        0x400 <= sh < 0x1000,
        sl < 0x1000,
        -100 <= el,
        el + 27 <= eh <= 100,
    ensures
        ({
            let j = (eh + 1058) as nat;
            let hi = sh * pow2((eh + 1074) as nat);
            let lo = sl * pow2((el + 1074) as nat);
            &&& (hi + lo) / pow2(j + 1) == sh * pow2(15)
            &&& ((hi + lo) % pow2(j + 1) != 0) == (sl != 0)
            &&& sl != 0 ==> ((hi - lo) as nat) / pow2(j + 1) == sh * pow2(15) - 1
            &&& sl != 0 ==> ((hi - lo) as nat) % pow2(j + 1) != 0
            &&& lo < hi
        }),
{
    let j = (eh + 1058) as nat;
    let p = pow2(j + 1);
    let hi = sh * pow2((eh + 1074) as nat);
    let lo = sl * pow2((el + 1074) as nat);
    let f = sh * pow2(15);
    lemma2_to64();
    lemma_pow2_pos(j + 1);
    lemma_pow2_pos((el + 1074) as nat);
    lemma_pow2_adds(15, j + 1);
    lemma_pow2_adds(12, (el + 1074) as nat);
    vstd::arithmetic::mul::lemma_mul_is_associative(sh as int, pow2(15) as int, p as int);
    assert(hi == f * p);
    if (el + 1074 + 12) < j + 1 {
        lemma_pow2_strictly_increases((el + 1074 + 12) as nat, j + 1);
    }
    assert(lo < p) by (nonlinear_arith)
        requires
            lo == sl * pow2((el + 1074) as nat),
            sl < pow2(12),
            pow2(12) * pow2((el + 1074) as nat) <= p,
            pow2((el + 1074) as nat) > 0,
    ;
    vstd::arithmetic::div_mod::lemma_fundamental_div_mod_converse((hi + lo) as int, p as int, f as int, lo as int);
    assert(lo == 0 <==> sl == 0) by (nonlinear_arith)
        requires
            lo == sl * pow2((el + 1074) as nat),
            pow2((el + 1074) as nat) > 0,
    ;
    if sl != 0 {
        assert(hi - lo == (f - 1) * p + (p - lo)) by (nonlinear_arith)
            requires
                hi == f * p,
        ;
        vstd::arithmetic::div_mod::lemma_fundamental_div_mod_converse((hi - lo) as int, p as int, (f - 1) as int, (p - lo) as int);
    }
    assert(lo < hi) by (nonlinear_arith)
        requires
            hi == f * p,
            lo < p,
            f >= 1,
    ;
}

/// Moves `sig * 2^exp` to the lower exponent `low`.
proof fn lemma_align16(sig: nat, exp: int, low: int)
    requires
        low <= exp,
        low + 1074 >= 0,
    ensures
        sig * pow2((exp + 1074) as nat) == (sig * pow2((exp - low) as nat)) * pow2((low + 1074) as nat),
{
    lemma_pow2_adds((exp - low) as nat, (low + 1074) as nat);
    vstd::arithmetic::mul::lemma_mul_is_associative(sig as int, pow2((exp - low) as nat) as int, pow2((low + 1074) as nat) as int);
}

/// Shifting a 12-bit significand by at most 40 places stays below `2^52`.
proof fn lemma_shift_bound(sig: nat, gap: nat)
    requires
        sig < 0x1000,
        gap <= 40,
    ensures
        sig * pow2(gap) < pow2(52),
        pow2(52) == 0x10_0000_0000_0000,
        pow2(53) == 0x20_0000_0000_0000,
{
    lemma2_to64();
    lemma2_to64_rest();
    lemma_pow2_pos(gap);
    if gap < 40 {
        lemma_pow2_strictly_increases(gap, 40);
    }
    lemma_pow2_adds(12, 40);
    vstd::arithmetic::mul::lemma_mul_strict_inequality(sig as int, pow2(12) as int, pow2(gap) as int);
    vstd::arithmetic::mul::lemma_mul_inequality(pow2(12) as int, pow2(12) as int, pow2(gap) as int);
    vstd::arithmetic::mul::lemma_mul_inequality(pow2(gap) as int, pow2(40) as int, pow2(12) as int);
}

/// `a + b` in the 16-bit layout `(exp_bits, mantissa_bits, bias)`, computed in binary32.
pub(crate) fn add16(a: u16, b: u16, exp_bits: u32, mantissa_bits: u32, bias: i32) -> (r: u16)
    requires
        half_layout(exp_bits as nat, mantissa_bits as nat, bias as int),
    ensures
        r == sum_f32_bits(a as nat, b as nat, exp_bits as nat, mantissa_bits as nat, bias as int),
{
    let ghost eb = exp_bits as nat;
    let ghost mb = mantissa_bits as nat;
    proof {
        lemma_half_constants(eb, mb, bias as int);
    }
    let (inf, nan) = specials16(exp_bits, mantissa_bits);
    let (a_nan, a_inf) = classify16(a, exp_bits, mantissa_bits);
    let (b_nan, b_inf) = classify16(b, exp_bits, mantissa_bits);
    if a_nan || b_nan {
        return nan;
    }
    if a_inf || b_inf {
        return inf;
    }
    proof {
        crate::model::lemma_classes(a as nat, eb, mb);
        crate::model::lemma_classes(b as nat, eb, mb);
    }
    let (sa, ea) = decompose16(a, exp_bits, mantissa_bits, bias);
    let (sb, eb2) = decompose16(b, exp_bits, mantissa_bits, bias);
    let ghost total = units(a as nat, eb, mb, bias as int) + units(b as nat, eb, mb, bias as int);
    proof {
        lemma_f32_encoded_fits(total);
    }
    let (sh, eh, sl, el) = if ea >= eb2 { (sa, ea, sb, eb2) } else { (sb, eb2, sa, ea) };
    let gap = eh - el;
    let r32: u32 = if gap <= 40 {
        proof {
            lemma_align16(sh as nat, eh as int, el as int);
            lemma_shift_bound(sh as nat, gap as nat);
            lemma_u64_shl(sh, gap as u32);
            vstd::arithmetic::mul::lemma_mul_is_distributive_add_other_way(pow2((el + 1074) as nat) as int, (sh * pow2(gap as nat)) as int, sl as int);
        }
        let s = (sh << (gap as u32)) + sl;
        if s == 0 {
            0
        } else {
            encode_finite(s, el, 255, 8, 23, 127) as u32
        }
    } else {
        proof {
            lemma_far16(sh as nat, eh as int, sl as nat, el as int);
            lemma2_to64();
            lemma_pow2_adds(10, 15);
            lemma_pow2_adds(15, 1);
            lemma_pow2_adds(12, 16);
            lemma_pow2_strictly_increases(28, 53);
            vstd::arithmetic::mul::lemma_mul_inequality(0x400, sh as int, pow2(15) as int);
            vstd::arithmetic::mul::lemma_mul_strict_inequality(sh as int, 0x1000, pow2(16) as int);
            lemma_u64_shl(sh, 16);
            let st: nat = if sl != 0 { 1 } else { 0 };
            lemma_pow2_strictly_increases(24, 25);
            lemma_sticky_integer(total, (eh + 1058) as nat, (sh * pow2(15)) as nat, st, 8, 23, 127);
            lemma2_to64_rest();
        }
        let big = (sh << 16u32) + (if sl != 0 { 1u64 } else { 0u64 });
        encode_finite(big, eh - 16, 255, 8, 23, 127) as u32
    };
    from_f32_result(r32, exp_bits, mantissa_bits, bias)
}

/// The larger of two patterns within the layout's width has the larger or equal
/// exponent field.
proof fn lemma_exponent_order16(hi: nat, lo: nat, eb: nat, mb: nat)
    requires
        lo <= hi < pow2(eb + mb),
    ensures
        exp_field(lo, eb, mb) <= exp_field(hi, eb, mb),
{
    lemma_pow2_pos(mb);
    crate::model::lemma_split(hi, eb, mb);
    crate::model::lemma_split(lo, eb, mb);
    let eh = exp_field(hi, eb, mb);
    let el = exp_field(lo, eb, mb);
    assert(el <= eh) by (nonlinear_arith)
        requires
            hi == eh * pow2(mb) + man_field(hi, mb),
            lo == el * pow2(mb) + man_field(lo, mb),
            man_field(hi, mb) < pow2(mb),
            man_field(lo, mb) < pow2(mb),
            lo <= hi,
    ;
}

/// `a - b` in the 16-bit layout `(exp_bits, mantissa_bits, bias)`, computed in binary32.
pub(crate) fn sub16(a: u16, b: u16, exp_bits: u32, mantissa_bits: u32, bias: i32) -> (r: u16)
    requires
        half_layout(exp_bits as nat, mantissa_bits as nat, bias as int),
    ensures
        r == difference_f32_bits(a as nat, b as nat, exp_bits as nat, mantissa_bits as nat, bias as int),
{
    let ghost eb = exp_bits as nat;
    let ghost mb = mantissa_bits as nat;
    proof {
        lemma_half_constants(eb, mb, bias as int);
    }
    let (inf, nan) = specials16(exp_bits, mantissa_bits);
    let (a_nan, a_inf) = classify16(a, exp_bits, mantissa_bits);
    let (b_nan, b_inf) = classify16(b, exp_bits, mantissa_bits);
    if a_nan || b_nan || b_inf {
        return nan;
    }
    if a_inf {
        return inf;
    }
    proof {
        crate::model::lemma_classes(a as nat, eb, mb);
        crate::model::lemma_classes(b as nat, eb, mb);
    }
    if a < b {
        proof {
            crate::model::lemma_units_strictly_increasing(a as nat, b as nat, eb, mb, bias as int);
        }
        return nan;
    }
    let ghost ua = units(a as nat, eb, mb, bias as int);
    let ghost ub = units(b as nat, eb, mb, bias as int);
    let ghost total = (ua - ub) as nat;
    proof {
        if a > b {
            crate::model::lemma_units_strictly_increasing(b as nat, a as nat, eb, mb, bias as int);
        }
        lemma_exponent_order16(a as nat, b as nat, eb, mb);
        lemma_f32_encoded_fits(total);
    }
    let (sh, eh) = decompose16(a, exp_bits, mantissa_bits, bias);
    let (sl, el) = decompose16(b, exp_bits, mantissa_bits, bias);
    let gap = eh - el;
    let r32: u32 = if gap <= 40 {
        proof {
            lemma_align16(sh as nat, eh as int, el as int);
            lemma_shift_bound(sh as nat, gap as nat);
            lemma_u64_shl(sh, gap as u32);
            vstd::arithmetic::mul::lemma_mul_is_distributive_sub_other_way(pow2((el + 1074) as nat) as int, (sh * pow2(gap as nat)) as int, sl as int);
            lemma_pow2_pos((el + 1074) as nat);
            let w = pow2((el + 1074) as nat);
            assert(sh * pow2(gap as nat) >= sl) by (nonlinear_arith)
                requires
                    (sh * pow2(gap as nat)) * w >= sl * w,
                    w > 0,
            ;
        }
        let s = (sh << (gap as u32)) - sl;
        if s == 0 {
            0
        } else {
            encode_finite(s, el, 255, 8, 23, 127) as u32
        }
    } else if sl == 0 {
        proof {
            lemma_shift_bound(sh as nat, 0);
        }
        encode_finite(sh, eh, 255, 8, 23, 127) as u32
    } else {
        proof {
            lemma_far16(sh as nat, eh as int, sl as nat, el as int);
            lemma2_to64();
            lemma_pow2_adds(10, 15);
            lemma_pow2_adds(15, 1);
            lemma_pow2_adds(12, 16);
            lemma_pow2_strictly_increases(28, 53);
            vstd::arithmetic::mul::lemma_mul_inequality(0x400, sh as int, pow2(15) as int);
            vstd::arithmetic::mul::lemma_mul_strict_inequality(sh as int, 0x1000, pow2(16) as int);
            lemma_u64_shl(sh, 16);
            lemma_pow2_strictly_increases(24, 25);
            lemma_sticky_integer(total, (eh + 1058) as nat, (sh * pow2(15) - 1) as nat, 1, 8, 23, 127);
            lemma2_to64_rest();
        }
        let big = (sh << 16u32) - 1;
        encode_finite(big, eh - 16, 255, 8, 23, 127) as u32
    };
    from_f32_result(r32, exp_bits, mantissa_bits, bias)
}

/// A pattern other than zero, within the layout's width, has a non-zero value.
proof fn lemma_nonzero16(x: nat, eb: nat, mb: nat, bias: int)
    requires
        x < pow2(eb + mb),
        x != 0,
        bias + mb <= 1075,
    ensures
        units(x, eb, mb, bias) != 0,
{
    lemma_pow2_pos(mb);
    crate::model::lemma_split(x, eb, mb);
    crate::model::lemma_units_binade(x, eb, mb, bias);
    if exp_field(x, eb, mb) == 0 && man_field(x, mb) == 0 {
        assert(x == 0 * pow2(mb) + 0);
    }
}

/// `a * b` in the 16-bit layout `(exp_bits, mantissa_bits, bias)`, computed in binary32.
pub(crate) fn mul16(a: u16, b: u16, exp_bits: u32, mantissa_bits: u32, bias: i32) -> (r: u16)
    requires
        half_layout(exp_bits as nat, mantissa_bits as nat, bias as int),
    ensures
        r == product_f32_bits(a as nat, b as nat, exp_bits as nat, mantissa_bits as nat, bias as int),
{
    let ghost eb = exp_bits as nat;
    let ghost mb = mantissa_bits as nat;
    proof {
        lemma_half_constants(eb, mb, bias as int);
    }
    let (inf, nan) = specials16(exp_bits, mantissa_bits);
    let (a_nan, a_inf) = classify16(a, exp_bits, mantissa_bits);
    let (b_nan, b_inf) = classify16(b, exp_bits, mantissa_bits);
    if a_nan || b_nan {
        return nan;
    }
    if a_inf || b_inf {
        if a == 0 || b == 0 {
            proof {
                lemma_pow2_pos(eb);
                lemma_pow2_pos(mb);
                crate::model::lemma_fields(0, 0, eb, mb);
                crate::model::lemma_units_binade(0, eb, mb, bias as int);
            }
            return nan;
        }
        proof {
            lemma_nonzero16(a as nat, eb, mb, bias as int);
            lemma_nonzero16(b as nat, eb, mb, bias as int);
        }
        return inf;
    }
    proof {
        crate::model::lemma_classes(a as nat, eb, mb);
        crate::model::lemma_classes(b as nat, eb, mb);
    }
    let (sa, ea) = decompose16(a, exp_bits, mantissa_bits, bias);
    let (sb, eb2) = decompose16(b, exp_bits, mantissa_bits, bias);
    let ghost ua = units(a as nat, eb, mb, bias as int);
    let ghost ub = units(b as nat, eb, mb, bias as int);
    proof {
        assert(sa * sb < 0x1000 * 0x1000) by (nonlinear_arith)
            requires
                sa < 0x1000,
                sb < 0x1000,
        ;
    }
    let product = sa * sb;
    let exponent = ea + eb2;
    proof {
        let pa = pow2((ea + 1074) as nat);
        let pb = pow2((eb2 + 1074) as nat);
        let pe = pow2((exponent + 1074) as nat);
        lemma_pow2_adds((ea + 1074) as nat, (eb2 + 1074) as nat);
        lemma_pow2_adds((exponent + 1074) as nat, 1074);
        lemma_pow2_pos(1074);
        assert(ua * ub == (product * pe) * pow2(1074)) by (nonlinear_arith)
            requires
                ua == sa * pa,
                ub == sb * pb,
                pa * pb == pe * pow2(1074),
                product == sa * sb,
        ;
        vstd::arithmetic::div_mod::lemma_div_by_multiple((product * pe) as int, pow2(1074) as int);
        lemma_shift_bound(0, 0);
        lemma_f32_encoded_fits(product as nat * pe);
    }
    let r32: u32 = if product == 0 {
        proof {
            lemma2_to64();
            lemma_pow2_pos(23);
            crate::model::lemma_fields(0, 0, 8, 23);
            assert(product as nat * pow2((exponent + 1074) as nat) == 0) by (nonlinear_arith)
                requires
                    product == 0,
            ;
        }
        0
    } else {
        encode_finite(product, exponent, 255, 8, 23, 127) as u32
    };
    from_f32_result(r32, exp_bits, mantissa_bits, bias)
}

/// `a / b` in the 16-bit layout `(exp_bits, mantissa_bits, bias)`, computed in binary32.
pub(crate) fn div16(a: u16, b: u16, exp_bits: u32, mantissa_bits: u32, bias: i32) -> (r: u16)
    requires
        half_layout(exp_bits as nat, mantissa_bits as nat, bias as int),
    ensures
        r == quotient_f32_bits(a as nat, b as nat, exp_bits as nat, mantissa_bits as nat, bias as int),
{
    let ghost eb = exp_bits as nat;
    let ghost mb = mantissa_bits as nat;
    proof {
        lemma_half_constants(eb, mb, bias as int);
    }
    let (inf, nan) = specials16(exp_bits, mantissa_bits);
    let (a_nan, a_inf) = classify16(a, exp_bits, mantissa_bits);
    let (b_nan, b_inf) = classify16(b, exp_bits, mantissa_bits);
    if a_nan || b_nan {
        return nan;
    }
    if a_inf {
        if b_inf {
            return nan;
        }
        return inf;
    }
    if b_inf {
        return 0;
    }
    proof {
        crate::model::lemma_classes(a as nat, eb, mb);
        crate::model::lemma_classes(b as nat, eb, mb);
    }
    let (sa, ea) = decompose16(a, exp_bits, mantissa_bits, bias);
    let (sb, eb2) = decompose16(b, exp_bits, mantissa_bits, bias);
    if sb == 0 {
        if sa == 0 {
            return nan;
        }
        return inf;
    }
    if sa == 0 {
        proof {
            assert(0 * pow2(1074) == 0);
            lemma2_to64();
            lemma_pow2_pos(23);
            crate::model::lemma_fields(0, 0, 8, 23);
        }
        return from_f32_result(0, exp_bits, mantissa_bits, bias);
    }
    let ghost ua = units(a as nat, eb, mb, bias as int);
    let ghost ub = units(b as nat, eb, mb, bias as int);
    let ghost n = ua * pow2(1074);
    let ghost d = ub;
    let la = crate::codec::floor_log2(sa);
    let lb = crate::codec::floor_log2(sb);
    proof {
        lemma_log2_bounds(sa as nat);
        lemma_log2_bounds(sb as nat);
        lemma2_to64();
        if log2(sa as nat) >= 12 {
            lemma_pow2_strictly_increases(12, log2(sa as nat));
        }
        if log2(sb as nat) >= 12 {
            lemma_pow2_strictly_increases(12, log2(sb as nat));
        }
    }
    let k: u32 = 26 + lb - la;
    proof {
        crate::arith64::lemma_scaled_bounds(sa as nat, sb as nat, k as nat, 25);
        lemma_pow2_adds(la as nat + 1, k as nat);
        lemma_pow2_pos(k as nat);
        vstd::arithmetic::mul::lemma_mul_strict_inequality(sa as int, pow2(la as nat + 1) as int, pow2(k as nat) as int);
        lemma2_to64_rest();
        lemma_pow2_strictly_increases(27 + lb as nat, 64);
        lemma_u64_shl(sa, k);
    }
    let scaled = sa << k;
    let f = scaled / sb;
    let rem = scaled % sb;
    let ghost w = pow2((ea + 2148 - k) as nat);
    let ghost j = (ea - eb2 - k - 1 + 1074) as nat;
    proof {
        lemma_pow2_pos(25);
        lemma_pow2_pos(27);
        vstd::arithmetic::div_mod::lemma_fundamental_div_mod(scaled as int, sb as int);
        vstd::arithmetic::div_mod::lemma_mod_pos_bound(scaled as int, sb as int);
        assert(f < pow2(27)) by (nonlinear_arith)
            requires
                scaled == sb * f + rem,
                scaled < pow2(27) * sb,
                rem >= 0,
                sb > 0,
        ;
        assert(f >= pow2(25)) by (nonlinear_arith)
            requires
                scaled == sb * f + rem,
                scaled >= pow2(25) * sb,
                rem < sb,
                sb > 0,
        ;
        lemma_pow2_pos((ea + 2148 - k) as nat);
        lemma_pow2_adds((ea + 1074) as nat, 1074);
        lemma_pow2_adds(k as nat, (ea + 2148 - k) as nat);
        lemma_pow2_adds((eb2 + 1074) as nat, j + 1);
        assert(n == (scaled as nat) * w) by (nonlinear_arith)
            requires
                n == ua * pow2(1074),
                ua == sa * pow2((ea + 1074) as nat),
                pow2((ea + 1074) as nat) * pow2(1074) == pow2((ea + 2148) as nat),
                pow2(k as nat) * w == pow2((ea + 2148) as nat),
                scaled == sa * pow2(k as nat),
        ;
        let c = d * pow2(j + 1);
        assert(c == (sb as nat) * w) by (nonlinear_arith)
            requires
                c == d * pow2(j + 1),
                d == sb * pow2((eb2 + 1074) as nat),
                pow2((eb2 + 1074) as nat) * pow2(j + 1) == w,
        ;
        lemma_div_scaled(scaled as nat, sb as nat, w);
        assert((n % c != 0) == (rem != 0)) by (nonlinear_arith)
            requires
                n % c == rem * w,
                w > 0,
        ;
    }
    let big = 2 * f + (if rem != 0 { 1u64 } else { 0u64 });
    let exponent = ea - eb2 - k as i32 - 1;
    proof {
        lemma_sticky_binade(n, d, j);
        lemma_log2_bounds(f as nat);
        if log2(f as nat) < 25 {
            lemma_pow2_strictly_increases(log2(f as nat) + 1, 25);
        }
        let q = quantum(n / d, 23, 127);
        lemma_sticky_rounding(n, d, j, q);
        lemma_pow2_strictly_increases(28, 53);
        lemma_pow2_adds(27, 1);
        lemma_f32_encoded_fits((big as nat) * pow2(j));
        lemma_pow2_pos(j);
        assert(big * pow2(j) > 0) by (nonlinear_arith)
            requires
                big >= 1,
                pow2(j) > 0,
        ;
        assert(n > 0) by (nonlinear_arith)
            requires
                n == scaled * w,
                scaled > 0,
                w > 0,
        ;
    }
    let r32 = encode_finite(big, exponent, 255, 8, 23, 127) as u32;
    from_f32_result(r32, exp_bits, mantissa_bits, bias)
}

/// Addition and multiplication computed in binary32 do not depend on the order of
/// their operands.
pub proof fn lemma_commutative16(a: nat, b: nat, eb: nat, mb: nat, bias: int)
    ensures
        sum_f32_bits(a, b, eb, mb, bias) == sum_f32_bits(b, a, eb, mb, bias),
        product_f32_bits(a, b, eb, mb, bias) == product_f32_bits(b, a, eb, mb, bias),
{
    vstd::arithmetic::mul::lemma_mul_is_commutative(units(a, eb, mb, bias) as int, units(b, eb, mb, bias) as int);
}

/// `a + b` for E5M11 patterns, computed in binary32.
pub fn add_uf16(a: u16, b: u16) -> (r: u16)
    ensures
        r == sum_f32_bits(a as nat, b as nat, 5, 11, 15),
{
    add16(a, b, UF16_EXP_BITS, UF16_MANTISSA_BITS, UF16_BIAS)
}

/// `a - b` for E5M11 patterns, computed in binary32.
pub fn sub_uf16(a: u16, b: u16) -> (r: u16)
    ensures
        r == difference_f32_bits(a as nat, b as nat, 5, 11, 15),
{
    sub16(a, b, UF16_EXP_BITS, UF16_MANTISSA_BITS, UF16_BIAS)
}

/// `a * b` for E5M11 patterns, computed in binary32.
pub fn mul_uf16(a: u16, b: u16) -> (r: u16)
    ensures
        r == product_f32_bits(a as nat, b as nat, 5, 11, 15),
{
    mul16(a, b, UF16_EXP_BITS, UF16_MANTISSA_BITS, UF16_BIAS)
}

/// `a / b` for E5M11 patterns, computed in binary32.
pub fn div_uf16(a: u16, b: u16) -> (r: u16)
    ensures
        r == quotient_f32_bits(a as nat, b as nat, 5, 11, 15),
{
    div16(a, b, UF16_EXP_BITS, UF16_MANTISSA_BITS, UF16_BIAS)
}

/// `a + b` for E6M10 patterns, computed in binary32.
pub fn add_uf16_e6m10(a: u16, b: u16) -> (r: u16)
    ensures
        r == sum_f32_bits(a as nat, b as nat, 6, 10, 31),
{
    add16(a, b, UF16_E6M10_EXP_BITS, UF16_E6M10_MANTISSA_BITS, UF16_E6M10_BIAS)
}

/// `a - b` for E6M10 patterns, computed in binary32.
pub fn sub_uf16_e6m10(a: u16, b: u16) -> (r: u16)
    ensures
        r == difference_f32_bits(a as nat, b as nat, 6, 10, 31),
{
    sub16(a, b, UF16_E6M10_EXP_BITS, UF16_E6M10_MANTISSA_BITS, UF16_E6M10_BIAS)
}

/// `a * b` for E6M10 patterns, computed in binary32.
pub fn mul_uf16_e6m10(a: u16, b: u16) -> (r: u16)
    ensures
        r == product_f32_bits(a as nat, b as nat, 6, 10, 31),
{
    mul16(a, b, UF16_E6M10_EXP_BITS, UF16_E6M10_MANTISSA_BITS, UF16_E6M10_BIAS)
}

/// `a / b` for E6M10 patterns, computed in binary32.
pub fn div_uf16_e6m10(a: u16, b: u16) -> (r: u16)
    ensures
        r == quotient_f32_bits(a as nat, b as nat, 6, 10, 31),
{
    div16(a, b, UF16_E6M10_EXP_BITS, UF16_E6M10_MANTISSA_BITS, UF16_E6M10_BIAS)
}

impl Add for Uf16 {
    type Output = Self;

    fn add(self, rhs: Self) -> (r: Self) {
        let r = Uf16::from_bits(add_uf16(self.to_bits(), rhs.to_bits()));
        proof {
            Uf16::lemma_with_bits(r@, r);
        }
        r
    }
}

impl AddSpecImpl for Uf16 {
    open spec fn obeys_add_spec() -> bool {
        true
    }

    open spec fn add_req(self, rhs: Self) -> bool {
        true
    }

    open spec fn add_spec(self, rhs: Self) -> Self {
        Uf16::with_bits(sum_f32_bits(self@ as nat, rhs@ as nat, 5, 11, 15) as u16)
    }
}

impl Sub for Uf16 {
    type Output = Self;

    fn sub(self, rhs: Self) -> (r: Self) {
        let r = Uf16::from_bits(sub_uf16(self.to_bits(), rhs.to_bits()));
        proof {
            Uf16::lemma_with_bits(r@, r);
        }
        r
    }
}

impl SubSpecImpl for Uf16 {
    open spec fn obeys_sub_spec() -> bool {
        true
    }

    open spec fn sub_req(self, rhs: Self) -> bool {
        true
    }

    open spec fn sub_spec(self, rhs: Self) -> Self {
        Uf16::with_bits(difference_f32_bits(self@ as nat, rhs@ as nat, 5, 11, 15) as u16)
    }
}

impl Mul for Uf16 {
    type Output = Self;

    fn mul(self, rhs: Self) -> (r: Self) {
        let r = Uf16::from_bits(mul_uf16(self.to_bits(), rhs.to_bits()));
        proof {
            Uf16::lemma_with_bits(r@, r);
        }
        r
    }
}

impl MulSpecImpl for Uf16 {
    open spec fn obeys_mul_spec() -> bool {
        true
    }

    open spec fn mul_req(self, rhs: Self) -> bool {
        true
    }

    open spec fn mul_spec(self, rhs: Self) -> Self {
        Uf16::with_bits(product_f32_bits(self@ as nat, rhs@ as nat, 5, 11, 15) as u16)
    }
}

impl Div for Uf16 {
    type Output = Self;

    fn div(self, rhs: Self) -> (r: Self) {
        let r = Uf16::from_bits(div_uf16(self.to_bits(), rhs.to_bits()));
        proof {
            Uf16::lemma_with_bits(r@, r);
        }
        r
    }
}

impl DivSpecImpl for Uf16 {
    open spec fn obeys_div_spec() -> bool {
        true
    }

    open spec fn div_req(self, rhs: Self) -> bool {
        true
    }

    open spec fn div_spec(self, rhs: Self) -> Self {
        Uf16::with_bits(quotient_f32_bits(self@ as nat, rhs@ as nat, 5, 11, 15) as u16)
    }
}

impl Add for Uf16E6M10 {
    type Output = Self;

    fn add(self, rhs: Self) -> (r: Self) {
        let r = Uf16E6M10::from_bits(add_uf16_e6m10(self.to_bits(), rhs.to_bits()));
        proof {
            Uf16E6M10::lemma_with_bits(r@, r);
        }
        r
    }
}

impl AddSpecImpl for Uf16E6M10 {
    open spec fn obeys_add_spec() -> bool {
        true
    }

    open spec fn add_req(self, rhs: Self) -> bool {
        true
    }

    open spec fn add_spec(self, rhs: Self) -> Self {
        Uf16E6M10::with_bits(sum_f32_bits(self@ as nat, rhs@ as nat, 6, 10, 31) as u16)
    }
}

impl Sub for Uf16E6M10 {
    type Output = Self;

    fn sub(self, rhs: Self) -> (r: Self) {
        let r = Uf16E6M10::from_bits(sub_uf16_e6m10(self.to_bits(), rhs.to_bits()));
        proof {
            Uf16E6M10::lemma_with_bits(r@, r);
        }
        r
    }
}

impl SubSpecImpl for Uf16E6M10 {
    open spec fn obeys_sub_spec() -> bool {
        true
    }

    open spec fn sub_req(self, rhs: Self) -> bool {
        true
    }

    open spec fn sub_spec(self, rhs: Self) -> Self {
        Uf16E6M10::with_bits(difference_f32_bits(self@ as nat, rhs@ as nat, 6, 10, 31) as u16)
    }
}

impl Mul for Uf16E6M10 {
    type Output = Self;

    fn mul(self, rhs: Self) -> (r: Self) {
        let r = Uf16E6M10::from_bits(mul_uf16_e6m10(self.to_bits(), rhs.to_bits()));
        proof {
            Uf16E6M10::lemma_with_bits(r@, r);
        }
        r
    }
}

impl MulSpecImpl for Uf16E6M10 {
    open spec fn obeys_mul_spec() -> bool {
        true
    }

    open spec fn mul_req(self, rhs: Self) -> bool {
        true
    }

    open spec fn mul_spec(self, rhs: Self) -> Self {
        Uf16E6M10::with_bits(product_f32_bits(self@ as nat, rhs@ as nat, 6, 10, 31) as u16)
    }
}

impl Div for Uf16E6M10 {
    type Output = Self;

    fn div(self, rhs: Self) -> (r: Self) {
        let r = Uf16E6M10::from_bits(div_uf16_e6m10(self.to_bits(), rhs.to_bits()));
        proof {
            Uf16E6M10::lemma_with_bits(r@, r);
        }
        r
    }
}

impl DivSpecImpl for Uf16E6M10 {
    open spec fn obeys_div_spec() -> bool {
        true
    }

    open spec fn div_req(self, rhs: Self) -> bool {
        true
    }

    open spec fn div_spec(self, rhs: Self) -> Self {
        Uf16E6M10::with_bits(quotient_f32_bits(self@ as nat, rhs@ as nat, 6, 10, 31) as u16)
    }
}

} // verus!
