//! Arithmetic of the 8-bit layouts: the exact result, rounded once to nearest with
//! ties to even.
//!
//! Binary32 carries more than twice the bits of an 8-bit significand plus two, and
//! its range holds every exact result, so computing in binary32 and then rounding to
//! the layout gives these same patterns.
use vstd::prelude::*;
use vstd::arithmetic::power2::{pow2, lemma2_to64, lemma2_to64_rest, lemma_pow2_adds, lemma_pow2_pos, lemma_pow2_strictly_increases};
use crate::model::{log2, rne, quantum, units, exp_field, man_field, max_exp, inf_bits, nan_bits, encode_value, encodable, is_nan_bits, is_inf_bits, is_finite_bits, sub_shift};
use crate::bitfacts::{lemma_u64_shr, lemma_u64_mask, lemma_u64_one_shl, lemma_u64_shl};
use crate::codec::encode_finite;
use crate::dispatch::{UF8_EXP_BITS, UF8_MANTISSA_BITS, UF8_BIAS, UF8_E5M3_EXP_BITS, UF8_E5M3_MANTISSA_BITS, UF8_E5M3_BIAS};
use crate::uf8::{Uf8E4M4, Uf8E5M3};
use core::ops::{Add, Sub, Mul, Div};
use vstd::std_specs::ops::{AddSpecImpl, SubSpecImpl, MulSpecImpl, DivSpecImpl};

verus! {

/// An 8-bit layout that the arithmetic handles.
pub open spec fn small_layout(eb: nat, mb: nat, bias: int) -> bool {
    &&& 2 <= eb <= 5
    &&& 1 <= mb
    &&& eb + mb == 8
    &&& 0 <= bias <= 30
}

/// The pattern of `a + b`: NaN when either is NaN, infinity when either is infinite,
/// and otherwise the rounded sum.
pub open spec fn sum_bits(a: nat, b: nat, eb: nat, mb: nat, bias: int) -> nat {
    if is_nan_bits(a, eb, mb) || is_nan_bits(b, eb, mb) {
        nan_bits(eb, mb)
    } else if is_inf_bits(a, eb, mb) || is_inf_bits(b, eb, mb) {
        inf_bits(eb, mb)
    } else {
        encode_value(units(a, eb, mb, bias) + units(b, eb, mb, bias), eb, mb, bias)
    }
}

/// The pattern of `a - b`: NaN when either is NaN, when `b` is infinite (the result
/// is negative infinity or undefined) and when the difference is negative; infinity
/// when only `a` is; and otherwise the rounded difference.
pub open spec fn difference_bits(a: nat, b: nat, eb: nat, mb: nat, bias: int) -> nat {
    if is_nan_bits(a, eb, mb) || is_nan_bits(b, eb, mb) || is_inf_bits(b, eb, mb) {
        nan_bits(eb, mb)
    } else if is_inf_bits(a, eb, mb) {
        inf_bits(eb, mb)
    } else if units(a, eb, mb, bias) >= units(b, eb, mb, bias) {
        encode_value((units(a, eb, mb, bias) - units(b, eb, mb, bias)) as nat, eb, mb, bias)
    } else {
        nan_bits(eb, mb)
    }
}

/// The pattern of `a * b`, with values counted in steps of `2^-unit`: NaN when
/// either is NaN or when zero meets infinity, infinity when either is otherwise
/// infinite, and otherwise the rounded product (a whole number of steps when the
/// layout's own steps are at least `2^(-unit/2)`).
pub open spec fn product_bits_in(a: nat, b: nat, eb: nat, mb: nat, bias: int, unit: nat) -> nat {
    if is_nan_bits(a, eb, mb) || is_nan_bits(b, eb, mb) {
        nan_bits(eb, mb)
    } else if is_inf_bits(a, eb, mb) || is_inf_bits(b, eb, mb) {
        if units(a, eb, mb, bias) == 0 || units(b, eb, mb, bias) == 0 {
            nan_bits(eb, mb)
        } else {
            inf_bits(eb, mb)
        }
    } else {
        encode_value(units(a, eb, mb, bias) * units(b, eb, mb, bias) / pow2(unit), eb, mb, bias)
    }
}

/// The pattern of `a * b`, values counted in steps of `2^-1074` (every product of
/// two values of these layouts is a whole number of such steps).
pub open spec fn product_bits(a: nat, b: nat, eb: nat, mb: nat, bias: int) -> nat {
    product_bits_in(a, b, eb, mb, bias, 1074)
}

/// `n / (d * 2^q)` rounded to the nearest integer, ties to the even one.
pub open spec fn rne_ratio(n: nat, d: nat, q: nat) -> nat {
    let dq = d * pow2(q);
    let fl = n / dq;
    let r = n % dq;
    if 2 * r > dq || (2 * r == dq && fl % 2 == 1) {
        fl + 1
    } else {
        fl
    }
}

/// The pattern of the positive ratio `n / d` (a value in units): rounded to the
/// layout's nearest number, ties to even, and infinity when the rounded value is out
/// of range. The step near the ratio is that of its whole part.
pub open spec fn encode_ratio(n: nat, d: nat, eb: nat, mb: nat, bias: int) -> nat {
    let q = quantum(n / d, mb, bias);
    let t = ((q - sub_shift(mb, bias)) as nat) * pow2(mb) + rne_ratio(n, d, q);
    if n == 0 {
        0
    } else if t >= inf_bits(eb, mb) {
        inf_bits(eb, mb)
    } else {
        t
    }
}

/// The pattern of `a / b`, with values counted in steps of `2^-unit`: NaN when
/// either is NaN, for infinity over infinity and for zero over zero; infinity for
/// infinity over a finite value and for a non-zero value over zero; zero for a finite
/// value over infinity and for zero over a non-zero value; and otherwise the rounded
/// quotient.
pub open spec fn quotient_bits_in(a: nat, b: nat, eb: nat, mb: nat, bias: int, unit: nat) -> nat {
    if is_nan_bits(a, eb, mb) || is_nan_bits(b, eb, mb) {
        nan_bits(eb, mb)
    } else if is_inf_bits(a, eb, mb) {
        if is_inf_bits(b, eb, mb) {
            nan_bits(eb, mb)
        } else {
            inf_bits(eb, mb)
        }
    } else if is_inf_bits(b, eb, mb) {
        0
    } else if units(b, eb, mb, bias) == 0 {
        if units(a, eb, mb, bias) == 0 {
            nan_bits(eb, mb)
        } else {
            inf_bits(eb, mb)
        }
    } else {
        encode_ratio(units(a, eb, mb, bias) * pow2(unit), units(b, eb, mb, bias), eb, mb, bias)
    }
}

/// The pattern of `a / b`, values counted in steps of `2^-1074`.
pub open spec fn quotient_bits(a: nat, b: nat, eb: nat, mb: nat, bias: int) -> nat {
    quotient_bits_in(a, b, eb, mb, bias, 1074)
}

/// Rounding through a sticky bit: with `F = floor(n / (d * 2^(j+1)))` and the sticky
/// bit set when that division leaves a remainder, `(2F + sticky) * 2^j` rounds at any
/// step `2^q` with `q >= j + 2` exactly as the ratio `n / d` does.
pub(crate) proof fn lemma_sticky_rounding(n: nat, d: nat, j: nat, q: nat)
    requires
        d > 0,
        q >= j + 2,
    ensures
        ({
            let c = d * pow2(j + 1);
            let big = 2 * (n / c) + (if n % c != 0 { 1nat } else { 0nat });
            rne(big * pow2(j), q) == rne_ratio(n, d, q)
        }),
{
    let g = pow2(j + 1);
    let h = pow2(j);
    let c = d * g;
    let t = (q - j - 1) as nat;
    let tt = pow2(t);
    let p = pow2(q);
    lemma_pow2_pos(j);
    lemma_pow2_pos(j + 1);
    lemma_pow2_pos(t);
    lemma_pow2_adds(j + 1, t);
    lemma_pow2_adds(j, t);
    vstd::arithmetic::power2::lemma_pow2_unfold(j + 1);
    vstd::arithmetic::power2::lemma_pow2_unfold(t);
    assert(c > 0) by (nonlinear_arith)
        requires
            c == d * g,
            d > 0,
            g > 0,
    ;
    let dd = d * p;
    assert(dd == c * tt) by (nonlinear_arith)
        requires
            dd == d * p,
            c == d * g,
            p == g * tt,
    ;
    let f = n / c;
    let rho = n % c;
    vstd::arithmetic::div_mod::lemma_fundamental_div_mod(n as int, c as int);
    vstd::arithmetic::div_mod::lemma_mod_pos_bound(n as int, c as int);
    let fl = f / tt;
    let phi = f % tt;
    vstd::arithmetic::div_mod::lemma_fundamental_div_mod(f as int, tt as int);
    vstd::arithmetic::div_mod::lemma_mod_pos_bound(f as int, tt as int);
    let st: nat = if rho != 0 { 1 } else { 0 };
    let big = 2 * f + st;
    // The ratio's quotient and remainder at the step.
    assert(n == dd * fl + (c * phi + rho) && c * phi + rho < dd) by (nonlinear_arith)
        requires
            n == c * f + rho,
            f == tt * fl + phi,
            rho < c,
            phi < tt,
            dd == c * tt,
    ;
    vstd::arithmetic::div_mod::lemma_fundamental_div_mod_converse(n as int, dd as int, fl as int, (c * phi + rho) as int);
    // The sticky value's quotient and remainder at the step.
    let m = big * h;
    assert(m == p * fl + h * (2 * phi + st) && h * (2 * phi + st) < p) by (nonlinear_arith)
        requires
            m == big * h,
            big == 2 * f + st,
            f == tt * fl + phi,
            g == 2 * h,
            p == g * tt,
            phi < tt,
            st <= 1,
            h > 0,
    ;
    vstd::arithmetic::div_mod::lemma_fundamental_div_mod_converse(m as int, p as int, fl as int, (h * (2 * phi + st)) as int);
    let half = pow2((q - 1) as nat);
    assert(half == h * tt);
    let rm = h * (2 * phi + st);
    let r = c * phi + rho;
    assert((rm > half) == (2 * r > dd)) by (nonlinear_arith)
        requires
            rm == h * (2 * phi + st),
            half == h * tt,
            h > 0,
            r == c * phi + rho,
            dd == c * tt,
            c > 0,
            rho < c,
            st == (if rho != 0 { 1int } else { 0int }),
            tt == 2 * pow2((t - 1) as nat),
    ;
    assert((rm == half) == (2 * r == dd)) by (nonlinear_arith)
        requires
            rm == h * (2 * phi + st),
            half == h * tt,
            h > 0,
            r == c * phi + rho,
            dd == c * tt,
            c > 0,
            rho < c,
            st == (if rho != 0 { 1int } else { 0int }),
            tt == 2 * pow2((t - 1) as nat),
    ;
}

/// The sticky value and the ratio share their binade: the whole part of `n / d` and
/// `(2F + sticky) * 2^j` have the same top bit.
pub(crate) proof fn lemma_sticky_binade(n: nat, d: nat, j: nat)
    requires
        d > 0,
        n / (d * pow2(j + 1)) >= 1,
    ensures
        ({
            let c = d * pow2(j + 1);
            let big = 2 * (n / c) + (if n % c != 0 { 1nat } else { 0nat });
            &&& log2(big * pow2(j)) == log2(n / d)
            &&& log2(n / d) == log2(n / c) + j + 1
        }),
{
    let g = pow2(j + 1);
    let c = d * g;
    let f = n / c;
    let st: nat = if n % c != 0 { 1 } else { 0 };
    let big = 2 * f + st;
    let lf = log2(f);
    lemma_pow2_pos(j + 1);
    crate::model::lemma_log2_bounds(f);
    vstd::arithmetic::power2::lemma_pow2_unfold(lf + 1);
    vstd::arithmetic::power2::lemma_pow2_unfold(lf + 2);
    crate::model::lemma_log2_unique(big, lf + 1);
    crate::model::lemma_log2_scaled(big, j);
    vstd::arithmetic::div_mod::lemma_div_denominator(n as int, d as int, g as int);
    let w = n / d;
    vstd::arithmetic::div_mod::lemma_fundamental_div_mod(w as int, g as int);
    vstd::arithmetic::div_mod::lemma_mod_pos_bound(w as int, g as int);
    lemma_pow2_adds(lf, j + 1);
    lemma_pow2_adds(lf + 1, j + 1);
    assert(pow2(lf + j + 1) <= w < pow2(lf + j + 2)) by (nonlinear_arith)
        requires
            w == g * f + w % g,
            w % g < g,
            pow2(lf) <= f < pow2(lf + 1),
            pow2(lf + j + 1) == pow2(lf) * g,
            pow2(lf + j + 2) == pow2(lf + 1) * g,
            g > 0,
    ;
    crate::model::lemma_log2_unique(w, lf + j + 1);
}

/// Scaling a division by a common factor keeps the quotient and scales the remainder.
pub(crate) proof fn lemma_div_scaled(x: nat, y: nat, w: nat)
    requires
        y > 0,
        w > 0,
    ensures
        (x * w) / (y * w) == x / y,
        (x * w) % (y * w) == (x % y) * w,
{
    vstd::arithmetic::div_mod::lemma_fundamental_div_mod(x as int, y as int);
    vstd::arithmetic::div_mod::lemma_mod_pos_bound(x as int, y as int);
    let q0 = x / y;
    let r0 = x % y;
    assert(x * w == q0 * (y * w) + r0 * w && r0 * w < y * w) by (nonlinear_arith)
        requires
            x == y * q0 + r0,
            r0 < y,
            w > 0,
    ;
    vstd::arithmetic::div_mod::lemma_fundamental_div_mod_converse((x * w) as int, (y * w) as int, q0 as int, (r0 * w) as int);
}

/// A finite pattern of a small layout as `sig * 2^exp`: its value in units is
/// `sig * 2^(exp + 1074)`.
fn decompose(bits: u8, exp_bits: u32, mantissa_bits: u32, bias: i32) -> (r: (u64, i32))
    requires
        small_layout(exp_bits as nat, mantissa_bits as nat, bias as int),
        is_finite_bits(bits as nat, exp_bits as nat, mantissa_bits as nat),
    ensures
        units(bits as nat, exp_bits as nat, mantissa_bits as nat, bias as int) == r.0 * pow2((r.1 + 1074) as nat),
        r.0 < pow2(mantissa_bits as nat + 1),
        1 - bias - mantissa_bits <= r.1 <= 30 - bias - mantissa_bits,
        (r.0 == 0) == (units(bits as nat, exp_bits as nat, mantissa_bits as nat, bias as int) == 0),
{
    let ghost eb = exp_bits as nat;
    let ghost mb = mantissa_bits as nat;
    let x = bits as u64;
    proof {
        lemma_u64_shr(x, mantissa_bits);
        lemma_u64_mask(x >> mantissa_bits, exp_bits);
        lemma_u64_mask(x, mantissa_bits);
        lemma_u64_one_shl(exp_bits);
        lemma_u64_one_shl(mantissa_bits);
        lemma_pow2_pos(eb);
        lemma_pow2_pos(mb);
        lemma2_to64();
        vstd::arithmetic::div_mod::lemma_mod_pos_bound(bits as int, pow2(mb) as int);
        vstd::arithmetic::div_mod::lemma_mod_pos_bound((bits as nat / pow2(mb)) as int, pow2(eb) as int);
        if eb < 5 {
            lemma_pow2_strictly_increases(eb, 5);
        }
        if mb < 6 {
            lemma_pow2_strictly_increases(mb, 6);
        }
        vstd::arithmetic::power2::lemma_pow2_unfold(mb + 1);
        crate::model::lemma_units_binade(bits as nat, eb, mb, bias as int);
    }
    let e = (x >> mantissa_bits) & ((1u64 << exp_bits) - 1);
    let m = x & ((1u64 << mantissa_bits) - 1);
    assert(e == exp_field(bits as nat, eb, mb));
    assert(m == man_field(bits as nat, mb));
    if e == 0 {
        (m, 1 - bias - mantissa_bits as i32)
    } else {
        (m + (1u64 << mantissa_bits), e as i32 - bias - mantissa_bits as i32)
    }
}

/// Whether a pattern of a small layout is NaN, and whether it is infinite.
fn classify(bits: u8, exp_bits: u32, mantissa_bits: u32) -> (r: (bool, bool))
    requires
        small_layout(exp_bits as nat, mantissa_bits as nat, 0),
    ensures
        r.0 == is_nan_bits(bits as nat, exp_bits as nat, mantissa_bits as nat),
        r.1 == is_inf_bits(bits as nat, exp_bits as nat, mantissa_bits as nat),
{
    let x = bits as u64;
    proof {
        lemma_u64_shr(x, mantissa_bits);
        lemma_u64_mask(x >> mantissa_bits, exp_bits);
        lemma_u64_mask(x, mantissa_bits);
        lemma_u64_one_shl(exp_bits);
        lemma_u64_one_shl(mantissa_bits);
        lemma_pow2_pos(exp_bits as nat);
        lemma_pow2_pos(mantissa_bits as nat);
    }
    let max = (1u64 << exp_bits) - 1;
    let e = (x >> mantissa_bits) & max;
    let m = x & ((1u64 << mantissa_bits) - 1);
    (e == max && m != 0, e == max && m == 0)
}

/// The canonical infinity and quiet NaN of a small layout, and its all-ones exponent.
fn specials(exp_bits: u32, mantissa_bits: u32) -> (r: (u8, u8, u64))
    requires
        small_layout(exp_bits as nat, mantissa_bits as nat, 0),
    ensures
        r.0 == inf_bits(exp_bits as nat, mantissa_bits as nat),
        r.1 == nan_bits(exp_bits as nat, mantissa_bits as nat),
        r.2 == max_exp(exp_bits as nat),
{
    let ghost eb = exp_bits as nat;
    let ghost mb = mantissa_bits as nat;
    proof {
        lemma_u64_one_shl(exp_bits);
        lemma_u64_one_shl(mantissa_bits);
        lemma_u64_one_shl((mantissa_bits - 1) as u32);
        lemma_pow2_pos(eb);
        lemma_pow2_pos(mb);
        lemma_pow2_adds(eb, mb);
        lemma2_to64();
        lemma_pow2_strictly_increases((mb - 1) as nat, mb);
        assert((pow2(eb) - 1) * pow2(mb) + pow2(mb) == pow2(eb) * pow2(mb)) by (nonlinear_arith);
        lemma_u64_shl((pow2(eb) - 1) as u64, mantissa_bits);
    }
    let max = (1u64 << exp_bits) - 1;
    let inf = max << mantissa_bits;
    let nan = inf + (1u64 << (mantissa_bits - 1));
    (inf as u8, nan as u8, max)
}

/// Facts about the encoder's results in a small layout.
proof fn lemma_small_encode(u: nat, eb: nat, mb: nat, bias: int)
    requires
        small_layout(eb, mb, bias),
    ensures
        encode_value(u, eb, mb, bias) <= inf_bits(eb, mb),
        inf_bits(eb, mb) < 256,
        encodable(eb, mb, bias),
{
    lemma_pow2_pos(mb);
    lemma_pow2_adds(eb, mb);
    lemma2_to64();
    assert((pow2(eb) - 1) * pow2(mb) < pow2(eb) * pow2(mb)) by (nonlinear_arith)
        requires
            pow2(mb) > 0,
    ;
}

/// Moves `sig * 2^exp` to the lower exponent `low`: the value is
/// `(sig * 2^(exp - low)) * 2^(low + 1074)`.
proof fn lemma_align(sig: nat, exp: int, low: int)
    requires
        low <= exp,
        low + 1074 >= 0,
    ensures
        sig * pow2((exp + 1074) as nat) == (sig * pow2((exp - low) as nat)) * pow2((low + 1074) as nat),
{
    lemma_pow2_adds((exp - low) as nat, (low + 1074) as nat);
    vstd::arithmetic::mul::lemma_mul_is_associative(sig as int, pow2((exp - low) as nat) as int, pow2((low + 1074) as nat) as int);
}

/// Aligns two decomposed values to the lower of their exponents.
fn align(sa: u64, ea: i32, sb: u64, eb: i32) -> (r: (u64, u64, i32))
    requires
        sa < 128,
        sb < 128,
        -40 <= ea <= 40,
        -40 <= eb <= 40,
        ea - eb <= 29,
        eb - ea <= 29,
    ensures
        sa * pow2((ea + 1074) as nat) == r.0 * pow2((r.2 + 1074) as nat),
        sb * pow2((eb + 1074) as nat) == r.1 * pow2((r.2 + 1074) as nat),
        r.0 < pow2(36),
        r.1 < pow2(36),
        r.2 == if ea < eb { ea } else { eb },
{
    let low = if ea < eb { ea } else { eb };
    let da = (ea - low) as u32;
    let db = (eb - low) as u32;
    proof {
        lemma_align(sa as nat, ea as int, low as int);
        lemma_align(sb as nat, eb as int, low as int);
        lemma2_to64();
        lemma_pow2_adds(7, 29);
        if da < 29 {
            lemma_pow2_strictly_increases(da as nat, 29);
        }
        if db < 29 {
            lemma_pow2_strictly_increases(db as nat, 29);
        }
        vstd::arithmetic::mul::lemma_mul_strict_inequality(sa as int, 128, pow2(da as nat) as int);
        vstd::arithmetic::mul::lemma_mul_strict_inequality(sb as int, 128, pow2(db as nat) as int);
        lemma_pow2_pos(da as nat);
        lemma_pow2_pos(db as nat);
        vstd::arithmetic::mul::lemma_mul_inequality(128, pow2(36) as int, pow2(da as nat) as int);
        assert(128 * pow2(da as nat) <= pow2(36)) by {
            lemma_pow2_adds(7, da as nat);
            if 7 + da < 36 {
                lemma_pow2_strictly_increases(7 + da as nat, 36);
            }
        }
        assert(128 * pow2(db as nat) <= pow2(36)) by {
            lemma_pow2_adds(7, db as nat);
            if 7 + db < 36 {
                lemma_pow2_strictly_increases(7 + db as nat, 36);
            }
        }
        lemma2_to64_rest();
        lemma_u64_shl(sa, da);
        lemma_u64_shl(sb, db);
    }
    (sa << da, sb << db, low)
}

/// `a + b` in the small layout `(exp_bits, mantissa_bits, bias)`.
pub(crate) fn add_bits(a: u8, b: u8, exp_bits: u32, mantissa_bits: u32, bias: i32) -> (r: u8)
    requires
        small_layout(exp_bits as nat, mantissa_bits as nat, bias as int),
    ensures
        r == sum_bits(a as nat, b as nat, exp_bits as nat, mantissa_bits as nat, bias as int),
{
    let ghost eb = exp_bits as nat;
    let ghost mb = mantissa_bits as nat;
    let (inf, nan, max) = specials(exp_bits, mantissa_bits);
    let (a_nan, a_inf) = classify(a, exp_bits, mantissa_bits);
    let (b_nan, b_inf) = classify(b, exp_bits, mantissa_bits);
    if a_nan || b_nan {
        return nan;
    }
    if a_inf || b_inf {
        return inf;
    }
    proof {
        lemma2_to64();
        crate::model::lemma_classes(a as nat, eb, mb);
        crate::model::lemma_classes(b as nat, eb, mb);
        if mb < 6 {
            lemma_pow2_strictly_increases(mb + 1, 7);
        }
    }
    let (sa, ea) = decompose(a, exp_bits, mantissa_bits, bias);
    let (sb, eb2) = decompose(b, exp_bits, mantissa_bits, bias);
    let (xa, xb, low) = align(sa, ea, sb, eb2);
    proof {
        lemma_pow2_adds(36, 1);
        lemma2_to64_rest();
        lemma_pow2_strictly_increases(37, 53);
        vstd::arithmetic::mul::lemma_mul_is_distributive_add_other_way(pow2((low + 1074) as nat) as int, xa as int, xb as int);
        lemma_small_encode((xa + xb) as nat * pow2((low + 1074) as nat), eb, mb, bias as int);
    }
    let sum = xa + xb;
    if sum == 0 {
        return 0;
    }
    encode_finite(sum, low, max, exp_bits, mantissa_bits, bias) as u8
}

/// `a - b` in the small layout `(exp_bits, mantissa_bits, bias)`.
pub(crate) fn sub_bits(a: u8, b: u8, exp_bits: u32, mantissa_bits: u32, bias: i32) -> (r: u8)
    requires
        small_layout(exp_bits as nat, mantissa_bits as nat, bias as int),
    ensures
        r == difference_bits(a as nat, b as nat, exp_bits as nat, mantissa_bits as nat, bias as int),
{
    let ghost eb = exp_bits as nat;
    let ghost mb = mantissa_bits as nat;
    let (inf, nan, max) = specials(exp_bits, mantissa_bits);
    let (a_nan, a_inf) = classify(a, exp_bits, mantissa_bits);
    let (b_nan, b_inf) = classify(b, exp_bits, mantissa_bits);
    if a_nan || b_nan || b_inf {
        return nan;
    }
    if a_inf {
        return inf;
    }
    proof {
        lemma2_to64();
        crate::model::lemma_classes(a as nat, eb, mb);
        crate::model::lemma_classes(b as nat, eb, mb);
        if mb < 6 {
            lemma_pow2_strictly_increases(mb + 1, 7);
        }
    }
    let (sa, ea) = decompose(a, exp_bits, mantissa_bits, bias);
    let (sb, eb2) = decompose(b, exp_bits, mantissa_bits, bias);
    let (xa, xb, low) = align(sa, ea, sb, eb2);
    let ghost p = pow2((low + 1074) as nat);
    proof {
        lemma_pow2_pos((low + 1074) as nat);
        assert((xa < xb) == (xa * p < xb * p)) by (nonlinear_arith)
            requires
                p > 0,
        ;
    }
    if xa < xb {
        return nan;
    }
    proof {
        lemma2_to64_rest();
        lemma_pow2_strictly_increases(36, 53);
        vstd::arithmetic::mul::lemma_mul_is_distributive_sub_other_way(p as int, xa as int, xb as int);
        lemma_small_encode((xa - xb) as nat * p, eb, mb, bias as int);
    }
    let difference = xa - xb;
    if difference == 0 {
        return 0;
    }
    encode_finite(difference, low, max, exp_bits, mantissa_bits, bias) as u8
}

/// `a * b` in the small layout `(exp_bits, mantissa_bits, bias)`.
pub(crate) fn mul_bits(a: u8, b: u8, exp_bits: u32, mantissa_bits: u32, bias: i32) -> (r: u8)
    requires
        small_layout(exp_bits as nat, mantissa_bits as nat, bias as int),
    ensures
        r == product_bits(a as nat, b as nat, exp_bits as nat, mantissa_bits as nat, bias as int),
{
    let ghost eb = exp_bits as nat;
    let ghost mb = mantissa_bits as nat;
    let (inf, nan, max) = specials(exp_bits, mantissa_bits);
    let (a_nan, a_inf) = classify(a, exp_bits, mantissa_bits);
    let (b_nan, b_inf) = classify(b, exp_bits, mantissa_bits);
    if a_nan || b_nan {
        return nan;
    }
    if a_inf || b_inf {
        if a == 0 || b == 0 {
            proof {
                crate::model::lemma_classes(a as nat, eb, mb);
                crate::model::lemma_classes(b as nat, eb, mb);
                crate::model::lemma_units_binade(a as nat, eb, mb, bias as int);
                crate::model::lemma_units_binade(b as nat, eb, mb, bias as int);
                lemma_pow2_pos(eb);
                lemma_pow2_pos(mb);
                crate::model::lemma_fields(0, 0, eb, mb);
            }
            return nan;
        }
        proof {
            lemma_nonzero_pattern(a as nat, eb, mb, bias as int);
            lemma_nonzero_pattern(b as nat, eb, mb, bias as int);
        }
        return inf;
    }
    proof {
        lemma2_to64();
        crate::model::lemma_classes(a as nat, eb, mb);
        crate::model::lemma_classes(b as nat, eb, mb);
        if mb < 6 {
            lemma_pow2_strictly_increases(mb + 1, 7);
        }
    }
    let (sa, ea) = decompose(a, exp_bits, mantissa_bits, bias);
    let (sb, eb2) = decompose(b, exp_bits, mantissa_bits, bias);
    let ghost ua = units(a as nat, eb, mb, bias as int);
    let ghost ub = units(b as nat, eb, mb, bias as int);
    if sa == 0 || sb == 0 {
        proof {
            lemma_small_encode(0, eb, mb, bias as int);
            assert(ua * ub == 0) by (nonlinear_arith)
                requires
                    ua == 0 || ub == 0,
            ;
            lemma_pow2_pos(1074);
        }
        return 0;
    }
    proof {
        assert(sa * sb < 128 * 128) by (nonlinear_arith)
            requires
                sa < 128,
                sb < 128,
        ;
    }
    let product = sa * sb;
    let exponent = ea + eb2;
    proof {
        let pa = pow2((ea + 1074) as nat);
        let pb = pow2((eb2 + 1074) as nat);
        let pe = pow2((exponent + 1074) as nat);
        lemma_pow2_adds((ea + 1074) as nat, (eb2 + 1074) as nat);
        lemma_pow2_adds((exponent + 1074) as nat, 1074);
        lemma_pow2_pos(1074);
        assert(ua * ub == (product * pe) * pow2(1074)) by (nonlinear_arith)
            requires
                ua == sa * pa,
                ub == sb * pb,
                pa * pb == pe * pow2(1074),
                product == sa * sb,
        ;
        vstd::arithmetic::div_mod::lemma_div_by_multiple((product * pe) as int, pow2(1074) as int);
        assert(product < 128 * 128) by (nonlinear_arith)
            requires
                product == sa * sb,
                sa < 128,
                sb < 128,
        ;
        assert(product > 0) by (nonlinear_arith)
            requires
                product == sa * sb,
                sa > 0,
                sb > 0,
        ;
        lemma2_to64_rest();
        lemma_small_encode(product as nat * pe, eb, mb, bias as int);
    }
    encode_finite(product, exponent, max, exp_bits, mantissa_bits, bias) as u8
}

/// A pattern other than zero has a non-zero value, infinity and NaN included.
proof fn lemma_nonzero_pattern(x: nat, eb: nat, mb: nat, bias: int)
    requires
        small_layout(eb, mb, bias),
        x < 256,
        x != 0,
    ensures
        units(x, eb, mb, bias) != 0,
{
    lemma2_to64();
    lemma_pow2_adds(eb, mb);
    crate::model::lemma_split(x, eb, mb);
    crate::model::lemma_units_binade(x, eb, mb, bias);
    if exp_field(x, eb, mb) == 0 && man_field(x, mb) == 0 {
        assert(x == 0 * pow2(mb) + 0);
    }
}

/// `a / b` in the small layout `(exp_bits, mantissa_bits, bias)`.
pub(crate) fn div_bits(a: u8, b: u8, exp_bits: u32, mantissa_bits: u32, bias: i32) -> (r: u8)
    requires
        small_layout(exp_bits as nat, mantissa_bits as nat, bias as int),
    ensures
        r == quotient_bits(a as nat, b as nat, exp_bits as nat, mantissa_bits as nat, bias as int),
{
    let ghost eb = exp_bits as nat;
    let ghost mb = mantissa_bits as nat;
    let (inf, nan, max) = specials(exp_bits, mantissa_bits);
    let (a_nan, a_inf) = classify(a, exp_bits, mantissa_bits);
    let (b_nan, b_inf) = classify(b, exp_bits, mantissa_bits);
    if a_nan || b_nan {
        return nan;
    }
    if a_inf {
        if b_inf {
            return nan;
        }
        return inf;
    }
    if b_inf {
        return 0;
    }
    proof {
        lemma2_to64();
        crate::model::lemma_classes(a as nat, eb, mb);
        crate::model::lemma_classes(b as nat, eb, mb);
        if mb < 6 {
            lemma_pow2_strictly_increases(mb + 1, 7);
        }
    }
    let (sa, ea) = decompose(a, exp_bits, mantissa_bits, bias);
    let (sb, eb2) = decompose(b, exp_bits, mantissa_bits, bias);
    if sb == 0 {
        if sa == 0 {
            return nan;
        }
        return inf;
    }
    if sa == 0 {
        proof {
            assert(0 * pow2(1074) == 0);
        }
        return 0;
    }
    let ghost ua = units(a as nat, eb, mb, bias as int);
    let ghost ub = units(b as nat, eb, mb, bias as int);
    let ghost n = ua * pow2(1074);
    let ghost d = ub;
    proof {
        lemma_pow2_adds(7, 16);
        lemma_u64_shl(sa, 16);
    }
    let scaled = sa << 16u32;
    let f = scaled / sb;
    let rem = scaled % sb;
    let big = 2 * f + (if rem != 0 { 1u64 } else { 0u64 });
    let exponent = ea - eb2 - 17;
    let ghost j = (exponent + 1074) as nat;
    let ghost w = pow2((ea + 2132) as nat);
    proof {
        // The ratio's numerator and the sticky division's divisor share the factor `w`.
        lemma_pow2_pos((ea + 2132) as nat);
        lemma_pow2_pos((ea + 1074) as nat);
        lemma_pow2_adds((ea + 1074) as nat, 1074);
        lemma_pow2_adds(16, (ea + 2132) as nat);
        lemma_pow2_adds((eb2 + 1074) as nat, j + 1);
        assert(n == (scaled as nat) * w) by (nonlinear_arith)
            requires
                n == ua * pow2(1074),
                ua == sa * pow2((ea + 1074) as nat),
                pow2((ea + 1074) as nat) * pow2(1074) == pow2((ea + 2148) as nat),
                pow2(16) * w == pow2((ea + 2148) as nat),
                scaled == sa * pow2(16),
        ;
        let c = d * pow2(j + 1);
        assert(c == (sb as nat) * w) by (nonlinear_arith)
            requires
                c == d * pow2(j + 1),
                d == sb * pow2((eb2 + 1074) as nat),
                pow2((eb2 + 1074) as nat) * pow2(j + 1) == w,
        ;
        lemma_div_scaled(scaled as nat, sb as nat, w);
        assert((n % c != 0) == (rem != 0)) by (nonlinear_arith)
            requires
                n % c == rem * w,
                w > 0,
        ;
        // The whole quotient has at least ten bits.
        assert(f >= 512) by {
            assert(scaled >= 512 * sb) by (nonlinear_arith)
                requires
                    scaled == sa * pow2(16),
                    pow2(16) == 65536,
                    sa >= 1,
                    sb < 128,
            ;
            vstd::arithmetic::div_mod::lemma_div_is_ordered((512 * sb) as int, scaled as int, sb as int);
            vstd::arithmetic::div_mod::lemma_div_multiples_vanish(512, sb as int);
        }
        vstd::arithmetic::div_mod::lemma_div_is_ordered(scaled as int, (128 * 65536) as int, sb as int);
        lemma_sticky_binade(n, d, j);
        crate::model::lemma_log2_bounds(f as nat);
        if log2(f as nat) < 9 {
            lemma_pow2_strictly_increases(log2(f as nat) + 1, 9);
        }
        let q = quantum(n / d, mb, bias as int);
        lemma_sticky_rounding(n, d, j, q);
        lemma2_to64_rest();
        lemma_pow2_strictly_increases(25, 53);
        lemma_small_encode((big as nat) * pow2(j), eb, mb, bias as int);
        lemma_pow2_pos(j);
        assert(big * pow2(j) > 0) by (nonlinear_arith)
            requires
                big >= 1,
                pow2(j) > 0,
        ;
        assert(n > 0) by (nonlinear_arith)
            requires
                n == scaled * w,
                scaled > 0,
                w > 0,
        ;
    }
    encode_finite(big, exponent, max, exp_bits, mantissa_bits, bias) as u8
}

/// Addition and multiplication do not depend on the order of their operands.
pub proof fn lemma_commutative(a: nat, b: nat, eb: nat, mb: nat, bias: int, unit: nat)
    ensures
        sum_bits(a, b, eb, mb, bias) == sum_bits(b, a, eb, mb, bias),
        product_bits_in(a, b, eb, mb, bias, unit) == product_bits_in(b, a, eb, mb, bias, unit),
{
    vstd::arithmetic::mul::lemma_mul_is_commutative(units(a, eb, mb, bias) as int, units(b, eb, mb, bias) as int);
}

/// Facts about a pattern of a small layout: it is within the layout's width, its
/// infinity is the canonical one, and zero has the value zero.
proof fn lemma_small_pattern(a: nat, eb: nat, mb: nat, bias: int)
    requires
        small_layout(eb, mb, bias),
        a < 256,
    ensures
        crate::model::in_width(a, eb, mb),
        is_inf_bits(a, eb, mb) ==> a == inf_bits(eb, mb),
        crate::model::scaled_layout(eb, mb, bias),
        units(0, eb, mb, bias) == 0,
{
    lemma2_to64();
    lemma_pow2_adds(eb, mb);
    lemma_pow2_pos(eb);
    lemma_pow2_pos(mb);
    crate::model::lemma_split(a, eb, mb);
    crate::model::lemma_fields(0, 0, eb, mb);
    crate::model::lemma_units_binade(0, eb, mb, bias);
}

/// Zero is the identity of addition: adding zero gives every non-NaN pattern back.
pub proof fn lemma_add_zero(a: nat, eb: nat, mb: nat, bias: int)
    requires
        small_layout(eb, mb, bias),
        a < 256,
        !is_nan_bits(a, eb, mb),
    ensures
        sum_bits(a, 0, eb, mb, bias) == a,
{
    lemma_small_pattern(a, eb, mb, bias);
    lemma_small_pattern(0, eb, mb, bias);
    crate::model::lemma_classes(0, eb, mb);
    crate::model::lemma_classes(a, eb, mb);
    if is_finite_bits(a, eb, mb) {
        crate::model::lemma_encode_units_roundtrip(a, eb, mb, bias);
    }
}

/// Subtracting a finite pattern from itself gives zero.
pub proof fn lemma_sub_self(a: nat, eb: nat, mb: nat, bias: int)
    requires
        small_layout(eb, mb, bias),
        is_finite_bits(a, eb, mb),
    ensures
        difference_bits(a, a, eb, mb, bias) == 0,
{
    crate::model::lemma_classes(a, eb, mb);
}

/// One, the pattern `bias * 2^mb`, is the identity of multiplication: multiplying by
/// one gives every non-NaN pattern back.
pub proof fn lemma_mul_one(a: nat, eb: nat, mb: nat, bias: int)
    requires
        small_layout(eb, mb, bias),
        1 <= bias < max_exp(eb),
        a < 256,
        !is_nan_bits(a, eb, mb),
    ensures
        product_bits(a, bias as nat * pow2(mb), eb, mb, bias) == a,
{
    let one = bias as nat * pow2(mb);
    lemma_small_pattern(a, eb, mb, bias);
    lemma2_to64();
    lemma_pow2_pos(mb);
    lemma_pow2_pos(1074);
    crate::model::lemma_fields(bias as nat, 0, eb, mb);
    lemma_pow2_adds(mb, (1074 - mb) as nat);
    crate::model::lemma_classes(a, eb, mb);
    let ua = units(a, eb, mb, bias);
    crate::model::lemma_units_binade(a, eb, mb, bias);
    assert(units(one, eb, mb, bias) == pow2(1074));
    assert(!is_nan_bits(one, eb, mb) && !is_inf_bits(one, eb, mb));
    vstd::arithmetic::div_mod::lemma_div_by_multiple(ua as int, pow2(1074) as int);
    if is_finite_bits(a, eb, mb) {
        crate::model::lemma_encode_units_roundtrip(a, eb, mb, bias);
    }
}

/// `a + b` for E4M4 patterns.
pub fn add_uf8(a: u8, b: u8) -> (r: u8)
    ensures
        r == sum_bits(a as nat, b as nat, 4, 4, 7),
{
    proof {
        lemma2_to64();
    }
    add_bits(a, b, UF8_EXP_BITS, UF8_MANTISSA_BITS, UF8_BIAS)
}

/// `a - b` for E4M4 patterns.
pub fn sub_uf8(a: u8, b: u8) -> (r: u8)
    ensures
        r == difference_bits(a as nat, b as nat, 4, 4, 7),
{
    proof {
        lemma2_to64();
    }
    sub_bits(a, b, UF8_EXP_BITS, UF8_MANTISSA_BITS, UF8_BIAS)
}

/// `a * b` for E4M4 patterns.
pub fn mul_uf8(a: u8, b: u8) -> (r: u8)
    ensures
        r == product_bits(a as nat, b as nat, 4, 4, 7),
{
    proof {
        lemma2_to64();
    }
    mul_bits(a, b, UF8_EXP_BITS, UF8_MANTISSA_BITS, UF8_BIAS)
}

/// `a / b` for E4M4 patterns.
pub fn div_uf8(a: u8, b: u8) -> (r: u8)
    ensures
        r == quotient_bits(a as nat, b as nat, 4, 4, 7),
{
    proof {
        lemma2_to64();
    }
    div_bits(a, b, UF8_EXP_BITS, UF8_MANTISSA_BITS, UF8_BIAS)
}

/// `a + b` for E5M3 patterns.
pub fn add_uf8_e5m3(a: u8, b: u8) -> (r: u8)
    ensures
        r == sum_bits(a as nat, b as nat, 5, 3, 15),
{
    proof {
        lemma2_to64();
    }
    add_bits(a, b, UF8_E5M3_EXP_BITS, UF8_E5M3_MANTISSA_BITS, UF8_E5M3_BIAS)
}

/// `a - b` for E5M3 patterns.
pub fn sub_uf8_e5m3(a: u8, b: u8) -> (r: u8)
    ensures
        r == difference_bits(a as nat, b as nat, 5, 3, 15),
{
    proof {
        lemma2_to64();
    }
    sub_bits(a, b, UF8_E5M3_EXP_BITS, UF8_E5M3_MANTISSA_BITS, UF8_E5M3_BIAS)
}

/// `a * b` for E5M3 patterns.
pub fn mul_uf8_e5m3(a: u8, b: u8) -> (r: u8)
    ensures
        r == product_bits(a as nat, b as nat, 5, 3, 15),
{
    proof {
        lemma2_to64();
    }
    mul_bits(a, b, UF8_E5M3_EXP_BITS, UF8_E5M3_MANTISSA_BITS, UF8_E5M3_BIAS)
}

/// `a / b` for E5M3 patterns.
pub fn div_uf8_e5m3(a: u8, b: u8) -> (r: u8)
    ensures
        r == quotient_bits(a as nat, b as nat, 5, 3, 15),
{
    proof {
        lemma2_to64();
    }
    div_bits(a, b, UF8_E5M3_EXP_BITS, UF8_E5M3_MANTISSA_BITS, UF8_E5M3_BIAS)
}

impl Add for Uf8E4M4 {
    type Output = Self;

    fn add(self, rhs: Self) -> (r: Self) {
        let r = Uf8E4M4::from_bits(add_uf8(self.to_bits(), rhs.to_bits()));
        proof {
            Uf8E4M4::lemma_with_bits(r@, r);
        }
        r
    }
}

impl AddSpecImpl for Uf8E4M4 {
    open spec fn obeys_add_spec() -> bool {
        true
    }

    open spec fn add_req(self, rhs: Self) -> bool {
        true
    }

    open spec fn add_spec(self, rhs: Self) -> Self {
        Uf8E4M4::with_bits(sum_bits(self@ as nat, rhs@ as nat, 4, 4, 7) as u8)
    }
}

impl Sub for Uf8E4M4 {
    type Output = Self;

    fn sub(self, rhs: Self) -> (r: Self) {
        let r = Uf8E4M4::from_bits(sub_uf8(self.to_bits(), rhs.to_bits()));
        proof {
            Uf8E4M4::lemma_with_bits(r@, r);
        }
        r
    }
}

impl SubSpecImpl for Uf8E4M4 {
    open spec fn obeys_sub_spec() -> bool {
        true
    }

    open spec fn sub_req(self, rhs: Self) -> bool {
        true
    }

    open spec fn sub_spec(self, rhs: Self) -> Self {
        Uf8E4M4::with_bits(difference_bits(self@ as nat, rhs@ as nat, 4, 4, 7) as u8)
    }
}

impl Mul for Uf8E4M4 {
    type Output = Self;

    fn mul(self, rhs: Self) -> (r: Self) {
        let r = Uf8E4M4::from_bits(mul_uf8(self.to_bits(), rhs.to_bits()));
        proof {
            Uf8E4M4::lemma_with_bits(r@, r);
        }
        r
    }
}

impl MulSpecImpl for Uf8E4M4 {
    open spec fn obeys_mul_spec() -> bool {
        true
    }

    open spec fn mul_req(self, rhs: Self) -> bool {
        true
    }

    open spec fn mul_spec(self, rhs: Self) -> Self {
        Uf8E4M4::with_bits(product_bits(self@ as nat, rhs@ as nat, 4, 4, 7) as u8)
    }
}

impl Div for Uf8E4M4 {
    type Output = Self;

    fn div(self, rhs: Self) -> (r: Self) {
        let r = Uf8E4M4::from_bits(div_uf8(self.to_bits(), rhs.to_bits()));
        proof {
            Uf8E4M4::lemma_with_bits(r@, r);
        }
        r
    }
}

impl DivSpecImpl for Uf8E4M4 {
    open spec fn obeys_div_spec() -> bool {
        true
    }

    open spec fn div_req(self, rhs: Self) -> bool {
        true
    }

    open spec fn div_spec(self, rhs: Self) -> Self {
        Uf8E4M4::with_bits(quotient_bits(self@ as nat, rhs@ as nat, 4, 4, 7) as u8)
    }
}

impl Add for Uf8E5M3 {
    type Output = Self;

    fn add(self, rhs: Self) -> (r: Self) {
        let r = Uf8E5M3::from_bits(add_uf8_e5m3(self.to_bits(), rhs.to_bits()));
        proof {
            Uf8E5M3::lemma_with_bits(r@, r);
        }
        r
    }
}

impl AddSpecImpl for Uf8E5M3 {
    open spec fn obeys_add_spec() -> bool {
        true
    }

    open spec fn add_req(self, rhs: Self) -> bool {
        true
    }

    open spec fn add_spec(self, rhs: Self) -> Self {
        Uf8E5M3::with_bits(sum_bits(self@ as nat, rhs@ as nat, 5, 3, 15) as u8)
    }
}

impl Sub for Uf8E5M3 {
    type Output = Self;

    fn sub(self, rhs: Self) -> (r: Self) {
        let r = Uf8E5M3::from_bits(sub_uf8_e5m3(self.to_bits(), rhs.to_bits()));
        proof {
            Uf8E5M3::lemma_with_bits(r@, r);
        }
        r
    }
}

impl SubSpecImpl for Uf8E5M3 {
    open spec fn obeys_sub_spec() -> bool {
        true
    }

    open spec fn sub_req(self, rhs: Self) -> bool {
        true
    }

    open spec fn sub_spec(self, rhs: Self) -> Self {
        Uf8E5M3::with_bits(difference_bits(self@ as nat, rhs@ as nat, 5, 3, 15) as u8)
    }
}

impl Mul for Uf8E5M3 {
    type Output = Self;

    fn mul(self, rhs: Self) -> (r: Self) {
        let r = Uf8E5M3::from_bits(mul_uf8_e5m3(self.to_bits(), rhs.to_bits()));
        proof {
            Uf8E5M3::lemma_with_bits(r@, r);
        }
        r
    }
}

impl MulSpecImpl for Uf8E5M3 {
    open spec fn obeys_mul_spec() -> bool {
        true
    }

    open spec fn mul_req(self, rhs: Self) -> bool {
        true
    }

    open spec fn mul_spec(self, rhs: Self) -> Self {
        Uf8E5M3::with_bits(product_bits(self@ as nat, rhs@ as nat, 5, 3, 15) as u8)
    }
}

impl Div for Uf8E5M3 {
    type Output = Self;

    fn div(self, rhs: Self) -> (r: Self) {
        let r = Uf8E5M3::from_bits(div_uf8_e5m3(self.to_bits(), rhs.to_bits()));
        proof {
            Uf8E5M3::lemma_with_bits(r@, r);
        }
        r
    }
}

impl DivSpecImpl for Uf8E5M3 {
    open spec fn obeys_div_spec() -> bool {
        true
    }

    open spec fn div_req(self, rhs: Self) -> bool {
        true
    }

    open spec fn div_spec(self, rhs: Self) -> Self {
        Uf8E5M3::with_bits(quotient_bits(self@ as nat, rhs@ as nat, 5, 3, 15) as u8)
    }
}

} // verus!
