//! The 32-bit layout's arithmetic against binary64 arithmetic: the exact result
//! rounded once to the layout is the result computed in binary64 and rounded back.
use vstd::prelude::*;
use vstd::arithmetic::power2::{pow2, lemma2_to64, lemma2_to64_rest, lemma_pow2_adds, lemma_pow2_pos, lemma_pow2_strictly_increases, lemma_pow2_unfold};
use vstd::arithmetic::mul::lemma_mul_is_associative;
use crate::model::{log2, units, exp_field, man_field, sub_shift, nan_bits, inf_bits, is_nan_bits, is_inf_bits, is_finite_bits, encode_value, encode_f64, round_bits, quantum, in_width, lemma_log2_bounds, lemma_log2_scaled, lemma_split, lemma_units_binade, lemma_encode_value_exact, lemma_fields};
use crate::arith8::{encode_ratio, sum_bits, difference_bits, product_bits, quotient_bits};

verus! {

/// The layout's pattern of the binary64 number nearest the value `u` (in units).
pub open spec fn through_f64(u: nat, eb: nat, mb: nat, bias: int) -> nat {
    encode_f64(encode_value(u, 11, 52, 1023), eb, mb, bias)
}

/// The layout's pattern of the binary64 number nearest the ratio `n / d` (in units).
pub open spec fn ratio_through_f64(n: nat, d: nat, eb: nat, mb: nat, bias: int) -> nat {
    encode_f64(encode_ratio(n, d, 11, 52, 1023), eb, mb, bias)
}

/// The pattern of `a + b` computed in binary64: the special cases of addition, and
/// otherwise the sum rounded to binary64, then to the layout.
pub open spec fn sum_f64_bits(a: nat, b: nat, eb: nat, mb: nat, bias: int) -> nat {
    if is_nan_bits(a, eb, mb) || is_nan_bits(b, eb, mb) {
        nan_bits(eb, mb)
    } else if is_inf_bits(a, eb, mb) || is_inf_bits(b, eb, mb) {
        inf_bits(eb, mb)
    } else {
        through_f64(units(a, eb, mb, bias) + units(b, eb, mb, bias), eb, mb, bias)
    }
}

/// The pattern of `a - b` computed in binary64: the special cases of subtraction, and
/// otherwise the difference rounded to binary64, then to the layout.
pub open spec fn difference_f64_bits(a: nat, b: nat, eb: nat, mb: nat, bias: int) -> nat {
    if is_nan_bits(a, eb, mb) || is_nan_bits(b, eb, mb) || is_inf_bits(b, eb, mb) {
        nan_bits(eb, mb)
    } else if is_inf_bits(a, eb, mb) {
        inf_bits(eb, mb)
    } else if units(a, eb, mb, bias) >= units(b, eb, mb, bias) {
        through_f64((units(a, eb, mb, bias) - units(b, eb, mb, bias)) as nat, eb, mb, bias)
    } else {
        nan_bits(eb, mb)
    }
}

/// The pattern of `a * b` computed in binary64: the special cases of multiplication,
/// and otherwise the product rounded to binary64, then to the layout.
pub open spec fn product_f64_bits(a: nat, b: nat, eb: nat, mb: nat, bias: int) -> nat {
    if is_nan_bits(a, eb, mb) || is_nan_bits(b, eb, mb) {
        nan_bits(eb, mb)
    } else if is_inf_bits(a, eb, mb) || is_inf_bits(b, eb, mb) {
        if units(a, eb, mb, bias) == 0 || units(b, eb, mb, bias) == 0 {
            nan_bits(eb, mb)
        } else {
            inf_bits(eb, mb)
        }
    } else {
        through_f64(units(a, eb, mb, bias) * units(b, eb, mb, bias) / pow2(1074), eb, mb, bias)
    }
}

/// The pattern of `a / b` computed in binary64: the special cases of division, and
/// otherwise the quotient rounded to binary64, then to the layout.
pub open spec fn quotient_f64_bits(a: nat, b: nat, eb: nat, mb: nat, bias: int) -> nat {
    if is_nan_bits(a, eb, mb) || is_nan_bits(b, eb, mb) {
        nan_bits(eb, mb)
    } else if is_inf_bits(a, eb, mb) {
        if is_inf_bits(b, eb, mb) {
            nan_bits(eb, mb)
        } else {
            inf_bits(eb, mb)
        }
    } else if is_inf_bits(b, eb, mb) {
        0
    } else if units(b, eb, mb, bias) == 0 {
        if units(a, eb, mb, bias) == 0 {
            nan_bits(eb, mb)
        } else {
            inf_bits(eb, mb)
        }
    } else {
        ratio_through_f64(units(a, eb, mb, bias) * pow2(1074), units(b, eb, mb, bias), eb, mb, bias)
    }
}

/// A positive binary64 number, given by its value `v`, is its own rounding to binary64,
/// and encoding that binary64 pattern in a layout encodes `v`.
proof fn lemma_f64_number(v: nat, eb: nat, mb: nat, bias: int)
    requires
        v >= 1,
        v % pow2(quantum(v, 52, 1023)) == 0,
        round_bits(v, 52, 1023) < inf_bits(11, 52),
    ensures
        encode_value(v, 11, 52, 1023) == round_bits(v, 52, 1023),
        encode_f64(round_bits(v, 52, 1023), eb, mb, bias) == encode_value(v, eb, mb, bias),
{
    lemma2_to64();
    lemma2_to64_rest();
    lemma_encode_value_exact(v, 11, 52, 1023);
    let t = round_bits(v, 52, 1023);
    lemma_units_binade(t, 11, 52, 1023);
    lemma_pow2_adds(11, 52);
    assert(t / pow2(63) == 0) by {
        vstd::arithmetic::div_mod::lemma_basic_div(t as int, pow2(63) as int);
    }
}

/// A value `n * 2^k` with at most 53 significant bits below binary64's overflow is a
/// binary64 number: rounding it to binary64 first does not change its encoding.
pub(crate) proof fn lemma_through_f64_exact(u: nat, n: nat, k: nat, eb: nat, mb: nat, bias: int)
    requires
        u == n * pow2(k),
        n < pow2(53),
        u < pow2(2097),
    ensures
        through_f64(u, eb, mb, bias) == encode_value(u, eb, mb, bias),
        encode_value(u, 11, 52, 1023) < inf_bits(11, 52),
{
    lemma2_to64();
    lemma2_to64_rest();
    if u == 0 {
        lemma_fields(0, 0, 11, 52);
        lemma_pow2_pos(52);
    } else {
        assert(n >= 1) by (nonlinear_arith)
            requires
                u == n * pow2(k),
                u != 0,
        ;
        lemma_log2_scaled(n, k);
        lemma_log2_bounds(n);
        lemma_log2_bounds(u);
        if log2(n) >= 53 {
            if log2(n) > 53 {
                lemma_pow2_strictly_increases(53, log2(n));
            }
        }
        if log2(u) >= 2097 {
            if log2(u) > 2097 {
                lemma_pow2_strictly_increases(2097, log2(u));
            }
        }
        let q = quantum(u, 52, 1023);
        assert(sub_shift(52, 1023) == 0);
        assert(q <= k);
        let m = n * pow2((k - q) as nat);
        lemma_pow2_adds((k - q) as nat, q);
        lemma_mul_is_associative(n as int, pow2((k - q) as nat) as int, pow2(q) as int);
        assert(u == m * pow2(q));
        lemma_pow2_pos(q);
        vstd::arithmetic::div_mod::lemma_mod_multiples_basic(m as int, pow2(q) as int);
        crate::model::lemma_rne_exact(m, q);
        assert(m < pow2(53)) by {
            if log2(u) >= 52 {
                lemma_pow2_adds(q, 53);
            } else {
                lemma_pow2_adds(q, 52);
                if log2(u) + 1 < 52 {
                    lemma_pow2_strictly_increases(log2(u) + 1, 52);
                }
            }
            assert(m * pow2(q) < pow2(q) * pow2(53)) by {
                if log2(u) < 52 {
                    lemma_pow2_strictly_increases(52, 53);
                    vstd::arithmetic::mul::lemma_mul_strict_inequality(pow2(52) as int, pow2(53) as int, pow2(q) as int);
                    vstd::arithmetic::mul::lemma_mul_is_commutative(pow2(q) as int, pow2(52) as int);
                    vstd::arithmetic::mul::lemma_mul_is_commutative(pow2(q) as int, pow2(53) as int);
                }
            }
            vstd::arithmetic::mul::lemma_mul_is_commutative(m as int, pow2(q) as int);
            vstd::arithmetic::mul::lemma_mul_strict_inequality_converse(m as int, pow2(53) as int, pow2(q) as int);
            vstd::arithmetic::mul::lemma_mul_is_commutative(pow2(53) as int, pow2(q) as int);
        }
        assert(q <= 2044);
        assert(round_bits(u, 52, 1023) < inf_bits(11, 52)) by (nonlinear_arith)
            requires
                round_bits(u, 52, 1023) == q * pow2(52) + m,
                q <= 2044,
                m < pow2(53),
                pow2(53) == 2 * pow2(52),
                inf_bits(11, 52) == 2047 * pow2(52),
                pow2(52) > 0,
        ;
        lemma_f64_number(u, eb, mb, bias);
    }
}

/// A finite non-negative binary64 pattern encodes as its value does.
proof fn lemma_f64_pattern_encoding(t: nat, eb: nat, mb: nat, bias: int)
    requires
        t < inf_bits(11, 52),
    ensures
        in_width(t, 11, 52),
        is_finite_bits(t, 11, 52),
        encode_f64(t, eb, mb, bias) == encode_value(units(t, 11, 52, 1023), eb, mb, bias),
{
    lemma2_to64();
    lemma2_to64_rest();
    lemma_pow2_adds(11, 52);
    lemma_pow2_pos(52);
    assert(in_width(t, 11, 52)) by (nonlinear_arith)
        requires
            t < inf_bits(11, 52),
            inf_bits(11, 52) == 2047 * pow2(52),
            pow2(11 + 52) == 2048 * pow2(52),
    ;
    lemma_split(t, 11, 52);
    assert(exp_field(t, 11, 52) < 2047) by (nonlinear_arith)
        requires
            t == exp_field(t, 11, 52) * pow2(52) + man_field(t, 52),
            t < 2047 * pow2(52),
            pow2(52) > 0,
    ;
    lemma_units_binade(t, 11, 52, 1023);
    vstd::arithmetic::div_mod::lemma_basic_div(t as int, pow2(63) as int);
}

/// Rounding through binary64 keeps a value between two values that both encode, with
/// or without that rounding, to the same pattern.
proof fn lemma_through_f64_between(x: nat, y: nat, z: nat, eb: nat, mb: nat, bias: int)
    requires
        crate::model::scaled_layout(eb, mb, bias),
        x <= y <= z,
        encode_value(z, 11, 52, 1023) < inf_bits(11, 52),
        through_f64(x, eb, mb, bias) == encode_value(x, eb, mb, bias),
        through_f64(z, eb, mb, bias) == encode_value(z, eb, mb, bias),
        encode_value(x, eb, mb, bias) == encode_value(z, eb, mb, bias),
    ensures
        through_f64(y, eb, mb, bias) == encode_value(y, eb, mb, bias),
{
    lemma2_to64();
    lemma2_to64_rest();
    let tx = encode_value(x, 11, 52, 1023);
    let ty = encode_value(y, 11, 52, 1023);
    let tz = encode_value(z, 11, 52, 1023);
    crate::model::lemma_encode_value_monotone(x, y, 11, 52, 1023);
    crate::model::lemma_encode_value_monotone(y, z, 11, 52, 1023);
    crate::model::lemma_encode_value_monotone(x, y, eb, mb, bias);
    crate::model::lemma_encode_value_monotone(y, z, eb, mb, bias);
    lemma_f64_pattern_encoding(tx, eb, mb, bias);
    lemma_f64_pattern_encoding(ty, eb, mb, bias);
    lemma_f64_pattern_encoding(tz, eb, mb, bias);
    if tx < ty {
        crate::model::lemma_units_strictly_increasing(tx, ty, 11, 52, 1023);
    }
    if ty < tz {
        crate::model::lemma_units_strictly_increasing(ty, tz, 11, 52, 1023);
    }
    crate::model::lemma_encode_value_monotone(units(tx, 11, 52, 1023), units(ty, 11, 52, 1023), eb, mb, bias);
    crate::model::lemma_encode_value_monotone(units(ty, 11, 52, 1023), units(tz, 11, 52, 1023), eb, mb, bias);
}

/// A value within less than half a step above a normal number `n * 2^k` of a layout
/// rounds to that number.
pub(crate) proof fn lemma_rounds_down(u: nat, n: nat, k: nat, w: nat, mb: nat, bias: int)
    requires
        u == n * pow2(k) + w,
        pow2(mb) <= n < pow2(mb + 1),
        k >= sub_shift(mb, bias),
        k >= 1,
        w < pow2((k - 1) as nat),
    ensures
        quantum(u, mb, bias) == k,
        round_bits(u, mb, bias) == (k - sub_shift(mb, bias)) * pow2(mb) + n,
{
    lemma_pow2_unfold(k);
    lemma_pow2_pos(k);
    lemma_pow2_adds(mb, k);
    lemma_pow2_adds(mb + 1, k);
    assert(pow2(mb + k) <= u < pow2(mb + 1 + k)) by (nonlinear_arith)
        requires
            u == n * pow2(k) + w,
            pow2(mb) <= n,
            n + 1 <= pow2(mb + 1),
            w < pow2(k),
            pow2(mb + k) == pow2(mb) * pow2(k),
            pow2(mb + 1 + k) == pow2(mb + 1) * pow2(k),
    ;
    crate::model::lemma_log2_unique(u, mb + k);
    vstd::arithmetic::div_mod::lemma_fundamental_div_mod_converse(u as int, pow2(k) as int, n as int, w as int);
}

/// A normal number `n * 2^k` of a layout less `2^e`, at most an eighth of its step,
/// still rounds to that number.
pub(crate) proof fn lemma_rounds_up(n: nat, k: nat, e: nat, mb: nat, bias: int)
    requires
        pow2(mb) <= n < pow2(mb + 1),
        k >= sub_shift(mb, bias) + 1,
        e + 3 <= k,
    ensures
        n * pow2(k) > pow2(e),
        round_bits((n * pow2(k) - pow2(e)) as nat, mb, bias) == round_bits(n * pow2(k), mb, bias),
{
    let a = n * pow2(k);
    let ee = pow2(e);
    let l = (a - ee) as nat;
    lemma_pow2_pos(e);
    lemma_pow2_pos(k);
    lemma_pow2_pos(mb);
    lemma_pow2_pos((k - 1) as nat);
    lemma_pow2_unfold(k);
    lemma_pow2_unfold((k - 1) as nat);
    lemma_pow2_unfold(mb + 1);
    lemma_pow2_strictly_increases(e, (k - 2) as nat);
    lemma_rounds_down(a, n, k, 0, mb, bias);
    assert(a >= pow2(k)) by (nonlinear_arith)
        requires
            a == n * pow2(k),
            n >= pow2(mb),
            pow2(mb) >= 1,
    ;
    if n > pow2(mb) {
        let r = (pow2(k) - ee) as nat;
        assert(l == (n - 1) * pow2(k) + r) by (nonlinear_arith)
            requires
                l == n * pow2(k) - ee,
                r == pow2(k) - ee,
                n >= 1,
                ee < pow2(k),
        ;
        lemma_pow2_adds(mb, k);
        lemma_pow2_adds(mb + 1, k);
        assert(pow2(mb + k) <= l < pow2(mb + 1 + k)) by (nonlinear_arith)
            requires
                l == (n - 1) * pow2(k) + r,
                pow2(mb) <= n - 1,
                n <= pow2(mb + 1),
                r < pow2(k),
                pow2(mb + k) == pow2(mb) * pow2(k),
                pow2(mb + 1 + k) == pow2(mb + 1) * pow2(k),
        ;
        crate::model::lemma_log2_unique(l, mb + k);
        vstd::arithmetic::div_mod::lemma_fundamental_div_mod_converse(l as int, pow2(k) as int, (n - 1) as int, r as int);
    } else {
        let h = pow2((k - 1) as nat);
        let r = (h - ee) as nat;
        let top = (pow2(mb + 1) - 1) as nat;
        assert(l == top * h + r) by (nonlinear_arith)
            requires
                l == n * pow2(k) - ee,
                n == pow2(mb),
                pow2(k) == 2 * h,
                pow2(mb + 1) == 2 * pow2(mb),
                top == pow2(mb + 1) - 1,
                r == h - ee,
                ee < h,
        ;
        lemma_pow2_adds(mb, (k - 1) as nat);
        lemma_pow2_adds(mb + 1, (k - 1) as nat);
        assert(pow2((mb + (k - 1)) as nat) <= l < pow2((mb + 1 + (k - 1)) as nat)) by (nonlinear_arith)
            requires
                l == top * h + r,
                top == pow2(mb + 1) - 1,
                pow2(mb + 1) == 2 * pow2(mb),
                pow2(mb) >= 1,
                r < h,
                pow2((mb + (k - 1)) as nat) == pow2(mb) * h,
                pow2((mb + 1 + (k - 1)) as nat) == pow2(mb + 1) * h,
        ;
        crate::model::lemma_log2_unique(l, (mb + (k - 1)) as nat);
        vstd::arithmetic::div_mod::lemma_fundamental_div_mod_converse(l as int, h as int, top as int, r as int);
        assert(quantum(l, mb, bias) == k - 1);
        assert(crate::model::rne(l, (k - 1) as nat) == pow2(mb + 1));
        assert(round_bits(l, mb, bias) == round_bits(a, mb, bias)) by (nonlinear_arith)
            requires
                round_bits(l, mb, bias) == (k - 1 - sub_shift(mb, bias)) * pow2(mb) + pow2(mb + 1),
                round_bits(a, mb, bias) == (k - sub_shift(mb, bias)) * pow2(mb) + n,
                n == pow2(mb),
                pow2(mb + 1) == 2 * pow2(mb),
        ;
    }
}

/// The value of a finite E8M24 pattern as `n * 2^k`: a significand of at most 25 bits,
/// at least 2^24 for a normal number, and `k` within the layout's steps.
proof fn lemma_e8m24_parts(t: nat) -> (nk: (nat, nat))
    requires
        is_finite_bits(t, 8, 24),
    ensures
        units(t, 8, 24, 127) == nk.0 * pow2(nk.1),
        nk.0 < pow2(25),
        924 <= nk.1 <= 1177,
        nk.1 > 924 ==> nk.0 >= pow2(24),
{
    lemma2_to64();
    let nk = crate::laws::lemma_value_parts(t, 8, 24, 127);
    lemma_pow2_pos(24);
    vstd::arithmetic::div_mod::lemma_mod_pos_bound((t / pow2(24)) as int, pow2(8) as int);
    nk
}

/// The sum `nh * 2^kh + nl * 2^kl` of two E8M24 numbers, `kl <= kh`, encodes the same
/// with or without a rounding to binary64 first: binary64 holds it when the operands
/// are within 27 binades, and otherwise it lies within an eighth of a step above the
/// larger operand, as its binary64 rounding does.
proof fn lemma_e8m24_sum_parts(nh: nat, kh: nat, nl: nat, kl: nat)
    requires
        nh < pow2(25),
        nl < pow2(25),
        924 <= kl <= kh <= 1177,
        kh > 924 ==> nh >= pow2(24),
    ensures
        through_f64(nh * pow2(kh) + nl * pow2(kl), 8, 24, 127) == encode_value(nh * pow2(kh) + nl * pow2(kl), 8, 24, 127),
{
    lemma2_to64();
    lemma2_to64_rest();
    let u = nh * pow2(kh) + nl * pow2(kl);
    let g = (kh - kl) as nat;
    lemma_pow2_adds(g, kl);
    lemma_pow2_pos(kl);
    lemma_pow2_pos(kh);
    lemma_pow2_adds(53, 1177);
    lemma_pow2_strictly_increases(1230, 2097);
    if g <= 27 {
        if g < 27 {
            lemma_pow2_strictly_increases(g, 27);
        }
        let n = nh * pow2(g) + nl;
        assert(u == n * pow2(kl)) by (nonlinear_arith)
            requires
                u == nh * pow2(kh) + nl * pow2(kl),
                pow2(kh) == pow2(g) * pow2(kl),
                n == nh * pow2(g) + nl,
        ;
        assert(n < pow2(53)) by (nonlinear_arith)
            requires
                n == nh * pow2(g) + nl,
                nh < pow2(25),
                nl < pow2(25),
                pow2(g) <= pow2(27),
                pow2(25) == 33554432,
                pow2(27) == 134217728,
                pow2(53) == 9007199254740992,
        ;
        if kl < 1177 {
            lemma_pow2_strictly_increases(kl, 1177);
        }
        assert(u < pow2(2097)) by (nonlinear_arith)
            requires
                u == n * pow2(kl),
                n < pow2(53),
                pow2(kl) <= pow2(1177),
                pow2(53 + 1177) == pow2(53) * pow2(1177),
                pow2(1230) < pow2(2097),
        ;
        lemma_through_f64_exact(u, n, kl, 8, 24, 127);
    } else {
        let w = nl * pow2(kl);
        let e = (kh - 3) as nat;
        let ee = pow2(e);
        let a = nh * pow2(kh);
        lemma_pow2_pos(e);
        lemma_pow2_adds(25, kl);
        if kl + 25 < e {
            lemma_pow2_strictly_increases(kl + 25, e);
        }
        assert(w < ee) by (nonlinear_arith)
            requires
                w == nl * pow2(kl),
                nl < pow2(25),
                pow2(25 + kl) == pow2(25) * pow2(kl),
                pow2(25 + kl) <= ee,
                pow2(kl) > 0,
        ;
        lemma_pow2_adds(3, e);
        let b = a + ee;
        assert(b == (8 * nh + 1) * ee && 8 * nh + 1 < pow2(53) && a == nh * pow2(kh)) by (nonlinear_arith)
            requires
                b == a + ee,
                a == nh * pow2(kh),
                pow2(kh) == 8 * ee,
                nh < pow2(25),
                pow2(25) == 33554432,
                pow2(53) == 9007199254740992,
        ;
        if kh < 1177 {
            lemma_pow2_strictly_increases(kh, 1177);
        }
        assert(b < pow2(2097) && a < pow2(2097)) by (nonlinear_arith)
            requires
                b == (8 * nh + 1) * ee,
                b == a + ee,
                8 * nh + 1 < pow2(53),
                pow2(kh) == 8 * ee,
                pow2(kh) <= pow2(1177),
                pow2(53 + 1177) == pow2(53) * pow2(1177),
                pow2(1230) < pow2(2097),
                ee > 0,
        ;
        lemma_through_f64_exact(a, nh, kh, 8, 24, 127);
        lemma_through_f64_exact(b, (8 * nh + 1) as nat, e, 8, 24, 127);
        lemma_pow2_strictly_increases(e, (kh - 1) as nat);
        lemma_rounds_down(a, nh, kh, 0, 24, 127);
        lemma_rounds_down(b, nh, kh, ee, 24, 127);
        assert(a >= 1 && b >= 1) by (nonlinear_arith)
            requires
                a == nh * pow2(kh),
                nh >= pow2(24),
                pow2(24) >= 1,
                pow2(kh) >= 1,
                b == a + ee,
        ;
        lemma_through_f64_between(a, u, b, 8, 24, 127);
    }
}

/// The difference `nh * 2^kh - nl * 2^kl` of two E8M24 numbers at least 28 binades
/// apart lies within an eighth of a step below the larger operand, and so does its
/// binary64 rounding.
proof fn lemma_e8m24_difference_far(nh: nat, kh: nat, nl: nat, kl: nat)
    requires
        nh < pow2(25),
        nl < pow2(25),
        924 <= kl,
        kl + 28 <= kh <= 1177,
        kh > 924 ==> nh >= pow2(24),
    ensures
        nh * pow2(kh) >= nl * pow2(kl),
        through_f64((nh * pow2(kh) - nl * pow2(kl)) as nat, 8, 24, 127) == encode_value((nh * pow2(kh) - nl * pow2(kl)) as nat, 8, 24, 127),
{
    lemma2_to64();
    lemma2_to64_rest();
    let a = nh * pow2(kh);
    let w = nl * pow2(kl);
    let e = (kh - 3) as nat;
    let ee = pow2(e);
    lemma_pow2_pos(kl);
    lemma_pow2_pos(kh);
    lemma_pow2_pos(e);
    lemma_pow2_adds(25, kl);
    if kl + 25 < e {
        lemma_pow2_strictly_increases(kl + 25, e);
    }
    assert(w < ee) by (nonlinear_arith)
        requires
            w == nl * pow2(kl),
            nl < pow2(25),
            pow2(25 + kl) == pow2(25) * pow2(kl),
            pow2(25 + kl) <= ee,
            pow2(kl) > 0,
    ;
    lemma_rounds_up(nh, kh, e, 24, 127);
    let l = (a - ee) as nat;
    let u = (a - w) as nat;
    lemma_pow2_adds(3, e);
    lemma_pow2_adds(53, 1177);
    lemma_pow2_strictly_increases(1230, 2097);
    if kh < 1177 {
        lemma_pow2_strictly_increases(kh, 1177);
    }
    let n8 = (8 * nh - 1) as nat;
    assert(l == n8 * ee && n8 < pow2(53) && a < pow2(2097) && l <= u && u <= a) by (nonlinear_arith)
        requires
            l == a - ee,
            a > ee,
            a == nh * pow2(kh),
            pow2(kh) == 8 * ee,
            n8 == 8 * nh - 1,
            nh < pow2(25),
            pow2(25) == 33554432,
            pow2(53) == 9007199254740992,
            pow2(kh) <= pow2(1177),
            pow2(53 + 1177) == pow2(53) * pow2(1177),
            pow2(1230) < pow2(2097),
            u == a - w,
            w < ee,
    ;
    lemma_through_f64_exact(l, n8, e, 8, 24, 127);
    lemma_through_f64_exact(a, nh, kh, 8, 24, 127);
    assert(l >= 1);
    lemma_through_f64_between(l, u, a, 8, 24, 127);
}

/// Uf32 addition, subtraction and multiplication give what the same operation in
/// binary64 on the widened operands, rounded back to Uf32, gives.
pub proof fn lemma_uf32_ops_as_f64(a: nat, b: nat)
    ensures
        sum_bits(a, b, 8, 24, 127) == sum_f64_bits(a, b, 8, 24, 127),
        difference_bits(a, b, 8, 24, 127) == difference_f64_bits(a, b, 8, 24, 127),
        product_bits(a, b, 8, 24, 127) == product_f64_bits(a, b, 8, 24, 127),
{
    if is_finite_bits(a, 8, 24) && is_finite_bits(b, 8, 24) {
        lemma2_to64();
        lemma2_to64_rest();
        let (na, ka) = lemma_e8m24_parts(a);
        let (nb, kb) = lemma_e8m24_parts(b);
        let ua = units(a, 8, 24, 127);
        let ub = units(b, 8, 24, 127);
        lemma_pow2_pos(ka);
        lemma_pow2_pos(kb);
        // Sum.
        if ka >= kb {
            lemma_e8m24_sum_parts(na, ka, nb, kb);
        } else {
            lemma_e8m24_sum_parts(nb, kb, na, ka);
        }
        // Difference.
        if ua >= ub {
            let u = (ua - ub) as nat;
            lemma_pow2_adds(53, 1177);
            lemma_pow2_strictly_increases(1230, 2097);
            if ka >= kb + 28 {
                lemma_e8m24_difference_far(na, ka, nb, kb);
            } else if ka >= kb {
                let g = (ka - kb) as nat;
                lemma_pow2_adds(g, kb);
                if g < 27 {
                    lemma_pow2_strictly_increases(g, 27);
                }
                let d = na * pow2(g) - nb;
                assert(d >= 0 && u == d * pow2(kb) && d < pow2(53)) by (nonlinear_arith)
                    requires
                        u == ua - ub,
                        ua >= ub,
                        ua == na * pow2(ka),
                        ub == nb * pow2(kb),
                        pow2(ka) == pow2(g) * pow2(kb),
                        d == na * pow2(g) - nb,
                        pow2(kb) > 0,
                        na < pow2(25),
                        pow2(g) <= pow2(27),
                        pow2(25) == 33554432,
                        pow2(27) == 134217728,
                        pow2(53) == 9007199254740992,
                ;
                if kb < 1177 {
                    lemma_pow2_strictly_increases(kb, 1177);
                }
                assert(u < pow2(2097)) by (nonlinear_arith)
                    requires
                        u == d * pow2(kb),
                        d < pow2(53),
                        pow2(kb) <= pow2(1177),
                        pow2(53 + 1177) == pow2(53) * pow2(1177),
                        pow2(1230) < pow2(2097),
                ;
                lemma_through_f64_exact(u, d as nat, kb, 8, 24, 127);
            } else {
                let g = (kb - ka) as nat;
                lemma_pow2_adds(g, ka);
                let d = na - nb * pow2(g);
                assert(d >= 0 && u == d * pow2(ka) && d < pow2(25)) by (nonlinear_arith)
                    requires
                        u == ua - ub,
                        ua >= ub,
                        ua == na * pow2(ka),
                        ub == nb * pow2(kb),
                        pow2(kb) == pow2(g) * pow2(ka),
                        d == na - nb * pow2(g),
                        pow2(ka) > 0,
                        na < pow2(25),
                ;
                if ka < 1177 {
                    lemma_pow2_strictly_increases(ka, 1177);
                }
                assert(u < pow2(2097)) by (nonlinear_arith)
                    requires
                        u == d * pow2(ka),
                        d < pow2(25),
                        pow2(25) < pow2(53),
                        pow2(ka) <= pow2(1177),
                        pow2(53 + 1177) == pow2(53) * pow2(1177),
                        pow2(1230) < pow2(2097),
                ;
                lemma_through_f64_exact(u, d as nat, ka, 8, 24, 127);
            }
        }
        // Product: at most 50 significant bits.
        let k = (ka + kb - 1074) as nat;
        let n = na * nb;
        lemma_pow2_adds(ka, kb);
        lemma_pow2_adds(k, 1074);
        lemma_pow2_pos(1074);
        lemma_pow2_pos(k);
        assert(ua * ub == (n * pow2(k)) * pow2(1074)) by (nonlinear_arith)
            requires
                ua == na * pow2(ka),
                ub == nb * pow2(kb),
                pow2(ka) * pow2(kb) == pow2(k) * pow2(1074),
                n == na * nb,
        ;
        vstd::arithmetic::div_mod::lemma_div_multiples_vanish((n * pow2(k)) as int, pow2(1074) as int);
        vstd::arithmetic::mul::lemma_mul_is_commutative((n * pow2(k)) as int, pow2(1074) as int);
        lemma_pow2_adds(50, k);
        lemma_pow2_adds(25, 25);
        if k + 50 < 2097 {
            lemma_pow2_strictly_increases(k + 50, 2097);
        }
        assert(n < pow2(53) && n * pow2(k) < pow2(2097)) by (nonlinear_arith)
            requires
                na < pow2(25),
                nb < pow2(25),
                n == na * nb,
                pow2(50) == pow2(25) * pow2(25),
                pow2(50) < pow2(53),
                pow2(50 + k) == pow2(50) * pow2(k),
                pow2(50 + k) < pow2(2097),
                pow2(k) > 0,
        ;
        lemma_through_f64_exact(n * pow2(k), n, k, 8, 24, 127);
    }
}

/// The ratio `n / d` of two E8M24 significands (`na, nb < 2^25`) times powers of two
/// encodes the same with or without a rounding to binary64 first. With `2^lam` the
/// ratio's top bit, the two binary64 numbers `lo` and `lo + 2^(lam-50)` around it
/// hold no midpoint of the layout, so they encode alike, and so does every value
/// between them.
#[verifier::rlimit(60)]
proof fn lemma_ratio_through_f64(n: nat, d: nat, na: nat, g1: nat, nb: nat, kb: nat)
    requires
        1 <= na < pow2(25),
        1 <= nb < pow2(25),
        n == na * pow2(g1),
        d == nb * pow2(kb),
        kb + 821 <= g1 <= kb + 1327,
    ensures
        ratio_through_f64(n, d, 8, 24, 127) == encode_ratio(n, d, 8, 24, 127),
{
    lemma2_to64();
    lemma2_to64_rest();
    let c = (g1 - kb) as nat;
    lemma_pow2_pos(kb);
    lemma_pow2_pos(c);
    lemma_pow2_adds(c, kb);
    let x = na * pow2(c);
    assert(n == x * pow2(kb)) by {
        lemma_mul_is_associative(na as int, pow2(c) as int, pow2(kb) as int);
    }
    crate::arith8::lemma_div_scaled(x, nb, pow2(kb));
    let r = n / d;
    assert(r == x / nb);
    assert(d > 0) by (nonlinear_arith)
        requires
            d == nb * pow2(kb),
            nb >= 1,
            pow2(kb) > 0,
    ;
    vstd::arithmetic::div_mod::lemma_fundamental_div_mod(x as int, nb as int);
    vstd::arithmetic::div_mod::lemma_mod_pos_bound(x as int, nb as int);
    lemma_pow2_adds((c - 25) as nat, 25);
    lemma_pow2_adds(c, 25);
    lemma_pow2_pos((c - 25) as nat);
    let p = pow2((c - 25) as nat);
    assert(x >= pow2(c) && x < pow2(c + 25)) by (nonlinear_arith)
        requires
            x == na * pow2(c),
            pow2(c + 25) == pow2(c) * pow2(25),
            1 <= na < pow2(25),
            pow2(c) > 0,
    ;
    assert(r <= x) by (nonlinear_arith)
        requires
            x == nb * r + x % nb,
            nb >= 1,
    ;
    assert(p <= r) by {
        if r < p {
            assert(x < nb * r + nb);
            assert(nb * r + nb <= nb * p) by (nonlinear_arith)
                requires
                    r + 1 <= p,
                    nb >= 1,
            ;
            assert(nb * p < pow2(25) * p) by (nonlinear_arith)
                requires
                    nb < pow2(25),
                    p > 0,
            ;
            assert(pow2(c) == p * pow2(25));
        }
    }
    lemma_log2_bounds(r);
    let lam = log2(r);
    assert(c - 25 <= lam <= c + 24) by {
        if lam < c - 25 {
            if lam + 1 < c - 25 {
                lemma_pow2_strictly_increases(lam + 1, (c - 25) as nat);
            }
        }
        if lam > c + 24 {
            if lam > c + 25 {
                lemma_pow2_strictly_increases(c + 25, lam);
            }
        }
    }
    let h = (lam - 50) as nat;
    let j = (h - 4) as nat;
    lemma_pow2_pos(h);
    lemma_pow2_pos(j);
    lemma_pow2_pos(j + 1);
    lemma_pow2_adds(j + 1, 3);
    assert(h == j + 1 + 3);
    assert(quantum(r, 52, 1023) >= j + 2);
    assert(quantum(r, 24, 127) >= j + 2);
    vstd::arithmetic::div_mod::lemma_div_denominator(n as int, d as int, pow2(j + 1) as int);
    vstd::arithmetic::div_mod::lemma_div_denominator(n as int, d as int, pow2(h) as int);
    vstd::arithmetic::div_mod::lemma_div_denominator(r as int, pow2(j + 1) as int, pow2(3) as int);
    let cc = d * pow2(j + 1);
    let gg = d * pow2(h);
    let f = n / cc;
    let l0 = n / gg;
    assert(f == r / pow2(j + 1));
    assert(l0 == r / pow2(h));
    assert(l0 == f / pow2(3));
    // The whole quotients at the two steps.
    lemma_pow2_adds(h, 50);
    lemma_pow2_adds(h, 51);
    vstd::arithmetic::div_mod::lemma_fundamental_div_mod(r as int, pow2(h) as int);
    vstd::arithmetic::div_mod::lemma_mod_pos_bound(r as int, pow2(h) as int);
    assert(pow2(h + 50) == pow2(lam));
    assert(l0 >= pow2(50) && l0 < pow2(51)) by (nonlinear_arith)
        requires
            r == pow2(h) * l0 + r % pow2(h),
            r % pow2(h) < pow2(h),
            pow2(h + 50) <= r,
            r < pow2(h + 51),
            pow2(h + 50) == pow2(h) * pow2(50),
            pow2(h + 51) == pow2(h) * pow2(51),
            pow2(h) > 0,
    ;
    lemma_pow2_adds(j + 1, 53);
    vstd::arithmetic::div_mod::lemma_fundamental_div_mod(r as int, pow2(j + 1) as int);
    vstd::arithmetic::div_mod::lemma_mod_pos_bound(r as int, pow2(j + 1) as int);
    assert(f >= 1) by {
        if f == 0 {
            vstd::arithmetic::mul::lemma_mul_by_zero_is_zero(pow2(j + 1) as int);
            lemma_pow2_strictly_increases(j + 1, lam);
        }
    }
    crate::laws::lemma_ratio_is_sticky(n, d, j, 11, 52, 1023);
    crate::laws::lemma_ratio_is_sticky(n, d, j, 8, 24, 127);
    let z = crate::laws::sticky_value(n, d, j);
    let lo = l0 * pow2(h);
    let hi = lo + pow2(h);
    vstd::arithmetic::div_mod::lemma_fundamental_div_mod(f as int, pow2(3) as int);
    vstd::arithmetic::div_mod::lemma_mod_pos_bound(f as int, pow2(3) as int);
    let st: nat = if n % cc != 0 { 1 } else { 0 };
    assert(z == (2 * f + st) * pow2(j));
    lemma_pow2_unfold(j + 1);
    let phi = f % pow2(3);
    assert(z == lo + phi * pow2(j + 1) + st * pow2(j)) by (nonlinear_arith)
        requires
            z == (2 * f + st) * pow2(j),
            f == pow2(3) * l0 + phi,
            pow2(h) == pow2(j + 1) * pow2(3),
            pow2(j + 1) == 2 * pow2(j),
            lo == l0 * pow2(h),
    ;
    assert(phi * pow2(j + 1) + pow2(j + 1) <= pow2(h)) by (nonlinear_arith)
        requires
            phi < pow2(3),
            pow2(h) == pow2(j + 1) * pow2(3),
            pow2(j + 1) > 0,
    ;
    assert(st * pow2(j) <= pow2(j + 1)) by (nonlinear_arith)
        requires
            st <= 1,
            pow2(j + 1) == 2 * pow2(j),
            pow2(j) > 0,
    ;
    assert(phi * pow2(j + 1) >= 0 && st * pow2(j) >= 0);
    assert(lo <= z && z <= hi);
    // Both ends are binary64 numbers.
    lemma_pow2_adds(53, h);
    if h + 53 < 2097 {
        lemma_pow2_strictly_increases(h + 53, 2097);
    }
    assert(l0 + 1 < pow2(53) && hi == (l0 + 1) * pow2(h) && hi < pow2(2097)) by (nonlinear_arith)
        requires
            l0 < pow2(51),
            pow2(51) == 2251799813685248,
            pow2(53) == 9007199254740992,
            lo == l0 * pow2(h),
            hi == lo + pow2(h),
            pow2(53 + h) == pow2(53) * pow2(h),
            pow2(53 + h) < pow2(2097),
            pow2(h) > 0,
    ;
    assert(lo < pow2(2097));
    lemma_through_f64_exact(lo, l0, h, 8, 24, 127);
    lemma_through_f64_exact(hi, (l0 + 1) as nat, h, 8, 24, 127);
    vstd::arithmetic::div_mod::lemma_fundamental_div_mod(n as int, gg as int);
    vstd::arithmetic::div_mod::lemma_mod_pos_bound(n as int, gg as int);
    assert(gg > 0) by (nonlinear_arith)
        requires
            gg == d * pow2(h),
            d > 0,
            pow2(h) > 0,
    ;
    assert(lo * d == gg * l0 && hi * d == gg * l0 + gg && pow2(h) * d == gg) by (nonlinear_arith)
        requires
            lo == l0 * pow2(h),
            hi == lo + pow2(h),
            gg == d * pow2(h),
    ;
    if n % gg == 0 {
        assert(n == (l0 * pow2(3)) * cc) by (nonlinear_arith)
            requires
                n == gg * l0 + n % gg,
                n % gg == 0,
                gg == d * pow2(h),
                cc == d * pow2(j + 1),
                pow2(h) == pow2(j + 1) * pow2(3),
        ;
        assert(cc > 0) by (nonlinear_arith)
            requires
                cc == d * pow2(j + 1),
                d > 0,
                pow2(j + 1) > 0,
        ;
        vstd::arithmetic::div_mod::lemma_mod_multiples_basic((l0 * pow2(3)) as int, cc as int);
        vstd::arithmetic::div_mod::lemma_div_multiples_vanish((l0 * pow2(3)) as int, cc as int);
        vstd::arithmetic::mul::lemma_mul_is_commutative((l0 * pow2(3)) as int, cc as int);
        assert(z == lo) by (nonlinear_arith)
            requires
                z == (2 * f + st) * pow2(j),
                st == 0,
                f == l0 * pow2(3),
                lo == l0 * pow2(h),
                pow2(h) == pow2(j + 1) * pow2(3),
                pow2(j + 1) == 2 * pow2(j),
        ;
    } else {
        let q = quantum(lo, 24, 127);
        lemma_log2_bounds(lo);
        assert(lo >= pow2(lam)) by (nonlinear_arith)
            requires
                lo == l0 * pow2(h),
                l0 >= pow2(50),
                pow2(h + 50) == pow2(h) * pow2(50),
                pow2(h + 50) == pow2(lam),
        ;
        assert(log2(lo) >= lam) by {
            if log2(lo) < lam {
                if log2(lo) + 1 < lam {
                    lemma_pow2_strictly_increases(log2(lo) + 1, lam);
                }
            }
        }
        assert(q >= h + 26);
        crate::laws::lemma_not_midpoint(n, d, lo, na, g1, nb, kb, q, h, 25);
        crate::laws::lemma_not_midpoint(n, d, hi, na, g1, nb, kb, q, h, 25);
        vstd::arithmetic::div_mod::lemma_mod_multiples_basic(l0 as int, pow2(h) as int);
        crate::laws::lemma_same_rounding(lo, h, 8, 24, 127);
        lemma_through_f64_between(lo, z, hi, 8, 24, 127);
    }
}

/// Uf32 division gives what binary64 division of the widened operands, rounded back,
/// gives: a quotient of two of its numbers is never close enough to a midpoint of the
/// layout for the rounding to binary64 to move it across.
pub proof fn lemma_uf32_quotient_as_f64(a: nat, b: nat)
    ensures
        quotient_bits(a, b, 8, 24, 127) == quotient_f64_bits(a, b, 8, 24, 127),
{
    lemma2_to64();
    if is_finite_bits(a, 8, 24) && is_finite_bits(b, 8, 24) && units(b, 8, 24, 127) != 0 {
        let ua = units(a, 8, 24, 127);
        let ub = units(b, 8, 24, 127);
        if ua == 0 {
            lemma2_to64_rest();
            lemma_fields(0, 0, 11, 52);
            assert(ua * pow2(1074) == 0);
        } else {
            let (na, ka) = lemma_e8m24_parts(a);
            let (nb, kb) = lemma_e8m24_parts(b);
            assert(na >= 1 && nb >= 1) by {
                if na == 0 {
                    vstd::arithmetic::mul::lemma_mul_by_zero_is_zero(pow2(ka) as int);
                }
                if nb == 0 {
                    vstd::arithmetic::mul::lemma_mul_by_zero_is_zero(pow2(kb) as int);
                }
            }
            lemma_pow2_adds(ka, 1074);
            assert(ua * pow2(1074) == na * pow2(ka + 1074)) by {
                lemma_mul_is_associative(na as int, pow2(ka) as int, pow2(1074) as int);
            }
            lemma_ratio_through_f64(ua * pow2(1074), ub, na, ka + 1074, nb, kb);
        }
    }
}

} // verus!
