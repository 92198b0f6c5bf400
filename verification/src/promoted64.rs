//! The 64-bit layout's arithmetic against binary128 arithmetic: the exact result
//! rounded once to the layout is the result computed in binary128 and rounded back.
//!
//! Both sides are counted in binary128's steps of `2^-16494`: binary128 is the layout
//! `(15, 112, 963)` and the 64-bit layout is `(11, 52, quad_bias())`.
use vstd::prelude::*;
use vstd::arithmetic::power2::{pow2, lemma2_to64, lemma2_to64_rest, lemma_pow2_adds, lemma_pow2_pos, lemma_pow2_strictly_increases, lemma_pow2_unfold};
use vstd::arithmetic::mul::lemma_mul_is_associative;
use crate::model::{log2, units, exp_field, man_field, sub_shift, nan_bits, inf_bits, is_nan_bits, is_inf_bits, is_finite_bits, encode_value, encode_float, round_bits, quantum, in_width, lemma_log2_bounds, lemma_log2_scaled, lemma_split, lemma_units_binade, lemma_encode_value_exact, lemma_fields};
use crate::arith8::{encode_ratio, sum_bits, difference_bits, product_bits_in, quotient_bits_in};
use crate::quad::quad_bias;
use crate::promoted::{lemma_rounds_down, lemma_rounds_up};

verus! {

/// The layout's pattern of the binary128 number nearest the value `u` (in binary128
/// steps).
pub open spec fn through_f128(u: nat, eb: nat, mb: nat, bias: int) -> nat {
    encode_float(encode_value(u, 15, 112, 963), 15, 112, 963, eb, mb, bias)
}

/// The layout's pattern of the binary128 number nearest the ratio `n / d` (in
/// binary128 steps).
pub open spec fn ratio_through_f128(n: nat, d: nat, eb: nat, mb: nat, bias: int) -> nat {
    encode_float(encode_ratio(n, d, 15, 112, 963), 15, 112, 963, eb, mb, bias)
}

/// The pattern of `a + b` computed in binary128 (values in binary128 steps): the
/// special cases of addition, and otherwise the sum rounded to binary128, then to the
/// layout.
pub open spec fn sum_f128_bits(a: nat, b: nat, eb: nat, mb: nat, bias: int) -> nat {
    if is_nan_bits(a, eb, mb) || is_nan_bits(b, eb, mb) {
        nan_bits(eb, mb)
    } else if is_inf_bits(a, eb, mb) || is_inf_bits(b, eb, mb) {
        inf_bits(eb, mb)
    } else {
        through_f128(units(a, eb, mb, bias) + units(b, eb, mb, bias), eb, mb, bias)
    }
}

/// The pattern of `a - b` computed in binary128: the special cases of subtraction,
/// and otherwise the difference rounded to binary128, then to the layout.
pub open spec fn difference_f128_bits(a: nat, b: nat, eb: nat, mb: nat, bias: int) -> nat {
    if is_nan_bits(a, eb, mb) || is_nan_bits(b, eb, mb) || is_inf_bits(b, eb, mb) {
        nan_bits(eb, mb)
    } else if is_inf_bits(a, eb, mb) {
        inf_bits(eb, mb)
    } else if units(a, eb, mb, bias) >= units(b, eb, mb, bias) {
        through_f128((units(a, eb, mb, bias) - units(b, eb, mb, bias)) as nat, eb, mb, bias)
    } else {
        nan_bits(eb, mb)
    }
}

/// The pattern of `a * b` computed in binary128: the special cases of
/// multiplication, and otherwise the product rounded to binary128, then to the layout.
pub open spec fn product_f128_bits(a: nat, b: nat, eb: nat, mb: nat, bias: int) -> nat {
    if is_nan_bits(a, eb, mb) || is_nan_bits(b, eb, mb) {
        nan_bits(eb, mb)
    } else if is_inf_bits(a, eb, mb) || is_inf_bits(b, eb, mb) {
        if units(a, eb, mb, bias) == 0 || units(b, eb, mb, bias) == 0 {
            nan_bits(eb, mb)
        } else {
            inf_bits(eb, mb)
        }
    } else {
        through_f128(units(a, eb, mb, bias) * units(b, eb, mb, bias) / pow2(16494), eb, mb, bias)
    }
}

/// The pattern of `a / b` computed in binary128: the special cases of division, and
/// otherwise the quotient rounded to binary128, then to the layout.
pub open spec fn quotient_f128_bits(a: nat, b: nat, eb: nat, mb: nat, bias: int) -> nat {
    if is_nan_bits(a, eb, mb) || is_nan_bits(b, eb, mb) {
        nan_bits(eb, mb)
    } else if is_inf_bits(a, eb, mb) {
        if is_inf_bits(b, eb, mb) {
            nan_bits(eb, mb)
        } else {
            inf_bits(eb, mb)
        }
    } else if is_inf_bits(b, eb, mb) {
        0
    } else if units(b, eb, mb, bias) == 0 {
        if units(a, eb, mb, bias) == 0 {
            nan_bits(eb, mb)
        } else {
            inf_bits(eb, mb)
        }
    } else {
        ratio_through_f128(units(a, eb, mb, bias) * pow2(16494), units(b, eb, mb, bias), eb, mb, bias)
    }
}

/// Facts about binary128's constants.
proof fn lemma_f128_constants()
    ensures
        sub_shift(112, 963) == 0,
        inf_bits(15, 112) == 32767 * pow2(112),
        pow2(113) == 2 * pow2(112),
        pow2(127) == 32768 * pow2(112),
        pow2(112) > 0,
{
    lemma2_to64();
    lemma_pow2_unfold(113);
    lemma_pow2_adds(15, 112);
    lemma_pow2_pos(112);
}

/// A positive binary128 number, given by its value `v`, is its own rounding to
/// binary128, and encoding that binary128 pattern in a layout encodes `v`.
proof fn lemma_f128_number(v: nat, eb: nat, mb: nat, bias: int)
    requires
        v >= 1,
        v % pow2(quantum(v, 112, 963)) == 0,
        round_bits(v, 112, 963) < inf_bits(15, 112),
    ensures
        encode_value(v, 15, 112, 963) == round_bits(v, 112, 963),
        encode_float(round_bits(v, 112, 963), 15, 112, 963, eb, mb, bias) == encode_value(v, eb, mb, bias),
{
    lemma_f128_constants();
    lemma_encode_value_exact(v, 15, 112, 963);
    let t = round_bits(v, 112, 963);
    lemma_units_binade(t, 15, 112, 963);
    assert(t / pow2(127) == 0) by {
        vstd::arithmetic::div_mod::lemma_basic_div(t as int, pow2(127) as int);
    }
}

/// A value `n * 2^k` with at most 113 significant bits below binary128's overflow is
/// a binary128 number: rounding it to binary128 first does not change its encoding.
proof fn lemma_through_f128_exact(u: nat, n: nat, k: nat, eb: nat, mb: nat, bias: int)
    requires
        u == n * pow2(k),
        n < pow2(113),
        u < pow2(32877),
    ensures
        through_f128(u, eb, mb, bias) == encode_value(u, eb, mb, bias),
        encode_value(u, 15, 112, 963) < inf_bits(15, 112),
{
    lemma2_to64();
    lemma_f128_constants();
    if u == 0 {
        lemma_fields(0, 0, 15, 112);
    } else {
        assert(n >= 1) by (nonlinear_arith)
            requires
                u == n * pow2(k),
                u != 0,
        ;
        lemma_log2_scaled(n, k);
        lemma_log2_bounds(n);
        lemma_log2_bounds(u);
        if log2(n) >= 113 {
            if log2(n) > 113 {
                lemma_pow2_strictly_increases(113, log2(n));
            }
        }
        if log2(u) >= 32877 {
            if log2(u) > 32877 {
                lemma_pow2_strictly_increases(32877, log2(u));
            }
        }
        let q = quantum(u, 112, 963);
        assert(q <= k);
        let m = n * pow2((k - q) as nat);
        lemma_pow2_adds((k - q) as nat, q);
        lemma_mul_is_associative(n as int, pow2((k - q) as nat) as int, pow2(q) as int);
        assert(u == m * pow2(q));
        lemma_pow2_pos(q);
        vstd::arithmetic::div_mod::lemma_mod_multiples_basic(m as int, pow2(q) as int);
        crate::model::lemma_rne_exact(m, q);
        assert(m < pow2(113)) by {
            if log2(u) >= 112 {
                lemma_pow2_adds(q, 113);
            } else {
                lemma_pow2_adds(q, 112);
                if log2(u) + 1 < 112 {
                    lemma_pow2_strictly_increases(log2(u) + 1, 112);
                }
            }
            assert(m * pow2(q) < pow2(q) * pow2(113)) by {
                if log2(u) < 112 {
                    lemma_pow2_strictly_increases(112, 113);
                    vstd::arithmetic::mul::lemma_mul_strict_inequality(pow2(112) as int, pow2(113) as int, pow2(q) as int);
                    vstd::arithmetic::mul::lemma_mul_is_commutative(pow2(q) as int, pow2(112) as int);
                    vstd::arithmetic::mul::lemma_mul_is_commutative(pow2(q) as int, pow2(113) as int);
                }
            }
            vstd::arithmetic::mul::lemma_mul_is_commutative(m as int, pow2(q) as int);
            vstd::arithmetic::mul::lemma_mul_strict_inequality_converse(m as int, pow2(113) as int, pow2(q) as int);
            vstd::arithmetic::mul::lemma_mul_is_commutative(pow2(113) as int, pow2(q) as int);
        }
        assert(q <= 32764);
        assert(round_bits(u, 112, 963) < inf_bits(15, 112)) by (nonlinear_arith)
            requires
                round_bits(u, 112, 963) == q * pow2(112) + m,
                q <= 32764,
                m < pow2(113),
                pow2(113) == 2 * pow2(112),
                inf_bits(15, 112) == 32767 * pow2(112),
                pow2(112) > 0,
        ;
        lemma_f128_number(u, eb, mb, bias);
    }
}

/// A finite non-negative binary128 pattern encodes as its value does.
proof fn lemma_f128_pattern_encoding(t: nat, eb: nat, mb: nat, bias: int)
    requires
        t < inf_bits(15, 112),
    ensures
        in_width(t, 15, 112),
        is_finite_bits(t, 15, 112),
        encode_float(t, 15, 112, 963, eb, mb, bias) == encode_value(units(t, 15, 112, 963), eb, mb, bias),
{
    lemma2_to64();
    lemma_f128_constants();
    assert(in_width(t, 15, 112));
    lemma_split(t, 15, 112);
    assert(exp_field(t, 15, 112) < 32767) by (nonlinear_arith)
        requires
            t == exp_field(t, 15, 112) * pow2(112) + man_field(t, 112),
            t < 32767 * pow2(112),
            pow2(112) > 0,
    ;
    lemma_units_binade(t, 15, 112, 963);
    vstd::arithmetic::div_mod::lemma_basic_div(t as int, pow2(127) as int);
}

/// Rounding through binary128 keeps a value between two values that both encode, with
/// or without that rounding, to the same pattern.
proof fn lemma_through_f128_between(x: nat, y: nat, z: nat, eb: nat, mb: nat, bias: int)
    requires
        crate::model::scaled_layout(eb, mb, bias),
        x <= y <= z,
        encode_value(z, 15, 112, 963) < inf_bits(15, 112),
        through_f128(x, eb, mb, bias) == encode_value(x, eb, mb, bias),
        through_f128(z, eb, mb, bias) == encode_value(z, eb, mb, bias),
        encode_value(x, eb, mb, bias) == encode_value(z, eb, mb, bias),
    ensures
        through_f128(y, eb, mb, bias) == encode_value(y, eb, mb, bias),
{
    lemma2_to64();
    lemma_f128_constants();
    let tx = encode_value(x, 15, 112, 963);
    let ty = encode_value(y, 15, 112, 963);
    let tz = encode_value(z, 15, 112, 963);
    crate::model::lemma_encode_value_monotone(x, y, 15, 112, 963);
    crate::model::lemma_encode_value_monotone(y, z, 15, 112, 963);
    crate::model::lemma_encode_value_monotone(x, y, eb, mb, bias);
    crate::model::lemma_encode_value_monotone(y, z, eb, mb, bias);
    lemma_f128_pattern_encoding(tx, eb, mb, bias);
    lemma_f128_pattern_encoding(ty, eb, mb, bias);
    lemma_f128_pattern_encoding(tz, eb, mb, bias);
    if tx < ty {
        crate::model::lemma_units_strictly_increasing(tx, ty, 15, 112, 963);
    }
    if ty < tz {
        crate::model::lemma_units_strictly_increasing(ty, tz, 15, 112, 963);
    }
    crate::model::lemma_encode_value_monotone(units(tx, 15, 112, 963), units(ty, 15, 112, 963), eb, mb, bias);
    crate::model::lemma_encode_value_monotone(units(ty, 15, 112, 963), units(tz, 15, 112, 963), eb, mb, bias);
}

/// The value of a finite 64-bit pattern in binary128 steps as `n * 2^k`: a
/// significand of at most 53 bits, at least 2^52 for a normal number, and `k` within
/// the layout's steps.
proof fn lemma_e11m52_parts(t: nat) -> (nk: (nat, nat))
    requires
        is_finite_bits(t, 11, 52),
    ensures
        units(t, 11, 52, quad_bias()) == nk.0 * pow2(nk.1),
        nk.0 < pow2(53),
        15420 <= nk.1 <= 17465,
        nk.1 > 15420 ==> nk.0 >= pow2(52),
{
    lemma2_to64();
    let nk = crate::laws::lemma_value_parts(t, 11, 52, quad_bias());
    lemma_pow2_pos(52);
    vstd::arithmetic::div_mod::lemma_mod_pos_bound((t / pow2(52)) as int, pow2(11) as int);
    nk
}

/// Bounds on powers of two used below.
proof fn lemma_wide_powers()
    ensures
        pow2(112) == pow2(53) * pow2(59),
        pow2(113) == 2 * pow2(112),
        pow2(53) < pow2(112),
        pow2(56) < pow2(113),
        pow2(106) == pow2(53) * pow2(53),
        pow2(106) < pow2(113),
        pow2(113 + 17465) == pow2(113) * pow2(17465),
        pow2(113 + 17465) < pow2(32877),
        pow2(53) == 9007199254740992,
        pow2(56) == 72057594037927936,
        pow2(59) == 576460752303423488,
{
    lemma2_to64();
    lemma2_to64_rest();
    lemma_pow2_adds(53, 59);
    lemma_pow2_unfold(113);
    lemma_pow2_strictly_increases(53, 112);
    lemma_pow2_strictly_increases(56, 113);
    lemma_pow2_adds(53, 53);
    lemma_pow2_strictly_increases(106, 113);
    lemma_pow2_adds(113, 17465);
    lemma_pow2_strictly_increases(113 + 17465, 32877);
}

/// The sum `nh * 2^kh + nl * 2^kl` of two 64-bit numbers (binary128 steps), `kl <= kh`,
/// encodes the same with or without a rounding to binary128 first: binary128 holds it
/// when the operands are within 59 binades, and otherwise it lies within an eighth of
/// a step above the larger operand, as its binary128 rounding does.
proof fn lemma_e11m52_sum_parts(nh: nat, kh: nat, nl: nat, kl: nat)
    requires
        nh < pow2(53),
        nl < pow2(53),
        15420 <= kl <= kh <= 17465,
        kh > 15420 ==> nh >= pow2(52),
    ensures
        through_f128(nh * pow2(kh) + nl * pow2(kl), 11, 52, quad_bias()) == encode_value(nh * pow2(kh) + nl * pow2(kl), 11, 52, quad_bias()),
{
    lemma_wide_powers();
    let u = nh * pow2(kh) + nl * pow2(kl);
    let g = (kh - kl) as nat;
    lemma_pow2_adds(g, kl);
    lemma_pow2_pos(kl);
    lemma_pow2_pos(kh);
    if g <= 59 {
        if g < 59 {
            lemma_pow2_strictly_increases(g, 59);
        }
        let n = nh * pow2(g) + nl;
        assert(u == n * pow2(kl)) by (nonlinear_arith)
            requires
                u == nh * pow2(kh) + nl * pow2(kl),
                pow2(kh) == pow2(g) * pow2(kl),
                n == nh * pow2(g) + nl,
        ;
        assert(n < pow2(113)) by (nonlinear_arith)
            requires
                n == nh * pow2(g) + nl,
                nh < pow2(53),
                nl < pow2(53),
                pow2(g) <= pow2(59),
                pow2(112) == pow2(53) * pow2(59),
                pow2(113) == 2 * pow2(112),
                pow2(53) < pow2(112),
        ;
        if kl < 17465 {
            lemma_pow2_strictly_increases(kl, 17465);
        }
        assert(u < pow2(32877)) by (nonlinear_arith)
            requires
                u == n * pow2(kl),
                n < pow2(113),
                pow2(kl) <= pow2(17465),
                pow2(113 + 17465) == pow2(113) * pow2(17465),
                pow2(113 + 17465) < pow2(32877),
        ;
        lemma_through_f128_exact(u, n, kl, 11, 52, quad_bias());
    } else {
        let w = nl * pow2(kl);
        let e = (kh - 3) as nat;
        let ee = pow2(e);
        let a = nh * pow2(kh);
        lemma_pow2_pos(e);
        lemma_pow2_adds(53, kl);
        if kl + 53 < e {
            lemma_pow2_strictly_increases(kl + 53, e);
        }
        assert(w < ee) by (nonlinear_arith)
            requires
                w == nl * pow2(kl),
                nl < pow2(53),
                pow2(53 + kl) == pow2(53) * pow2(kl),
                pow2(53 + kl) <= ee,
                pow2(kl) > 0,
        ;
        lemma_pow2_adds(3, e);
        lemma2_to64();
        let b = a + ee;
        assert(b == (8 * nh + 1) * ee && 8 * nh + 1 < pow2(113)) by (nonlinear_arith)
            requires
                b == a + ee,
                a == nh * pow2(kh),
                pow2(kh) == 8 * ee,
                nh < pow2(53),
                pow2(53) == 9007199254740992,
                pow2(56) == 72057594037927936,
                pow2(56) < pow2(113),
        ;
        if kh < 17465 {
            lemma_pow2_strictly_increases(kh, 17465);
        }
        assert(b < pow2(32877) && a < pow2(32877) && nh < pow2(113)) by (nonlinear_arith)
            requires
                b == (8 * nh + 1) * ee,
                b == a + ee,
                8 * nh + 1 < pow2(113),
                pow2(kh) == 8 * ee,
                pow2(kh) <= pow2(17465),
                pow2(113 + 17465) == pow2(113) * pow2(17465),
                pow2(113 + 17465) < pow2(32877),
                ee > 0,
                nh < pow2(53),
                pow2(53) < pow2(112),
                pow2(113) == 2 * pow2(112),
        ;
        lemma_through_f128_exact(a, nh, kh, 11, 52, quad_bias());
        lemma_through_f128_exact(b, (8 * nh + 1) as nat, e, 11, 52, quad_bias());
        lemma_pow2_strictly_increases(e, (kh - 1) as nat);
        lemma_rounds_down(a, nh, kh, 0, 52, quad_bias());
        lemma_rounds_down(b, nh, kh, ee, 52, quad_bias());
        lemma_pow2_pos(52);
        assert(a >= 1 && b >= 1) by (nonlinear_arith)
            requires
                a == nh * pow2(kh),
                nh >= pow2(52),
                pow2(52) >= 1,
                pow2(kh) >= 1,
                b == a + ee,
        ;
        lemma_through_f128_between(a, u, b, 11, 52, quad_bias());
    }
}

/// The difference `nh * 2^kh - nl * 2^kl` of two 64-bit numbers at least 60 binades
/// apart lies within an eighth of a step below the larger operand, and so does its
/// binary128 rounding.
proof fn lemma_e11m52_difference_far(nh: nat, kh: nat, nl: nat, kl: nat)
    requires
        nh < pow2(53),
        nl < pow2(53),
        15420 <= kl,
        kl + 60 <= kh <= 17465,
        kh > 15420 ==> nh >= pow2(52),
    ensures
        nh * pow2(kh) >= nl * pow2(kl),
        through_f128((nh * pow2(kh) - nl * pow2(kl)) as nat, 11, 52, quad_bias()) == encode_value((nh * pow2(kh) - nl * pow2(kl)) as nat, 11, 52, quad_bias()),
{
    lemma_wide_powers();
    let a = nh * pow2(kh);
    let w = nl * pow2(kl);
    let e = (kh - 3) as nat;
    let ee = pow2(e);
    lemma_pow2_pos(kl);
    lemma_pow2_pos(kh);
    lemma_pow2_pos(e);
    lemma_pow2_adds(53, kl);
    if kl + 53 < e {
        lemma_pow2_strictly_increases(kl + 53, e);
    }
    assert(w < ee) by (nonlinear_arith)
        requires
            w == nl * pow2(kl),
            nl < pow2(53),
            pow2(53 + kl) == pow2(53) * pow2(kl),
            pow2(53 + kl) <= ee,
            pow2(kl) > 0,
    ;
    lemma_rounds_up(nh, kh, e, 52, quad_bias());
    let l = (a - ee) as nat;
    let u = (a - w) as nat;
    lemma_pow2_adds(3, e);
    lemma2_to64();
    if kh < 17465 {
        lemma_pow2_strictly_increases(kh, 17465);
    }
    let n8 = (8 * nh - 1) as nat;
    assert(l == n8 * ee && n8 < pow2(113) && a < pow2(32877) && l <= u && u <= a && nh < pow2(113)) by (nonlinear_arith)
        requires
            l == a - ee,
            a > ee,
            a == nh * pow2(kh),
            pow2(kh) == 8 * ee,
            n8 == 8 * nh - 1,
            nh < pow2(53),
            pow2(53) == 9007199254740992,
            pow2(56) == 72057594037927936,
            pow2(56) < pow2(113),
            pow2(kh) <= pow2(17465),
            pow2(113 + 17465) == pow2(113) * pow2(17465),
            pow2(113 + 17465) < pow2(32877),
            u == a - w,
            w < ee,
    ;
    lemma_through_f128_exact(l, n8, e, 11, 52, quad_bias());
    lemma_through_f128_exact(a, nh, kh, 11, 52, quad_bias());
    assert(l >= 1);
    lemma_through_f128_between(l, u, a, 11, 52, quad_bias());
}

/// Uf64 addition, subtraction and multiplication give what the same operation in
/// binary128 on the widened operands, rounded back to Uf64, gives.
pub proof fn lemma_uf64_ops_as_f128(a: nat, b: nat)
    ensures
        sum_bits(a, b, 11, 52, 1023) == sum_f128_bits(a, b, 11, 52, quad_bias()),
        difference_bits(a, b, 11, 52, 1023) == difference_f128_bits(a, b, 11, 52, quad_bias()),
        product_bits_in(a, b, 11, 52, quad_bias(), 16494) == product_f128_bits(a, b, 11, 52, quad_bias()),
{
    if is_finite_bits(a, 11, 52) && is_finite_bits(b, 11, 52) {
        lemma_wide_powers();
        let (na, ka) = lemma_e11m52_parts(a);
        let (nb, kb) = lemma_e11m52_parts(b);
        let qb = quad_bias();
        let ua = units(a, 11, 52, 1023);
        let ub = units(b, 11, 52, 1023);
        let va = units(a, 11, 52, qb);
        let vb = units(b, 11, 52, qb);
        let p = pow2(15420);
        lemma_pow2_pos(15420);
        crate::model::lemma_units_rescaled(a, 11, 52, 1023, 15420);
        crate::model::lemma_units_rescaled(b, 11, 52, 1023, 15420);
        assert(va == ua * p && vb == ub * p);
        lemma_pow2_pos(ka);
        lemma_pow2_pos(kb);
        // Sum.
        crate::model::lemma_encode_rescaled(ua + ub, 11, 52, 1023, 15420);
        assert((ua + ub) * p == va + vb) by (nonlinear_arith)
            requires
                va == ua * p,
                vb == ub * p,
        ;
        if ka >= kb {
            lemma_e11m52_sum_parts(na, ka, nb, kb);
        } else {
            lemma_e11m52_sum_parts(nb, kb, na, ka);
        }
        // Difference.
        assert((ua >= ub) == (va >= vb)) by (nonlinear_arith)
            requires
                va == ua * p,
                vb == ub * p,
                p > 0,
        ;
        if ua >= ub {
            let u = (va - vb) as nat;
            crate::model::lemma_encode_rescaled((ua - ub) as nat, 11, 52, 1023, 15420);
            assert(((ua - ub) as nat) * p == u) by (nonlinear_arith)
                requires
                    va == ua * p,
                    vb == ub * p,
                    ua >= ub,
                    u == va - vb,
            ;
            if ka >= kb + 60 {
                lemma_e11m52_difference_far(na, ka, nb, kb);
            } else if ka >= kb {
                let g = (ka - kb) as nat;
                lemma_pow2_adds(g, kb);
                if g < 59 {
                    lemma_pow2_strictly_increases(g, 59);
                }
                let d = na * pow2(g) - nb;
                assert(u == d * pow2(kb)) by (nonlinear_arith)
                    requires
                        u == va - vb,
                        va == na * pow2(ka),
                        vb == nb * pow2(kb),
                        pow2(ka) == pow2(g) * pow2(kb),
                        d == na * pow2(g) - nb,
                ;
                assert(d >= 0) by (nonlinear_arith)
                    requires
                        u == d * pow2(kb),
                        u >= 0,
                        pow2(kb) > 0,
                ;
                assert(na * pow2(g) <= pow2(53) * pow2(59)) by (nonlinear_arith)
                    requires
                        na < pow2(53),
                        pow2(g) <= pow2(59),
                ;
                assert(d < pow2(113));
                if kb < 17465 {
                    lemma_pow2_strictly_increases(kb, 17465);
                }
                assert(u < pow2(32877)) by (nonlinear_arith)
                    requires
                        u == d * pow2(kb),
                        d < pow2(113),
                        pow2(kb) <= pow2(17465),
                        pow2(113 + 17465) == pow2(113) * pow2(17465),
                        pow2(113 + 17465) < pow2(32877),
                ;
                lemma_through_f128_exact(u, d as nat, kb, 11, 52, qb);
            } else {
                let g = (kb - ka) as nat;
                lemma_pow2_adds(g, ka);
                let d = na - nb * pow2(g);
                assert(d >= 0 && u == d * pow2(ka) && d < pow2(53)) by (nonlinear_arith)
                    requires
                        u == va - vb,
                        va >= vb,
                        va == na * pow2(ka),
                        vb == nb * pow2(kb),
                        pow2(kb) == pow2(g) * pow2(ka),
                        d == na - nb * pow2(g),
                        pow2(ka) > 0,
                        na < pow2(53),
                ;
                if ka < 17465 {
                    lemma_pow2_strictly_increases(ka, 17465);
                }
                assert(u < pow2(32877) && d < pow2(113)) by (nonlinear_arith)
                    requires
                        u == d * pow2(ka),
                        d < pow2(53),
                        pow2(53) < pow2(112),
                        pow2(113) == 2 * pow2(112),
                        pow2(ka) <= pow2(17465),
                        pow2(113 + 17465) == pow2(113) * pow2(17465),
                        pow2(113 + 17465) < pow2(32877),
                ;
                lemma_through_f128_exact(u, d as nat, ka, 11, 52, qb);
            }
        }
        // Product: at most 106 significant bits.
        let k = (ka + kb - 16494) as nat;
        let n = na * nb;
        lemma_pow2_adds(ka, kb);
        lemma_pow2_adds(k, 16494);
        lemma_pow2_pos(16494);
        lemma_pow2_pos(k);
        assert(va * vb == (n * pow2(k)) * pow2(16494)) by (nonlinear_arith)
            requires
                va == na * pow2(ka),
                vb == nb * pow2(kb),
                pow2(ka) * pow2(kb) == pow2(k) * pow2(16494),
                n == na * nb,
        ;
        vstd::arithmetic::div_mod::lemma_div_multiples_vanish((n * pow2(k)) as int, pow2(16494) as int);
        vstd::arithmetic::mul::lemma_mul_is_commutative((n * pow2(k)) as int, pow2(16494) as int);
        lemma_pow2_adds(106, k);
        lemma_pow2_strictly_increases(106 + k, 32877);
        assert(n < pow2(113) && n * pow2(k) < pow2(32877)) by (nonlinear_arith)
            requires
                na < pow2(53),
                nb < pow2(53),
                n == na * nb,
                pow2(106) == pow2(53) * pow2(53),
                pow2(106) < pow2(113),
                pow2(106 + k) == pow2(106) * pow2(k),
                pow2(106 + k) < pow2(32877),
                pow2(k) > 0,
        ;
        lemma_through_f128_exact(n * pow2(k), n, k, 11, 52, qb);
    }
}

/// The ratio `n / d` of two 64-bit significands (`na, nb < 2^53`) times powers of two
/// (binary128 steps) encodes the same with or without a rounding to binary128 first.
/// With `2^lam` the ratio's top bit, the two binary128 numbers `lo` and
/// `lo + 2^(lam-106)` around it hold no midpoint of the layout, so they encode alike,
/// and so does every value between them.
#[verifier::rlimit(60)]
proof fn lemma_ratio_through_f128(n: nat, d: nat, na: nat, g1: nat, nb: nat, kb: nat)
    requires
        1 <= na < pow2(53),
        1 <= nb < pow2(53),
        n == na * pow2(g1),
        d == nb * pow2(kb),
        kb + 14449 <= g1 <= kb + 18539,
    ensures
        ratio_through_f128(n, d, 11, 52, quad_bias()) == encode_ratio(n, d, 11, 52, quad_bias()),
{
    lemma2_to64();
    lemma2_to64_rest();
    let c = (g1 - kb) as nat;
    lemma_pow2_pos(kb);
    lemma_pow2_pos(c);
    lemma_pow2_adds(c, kb);
    let x = na * pow2(c);
    assert(n == x * pow2(kb)) by {
        lemma_mul_is_associative(na as int, pow2(c) as int, pow2(kb) as int);
    }
    crate::arith8::lemma_div_scaled(x, nb, pow2(kb));
    let r = n / d;
    assert(r == x / nb);
    assert(d > 0) by (nonlinear_arith)
        requires
            d == nb * pow2(kb),
            nb >= 1,
            pow2(kb) > 0,
    ;
    vstd::arithmetic::div_mod::lemma_fundamental_div_mod(x as int, nb as int);
    vstd::arithmetic::div_mod::lemma_mod_pos_bound(x as int, nb as int);
    lemma_pow2_adds((c - 53) as nat, 53);
    lemma_pow2_adds(c, 53);
    lemma_pow2_pos((c - 53) as nat);
    let p = pow2((c - 53) as nat);
    assert(x >= pow2(c) && x < pow2(c + 53)) by (nonlinear_arith)
        requires
            x == na * pow2(c),
            pow2(c + 53) == pow2(c) * pow2(53),
            1 <= na < pow2(53),
            pow2(c) > 0,
    ;
    assert(r <= x) by (nonlinear_arith)
        requires
            x == nb * r + x % nb,
            nb >= 1,
    ;
    assert(p <= r) by {
        if r < p {
            assert(x < nb * r + nb);
            assert(nb * r + nb <= nb * p) by (nonlinear_arith)
                requires
                    r + 1 <= p,
                    nb >= 1,
            ;
            assert(nb * p < pow2(53) * p) by (nonlinear_arith)
                requires
                    nb < pow2(53),
                    p > 0,
            ;
            assert(pow2(c) == p * pow2(53));
        }
    }
    lemma_log2_bounds(r);
    let lam = log2(r);
    assert(c - 53 <= lam <= c + 52) by {
        if lam < c - 53 {
            if lam + 1 < c - 53 {
                lemma_pow2_strictly_increases(lam + 1, (c - 53) as nat);
            }
        }
        if lam > c + 52 {
            if lam > c + 53 {
                lemma_pow2_strictly_increases(c + 53, lam);
            }
        }
    }
    let h = (lam - 106) as nat;
    let j = (h - 8) as nat;
    lemma_pow2_pos(h);
    lemma_pow2_pos(j);
    lemma_pow2_pos(j + 1);
    lemma_pow2_adds(j + 1, 7);
    assert(h == j + 1 + 7);
    assert(quantum(r, 112, 963) >= j + 2);
    assert(quantum(r, 52, quad_bias()) >= j + 2);
    vstd::arithmetic::div_mod::lemma_div_denominator(n as int, d as int, pow2(j + 1) as int);
    vstd::arithmetic::div_mod::lemma_div_denominator(n as int, d as int, pow2(h) as int);
    vstd::arithmetic::div_mod::lemma_div_denominator(r as int, pow2(j + 1) as int, pow2(7) as int);
    let cc = d * pow2(j + 1);
    let gg = d * pow2(h);
    let f = n / cc;
    let l0 = n / gg;
    assert(f == r / pow2(j + 1));
    assert(l0 == r / pow2(h));
    assert(l0 == f / pow2(7));
    // The whole quotients at the two steps.
    lemma_pow2_adds(h, 106);
    lemma_pow2_adds(h, 107);
    vstd::arithmetic::div_mod::lemma_fundamental_div_mod(r as int, pow2(h) as int);
    vstd::arithmetic::div_mod::lemma_mod_pos_bound(r as int, pow2(h) as int);
    assert(pow2(h + 106) == pow2(lam));
    assert(l0 >= pow2(106) && l0 < pow2(107)) by (nonlinear_arith)
        requires
            r == pow2(h) * l0 + r % pow2(h),
            r % pow2(h) < pow2(h),
            pow2(h + 106) <= r,
            r < pow2(h + 107),
            pow2(h + 106) == pow2(h) * pow2(106),
            pow2(h + 107) == pow2(h) * pow2(107),
            pow2(h) > 0,
    ;
    lemma_pow2_adds(j + 1, 113);
    vstd::arithmetic::div_mod::lemma_fundamental_div_mod(r as int, pow2(j + 1) as int);
    vstd::arithmetic::div_mod::lemma_mod_pos_bound(r as int, pow2(j + 1) as int);
    assert(f >= 1) by {
        if f == 0 {
            vstd::arithmetic::mul::lemma_mul_by_zero_is_zero(pow2(j + 1) as int);
            lemma_pow2_strictly_increases(j + 1, lam);
        }
    }
    crate::laws::lemma_ratio_is_sticky(n, d, j, 15, 112, 963);
    crate::laws::lemma_ratio_is_sticky(n, d, j, 11, 52, quad_bias());
    let z = crate::laws::sticky_value(n, d, j);
    let lo = l0 * pow2(h);
    let hi = lo + pow2(h);
    vstd::arithmetic::div_mod::lemma_fundamental_div_mod(f as int, pow2(7) as int);
    vstd::arithmetic::div_mod::lemma_mod_pos_bound(f as int, pow2(7) as int);
    let st: nat = if n % cc != 0 { 1 } else { 0 };
    assert(z == (2 * f + st) * pow2(j));
    lemma_pow2_unfold(j + 1);
    let phi = f % pow2(7);
    assert(z == lo + phi * pow2(j + 1) + st * pow2(j)) by (nonlinear_arith)
        requires
            z == (2 * f + st) * pow2(j),
            f == pow2(7) * l0 + phi,
            pow2(h) == pow2(j + 1) * pow2(7),
            pow2(j + 1) == 2 * pow2(j),
            lo == l0 * pow2(h),
    ;
    assert(phi * pow2(j + 1) + pow2(j + 1) <= pow2(h)) by (nonlinear_arith)
        requires
            phi < pow2(7),
            pow2(h) == pow2(j + 1) * pow2(7),
            pow2(j + 1) > 0,
    ;
    assert(st * pow2(j) <= pow2(j + 1)) by (nonlinear_arith)
        requires
            st <= 1,
            pow2(j + 1) == 2 * pow2(j),
            pow2(j) > 0,
    ;
    assert(phi * pow2(j + 1) >= 0 && st * pow2(j) >= 0);
    assert(lo <= z && z <= hi);
    // Both ends are binary64 numbers.
    lemma_pow2_adds(113, h);
    if h + 113 < 32877 {
        lemma_pow2_strictly_increases(h + 113, 32877);
    }
    lemma_pow2_strictly_increases(107, 113);
    assert(l0 + 1 < pow2(113) && hi == (l0 + 1) * pow2(h) && hi < pow2(32877)) by (nonlinear_arith)
        requires
            l0 < pow2(107),
            pow2(107) < pow2(113),
            lo == l0 * pow2(h),
            hi == lo + pow2(h),
            pow2(113 + h) == pow2(113) * pow2(h),
            pow2(113 + h) < pow2(32877),
            pow2(h) > 0,
    ;
    assert(lo < pow2(32877));
    lemma_through_f128_exact(lo, l0, h, 11, 52, quad_bias());
    lemma_through_f128_exact(hi, (l0 + 1) as nat, h, 11, 52, quad_bias());
    vstd::arithmetic::div_mod::lemma_fundamental_div_mod(n as int, gg as int);
    vstd::arithmetic::div_mod::lemma_mod_pos_bound(n as int, gg as int);
    assert(gg > 0) by (nonlinear_arith)
        requires
            gg == d * pow2(h),
            d > 0,
            pow2(h) > 0,
    ;
    assert(lo * d == gg * l0 && hi * d == gg * l0 + gg && pow2(h) * d == gg) by (nonlinear_arith)
        requires
            lo == l0 * pow2(h),
            hi == lo + pow2(h),
            gg == d * pow2(h),
    ;
    if n % gg == 0 {
        assert(n == (l0 * pow2(7)) * cc) by (nonlinear_arith)
            requires
                n == gg * l0 + n % gg,
                n % gg == 0,
                gg == d * pow2(h),
                cc == d * pow2(j + 1),
                pow2(h) == pow2(j + 1) * pow2(7),
        ;
        assert(cc > 0) by (nonlinear_arith)
            requires
                cc == d * pow2(j + 1),
                d > 0,
                pow2(j + 1) > 0,
        ;
        vstd::arithmetic::div_mod::lemma_mod_multiples_basic((l0 * pow2(7)) as int, cc as int);
        vstd::arithmetic::div_mod::lemma_div_multiples_vanish((l0 * pow2(7)) as int, cc as int);
        vstd::arithmetic::mul::lemma_mul_is_commutative((l0 * pow2(7)) as int, cc as int);
        assert(z == lo) by (nonlinear_arith)
            requires
                z == (2 * f + st) * pow2(j),
                st == 0,
                f == l0 * pow2(7),
                lo == l0 * pow2(h),
                pow2(h) == pow2(j + 1) * pow2(7),
                pow2(j + 1) == 2 * pow2(j),
        ;
    } else {
        let q = quantum(lo, 52, quad_bias());
        assert(lo >= pow2(lam)) by (nonlinear_arith)
            requires
                lo == l0 * pow2(h),
                l0 >= pow2(106),
                pow2(h + 106) == pow2(h) * pow2(106),
                pow2(h + 106) == pow2(lam),
        ;
        lemma_pow2_pos(lam);
        lemma_log2_bounds(lo);
        assert(log2(lo) >= lam) by {
            if log2(lo) < lam {
                if log2(lo) + 1 < lam {
                    lemma_pow2_strictly_increases(log2(lo) + 1, lam);
                }
            }
        }
        assert(q >= h + 54);
        crate::laws::lemma_not_midpoint(n, d, lo, na, g1, nb, kb, q, h, 53);
        crate::laws::lemma_not_midpoint(n, d, hi, na, g1, nb, kb, q, h, 53);
        vstd::arithmetic::div_mod::lemma_mod_multiples_basic(l0 as int, pow2(h) as int);
        crate::laws::lemma_same_rounding(lo, h, 11, 52, quad_bias());
        lemma_through_f128_between(lo, z, hi, 11, 52, quad_bias());
    }
}

/// Uf64 division gives what binary128 division of the widened operands, rounded back,
/// gives: a quotient of two of its numbers is never close enough to a midpoint of the
/// layout for the rounding to binary128 to move it across.
pub proof fn lemma_uf64_quotient_as_f128(a: nat, b: nat)
    ensures
        quotient_bits_in(a, b, 11, 52, quad_bias(), 16494) == quotient_f128_bits(a, b, 11, 52, quad_bias()),
{
    lemma2_to64();
    if is_finite_bits(a, 11, 52) && is_finite_bits(b, 11, 52) && units(b, 11, 52, quad_bias()) != 0 {
        let ua = units(a, 11, 52, quad_bias());
        let ub = units(b, 11, 52, quad_bias());
        if ua == 0 {
            lemma_f128_constants();
            lemma_fields(0, 0, 15, 112);
            assert(ua * pow2(16494) == 0);
        } else {
            let (na, ka) = lemma_e11m52_parts(a);
            let (nb, kb) = lemma_e11m52_parts(b);
            assert(na >= 1 && nb >= 1) by {
                if na == 0 {
                    vstd::arithmetic::mul::lemma_mul_by_zero_is_zero(pow2(ka) as int);
                }
                if nb == 0 {
                    vstd::arithmetic::mul::lemma_mul_by_zero_is_zero(pow2(kb) as int);
                }
            }
            lemma_pow2_adds(ka, 16494);
            assert(ua * pow2(16494) == na * pow2(ka + 16494)) by {
                lemma_mul_is_associative(na as int, pow2(ka) as int, pow2(16494) as int);
            }
            lemma_ratio_through_f128(ua * pow2(16494), ub, na, ka + 16494, nb, kb);
        }
    }
}

} // verus!
