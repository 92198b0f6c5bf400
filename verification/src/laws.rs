//! Properties of the encoding as a whole.
use vstd::prelude::*;
use vstd::arithmetic::power2::{pow2, lemma2_to64, lemma2_to64_rest, lemma_pow2_adds, lemma_pow2_pos, lemma_pow2_strictly_increases, lemma_pow2_unfold};
use vstd::arithmetic::mul::lemma_mul_is_associative;
use crate::model::{sign_bit, nan_bits, narrow_f64, encode_float, lemma_rne_between, log2, units, exp_field, man_field, max_exp, sub_shift, is_nan_bits, is_inf_bits, is_finite_bits, inf_bits, encode_value, round_bits, quantum, encodable, decodable, decode_f64, encode_f64, in_width, lemma_log2_bounds, lemma_log2_scaled, lemma_split, lemma_units_binade, lemma_encode_value_exact, lemma_encode_units_roundtrip, lemma_fields};
use crate::arith16::{through_f32, ratio_through_f32, sum_f32_bits, difference_f32_bits, product_f32_bits, quotient_f32_bits};
use crate::arith8::{sum_bits, difference_bits, product_bits, encode_ratio, quotient_bits, lemma_sticky_rounding, lemma_sticky_binade, lemma_div_scaled};

verus! {

/// A finite pattern's value splits as `n * 2^k` with `n < 2^(mb+1)` and `k >= s`.
pub(crate) proof fn lemma_value_parts(t: nat, eb: nat, mb: nat, bias: int) -> (nk: (nat, nat))
    requires
        bias + mb <= 1075,
        is_finite_bits(t, eb, mb),
    ensures
        units(t, eb, mb, bias) == nk.0 * pow2(nk.1),
        nk.0 < pow2(mb + 1),
        nk.1 >= sub_shift(mb, bias),
        nk.1 == (if exp_field(t, eb, mb) == 0 { sub_shift(mb, bias) } else { (exp_field(t, eb, mb) - 1 + sub_shift(mb, bias)) as nat }),
        exp_field(t, eb, mb) > 0 ==> nk.0 >= pow2(mb),
{
    let e = exp_field(t, eb, mb);
    let m = man_field(t, mb);
    let s = sub_shift(mb, bias);
    lemma_pow2_pos(mb);
    vstd::arithmetic::div_mod::lemma_mod_pos_bound(t as int, pow2(mb) as int);
    lemma_pow2_unfold(mb + 1);
    if e == 0 {
        (m, s)
    } else {
        ((pow2(mb) + m) as nat, (e - 1 + s) as nat)
    }
}

/// Every value of the layout `(eb, mb, bias)` is a value of the layout
/// `(teb, tmb, tbias)`: no fewer mantissa bits, a subnormal step no coarser, and a
/// largest binade no lower.
pub open spec fn fits_in(eb: nat, mb: nat, bias: int, teb: nat, tmb: nat, tbias: int) -> bool {
    &&& encodable(eb, mb, bias)
    &&& encodable(teb, tmb, tbias)
    &&& mb <= tmb
    &&& sub_shift(tmb, tbias) <= sub_shift(mb, bias)
    &&& pow2(eb) - bias <= pow2(teb) - tbias
}

/// A value `n * 2^k` with at most 24 significant bits, a step no finer than binary32's
/// and below binary32's overflow is a binary32 number: rounding it to binary32 first
/// does not change its encoding in a layout.
proof fn lemma_through_f32_exact(u: nat, n: nat, k: nat, eb: nat, mb: nat, bias: int)
    requires
        u == n * pow2(k),
        n < pow2(24),
        k >= 925,
        u < pow2(1201),
    ensures
        through_f32(u, eb, mb, bias) == encode_value(u, eb, mb, bias),
        encode_value(u, 8, 23, 127) < inf_bits(8, 23),
{
    lemma2_to64();
    lemma2_to64_rest();
    if u == 0 {
        lemma_fields(0, 0, 8, 23);
        lemma_pow2_pos(23);
    } else {
        assert(n >= 1) by (nonlinear_arith)
            requires
                u == n * pow2(k),
                u != 0,
        ;
        lemma_log2_scaled(n, k);
        lemma_log2_bounds(n);
        lemma_log2_bounds(u);
        if log2(n) >= 24 {
            if log2(n) > 24 {
                lemma_pow2_strictly_increases(24, log2(n));
            }
        }
        if log2(u) >= 1201 {
            if log2(u) > 1201 {
                lemma_pow2_strictly_increases(1201, log2(u));
            }
        }
        let q = quantum(u, 23, 127);
        assert(sub_shift(23, 127) == 925);
        assert(q <= k);
        let m = n * pow2((k - q) as nat);
        lemma_pow2_adds((k - q) as nat, q);
        lemma_mul_is_associative(n as int, pow2((k - q) as nat) as int, pow2(q) as int);
        assert(u == m * pow2(q));
        lemma_pow2_pos(q);
        vstd::arithmetic::div_mod::lemma_mod_multiples_basic(m as int, pow2(q) as int);
        crate::model::lemma_rne_exact(m, q);
        assert(m < pow2(24)) by {
            if log2(u) >= 948 {
                lemma_pow2_adds(q, 24);
            } else {
                lemma_pow2_adds(q, 23);
                if log2(u) + 1 < 948 {
                    lemma_pow2_strictly_increases(log2(u) + 1, 948);
                }
            }
            assert(m * pow2(q) < pow2(q) * pow2(24)) by {
                if log2(u) < 948 {
                    lemma_pow2_strictly_increases(23, 24);
                    vstd::arithmetic::mul::lemma_mul_strict_inequality(pow2(23) as int, pow2(24) as int, pow2(q) as int);
                    vstd::arithmetic::mul::lemma_mul_is_commutative(pow2(q) as int, pow2(23) as int);
                    vstd::arithmetic::mul::lemma_mul_is_commutative(pow2(q) as int, pow2(24) as int);
                }
            }
            vstd::arithmetic::mul::lemma_mul_is_commutative(m as int, pow2(q) as int);
            vstd::arithmetic::mul::lemma_mul_strict_inequality_converse(m as int, pow2(24) as int, pow2(q) as int);
            vstd::arithmetic::mul::lemma_mul_is_commutative(pow2(24) as int, pow2(q) as int);
        }
        assert(q - 925 <= 252);
        assert(round_bits(u, 23, 127) < inf_bits(8, 23)) by (nonlinear_arith)
            requires
                round_bits(u, 23, 127) == (q - 925) * pow2(23) + m,
                q - 925 <= 252,
                m < pow2(24),
                pow2(24) == 2 * pow2(23),
                inf_bits(8, 23) == 255 * pow2(23),
                pow2(23) > 0,
        ;
        lemma_f32_number(u, eb, mb, bias);
    }
}

/// A positive binary32 number, given by its value `v`, is its own rounding to binary32,
/// and encoding that binary32 pattern in a layout encodes `v`.
proof fn lemma_f32_number(v: nat, eb: nat, mb: nat, bias: int)
    requires
        v >= 1,
        v % pow2(quantum(v, 23, 127)) == 0,
        round_bits(v, 23, 127) < inf_bits(8, 23),
    ensures
        encode_value(v, 8, 23, 127) == round_bits(v, 23, 127),
        encode_float(round_bits(v, 23, 127), 8, 23, 127, eb, mb, bias) == encode_value(v, eb, mb, bias),
{
    lemma2_to64();
    lemma2_to64_rest();
    lemma_encode_value_exact(v, 8, 23, 127);
    let t = round_bits(v, 23, 127);
    lemma_units_binade(t, 8, 23, 127);
    assert(t / pow2(31) == 0) by {
        vstd::arithmetic::div_mod::lemma_basic_div(t as int, pow2(31) as int);
    }
}

/// A value within less than half a step above a normal E5M3 number `n * 2^k` rounds
/// to that number: its step is `2^k` and its rounded significand is `n`.
proof fn lemma_e5m3_rounds_down(u: nat, n: nat, k: nat, w: nat)
    requires
        u == n * pow2(k) + w,
        8 <= n < 16,
        k >= 1057,
        w < pow2((k - 1) as nat),
    ensures
        log2(u) == k + 3,
        quantum(u, 3, 15) == k,
        crate::model::rne(u, k) == n,
        round_bits(u, 3, 15) == (k - 1057) * 8 + n,
{
    lemma2_to64();
    lemma_pow2_unfold(k);
    lemma_pow2_adds(3, k);
    lemma_pow2_adds(4, k);
    lemma_pow2_pos(k);
    assert(pow2(k + 3) <= u < pow2(k + 3 + 1)) by (nonlinear_arith)
        requires
            u == n * pow2(k) + w,
            8 <= n < 16,
            w < pow2(k),
            pow2(3 + k) == 8 * pow2(k),
            pow2(4 + k) == 16 * pow2(k),
    ;
    crate::model::lemma_log2_unique(u, k + 3);
    assert(sub_shift(3, 15) == 1057);
    vstd::arithmetic::div_mod::lemma_fundamental_div_mod_converse(u as int, pow2(k) as int, n as int, w as int);
}

/// The value of a finite Uf8 (E4M4 or E5M3) pattern as `n * 2^k`, `n` of at most
/// five bits and `k` within the layout's steps.
proof fn lemma_byte_value_parts(t: nat, eb: nat, mb: nat, bias: int) -> (nk: (nat, nat))
    requires
        (eb == 4 && mb == 4 && bias == 7) || (eb == 5 && mb == 3 && bias == 15),
        is_finite_bits(t, eb, mb),
    ensures
        units(t, eb, mb, bias) == nk.0 * pow2(nk.1),
        nk.0 < pow2(mb + 1),
        nk.0 < 32,
        sub_shift(mb, bias) <= nk.1,
        nk.1 + 2 <= sub_shift(mb, bias) + max_exp(eb),
        nk.1 > sub_shift(mb, bias) ==> nk.0 >= pow2(mb),
{
    lemma2_to64();
    let nk = lemma_value_parts(t, eb, mb, bias);
    lemma_pow2_pos(mb);
    vstd::arithmetic::div_mod::lemma_mod_pos_bound((t / pow2(mb)) as int, pow2(eb) as int);
    nk
}

/// Uf8 (E4M4) addition, subtraction and multiplication give what the same operation
/// in binary32 on the widened operands, rounded back to Uf8, gives: every exact sum,
/// difference and product of two Uf8 numbers is a binary32 number, so rounding to
/// binary32 first changes nothing.
pub proof fn lemma_uf8_ops_as_f32(a: nat, b: nat)
    ensures
        sum_bits(a, b, 4, 4, 7) == sum_f32_bits(a, b, 4, 4, 7),
        difference_bits(a, b, 4, 4, 7) == difference_f32_bits(a, b, 4, 4, 7),
        product_bits(a, b, 4, 4, 7) == product_f32_bits(a, b, 4, 4, 7),
{
    if is_finite_bits(a, 4, 4) && is_finite_bits(b, 4, 4) {
        lemma2_to64();
        let (na, ka) = lemma_byte_value_parts(a, 4, 4, 7);
        let (nb, kb) = lemma_byte_value_parts(b, 4, 4, 7);
        assert(sub_shift(4, 7) == 1064);
        assert(max_exp(4) == 15);
        let pa = pow2((ka - 1064) as nat);
        let pb = pow2((kb - 1064) as nat);
        let p = pow2(1064);
        if ka - 1064 < 13 {
            lemma_pow2_strictly_increases((ka - 1064) as nat, 13);
        }
        if kb - 1064 < 13 {
            lemma_pow2_strictly_increases((kb - 1064) as nat, 13);
        }
        lemma_pow2_adds((ka - 1064) as nat, 1064);
        lemma_pow2_adds((kb - 1064) as nat, 1064);
        lemma_pow2_pos(1064);
        let ua = units(a, 4, 4, 7);
        let ub = units(b, 4, 4, 7);
        assert(ua == (na * pa) * p && ub == (nb * pb) * p) by {
            lemma_mul_is_associative(na as int, pa as int, p as int);
            lemma_mul_is_associative(nb as int, pb as int, p as int);
        }
        lemma_pow2_adds(24, 1064);
        lemma_pow2_strictly_increases(1088, 1201);
        let n = na * pa + nb * pb;
        assert(na * pa <= 31 * 8192 && nb * pb <= 31 * 8192) by (nonlinear_arith)
            requires
                na < 32,
                nb < 32,
                pa <= 8192,
                pb <= 8192,
        ;
        assert(ua + ub == n * p) by (nonlinear_arith)
            requires
                ua == (na * pa) * p,
                ub == (nb * pb) * p,
                n == na * pa + nb * pb,
        ;
        assert(n < pow2(24));
        assert(n * p < pow2(24) * p) by (nonlinear_arith)
            requires
                n < pow2(24),
                p > 0,
        ;
        lemma_through_f32_exact(ua + ub, n, 1064, 4, 4, 7);
        if ua >= ub {
            let d = (na * pa - nb * pb) as int;
            assert(d >= 0 && d < pow2(24) && ua - ub == d * p && d * p < pow2(24) * p) by (nonlinear_arith)
                requires
                    d == na * pa - nb * pb,
                    ua >= ub,
                    na < 32,
                    pa <= 8192,
                    pow2(24) == 16777216,
                    ua == (na * pa) * p,
                    ub == (nb * pb) * p,
                    p > 0,
            ;
            lemma_through_f32_exact((ua - ub) as nat, d as nat, 1064, 4, 4, 7);
        }
        lemma_product_as_f32(a, b, 4, 4, 7);
    } else {
        lemma_product_as_f32(a, b, 4, 4, 7);
    }
}

/// Uf8E5M3 multiplication gives what binary32 multiplication of the widened operands,
/// rounded back, gives: every exact product of two of its numbers is a binary32 number.
pub proof fn lemma_uf8_e5m3_product_as_f32(a: nat, b: nat)
    ensures
        product_bits(a, b, 5, 3, 15) == product_f32_bits(a, b, 5, 3, 15),
{
    lemma_product_as_f32(a, b, 5, 3, 15);
}

/// The product of two numbers of an 8-bit layout is a binary32 number.
proof fn lemma_product_as_f32(a: nat, b: nat, eb: nat, mb: nat, bias: int)
    requires
        (eb == 4 && mb == 4 && bias == 7) || (eb == 5 && mb == 3 && bias == 15),
    ensures
        product_bits(a, b, eb, mb, bias) == product_f32_bits(a, b, eb, mb, bias),
{
    if is_finite_bits(a, eb, mb) && is_finite_bits(b, eb, mb) {
        lemma2_to64();
        let (na, ka) = lemma_byte_value_parts(a, eb, mb, bias);
        let (nb, kb) = lemma_byte_value_parts(b, eb, mb, bias);
        assert(sub_shift(mb, bias) >= 1057);
        assert(max_exp(eb) <= 31);
        let k = (ka + kb - 1074) as nat;
        let n = na * nb;
        lemma_pow2_adds(ka, kb);
        lemma_pow2_adds(k, 1074);
        lemma_pow2_pos(1074);
        let ua = units(a, eb, mb, bias);
        let ub = units(b, eb, mb, bias);
        assert(ua * ub == (n * pow2(k)) * pow2(1074)) by (nonlinear_arith)
            requires
                ua == na * pow2(ka),
                ub == nb * pow2(kb),
                pow2(ka) * pow2(kb) == pow2(k) * pow2(1074),
                n == na * nb,
        ;
        vstd::arithmetic::div_mod::lemma_div_multiples_vanish((n * pow2(k)) as int, pow2(1074) as int);
        vstd::arithmetic::mul::lemma_mul_is_commutative((n * pow2(k)) as int, pow2(1074) as int);
        assert(ua * ub / pow2(1074) == n * pow2(k));
        lemma_pow2_pos(k);
        lemma_pow2_adds(10, k);
        if k < 1191 {
            lemma_pow2_strictly_increases(10 + k, 1201);
        }
        assert(n < pow2(24) && n * pow2(k) < pow2(10) * pow2(k)) by (nonlinear_arith)
            requires
                na < 32,
                nb < 32,
                n == na * nb,
                pow2(24) == 16777216,
                pow2(10) == 1024,
                pow2(k) > 0,
        ;
        lemma_pow2_pos(k);
        lemma_through_f32_exact(n * pow2(k), n, k, eb, mb, bias);
    }
}

/// E5M3 addition gives what binary32 addition of the widened operands, rounded back,
/// gives. A sum that binary32 cannot hold has operands so far apart that the smaller
/// one is below `2^-16` of the larger one's step; both roundings then give the larger
/// operand.
pub proof fn lemma_uf8_e5m3_sum_as_f32(a: nat, b: nat)
    ensures
        sum_bits(a, b, 5, 3, 15) == sum_f32_bits(a, b, 5, 3, 15),
{
    if is_finite_bits(a, 5, 3) && is_finite_bits(b, 5, 3) {
        lemma2_to64();
        let (na, ka) = lemma_byte_value_parts(a, 5, 3, 15);
        let (nb, kb) = lemma_byte_value_parts(b, 5, 3, 15);
        assert(sub_shift(3, 15) == 1057);
        assert(max_exp(5) == 31);
        if ka >= kb {
            lemma_e5m3_sum_parts(na, ka, nb, kb);
        } else {
            lemma_e5m3_sum_parts(nb, kb, na, ka);
        }
    }
}

/// The sum `nh * 2^kh + nl * 2^kl` of two E5M3 numbers, `kl <= kh`, encodes the same
/// with or without a rounding to binary32 first.
proof fn lemma_e5m3_sum_parts(nh: nat, kh: nat, nl: nat, kl: nat)
    requires
        nh < 16,
        nl < 16,
        1057 <= kl <= kh <= 1086,
        kh > 1057 ==> nh >= 8,
    ensures
        through_f32(nh * pow2(kh) + nl * pow2(kl), 5, 3, 15) == encode_value(nh * pow2(kh) + nl * pow2(kl), 5, 3, 15),
{
    lemma2_to64();
    let u = nh * pow2(kh) + nl * pow2(kl);
    let g = (kh - kl) as nat;
    lemma_pow2_adds(g, kl);
    lemma_pow2_pos(kl);
    lemma_pow2_pos(kh);
    if g <= 19 {
        if g < 19 {
            lemma_pow2_strictly_increases(g, 19);
        }
        let n = nh * pow2(g) + nl;
        assert(u == n * pow2(kl) && n < pow2(24)) by (nonlinear_arith)
            requires
                u == nh * pow2(kh) + nl * pow2(kl),
                pow2(kh) == pow2(g) * pow2(kl),
                n == nh * pow2(g) + nl,
                nh < 16,
                nl < 16,
                pow2(g) <= 524288,
                pow2(24) == 16777216,
        ;
        lemma_pow2_adds(24, kl);
        lemma_pow2_strictly_increases(24 + kl, 1201);
        assert(u < pow2(1201)) by (nonlinear_arith)
            requires
                u == n * pow2(kl),
                n < pow2(24),
                pow2(24 + kl) == pow2(24) * pow2(kl),
                pow2(24 + kl) < pow2(1201),
                pow2(kl) > 0,
        ;
        lemma_through_f32_exact(u, n, kl, 5, 3, 15);
    } else {
        let w = nl * pow2(kl);
        let q1 = (kh - 20) as nat;
        let p = pow2(q1);
        lemma_pow2_pos(q1);
        lemma_pow2_adds(4, kl);
        lemma_pow2_adds(20, q1);
        lemma_pow2_adds(4, q1);
        if kl + 4 < q1 + 4 {
            lemma_pow2_strictly_increases(kl + 4, q1 + 4);
        }
        lemma_pow2_strictly_increases(q1 + 4, (kh - 1) as nat);
        assert(w < 16 * p) by (nonlinear_arith)
            requires
                w == nl * pow2(kl),
                nl < 16,
                pow2(4 + kl) == 16 * pow2(kl),
                pow2(4 + kl) <= pow2(4 + q1),
                pow2(4 + q1) == 16 * p,
                pow2(kl) > 0,
        ;
        assert(16 * p < pow2((kh - 1) as nat));
        lemma_e5m3_rounds_down(u, nh, kh, w);
        assert(quantum(u, 23, 127) == q1);
        // Binary32 keeps the larger operand's significand and at most sixteen of its
        // own steps of the smaller operand.
        let hi = nh * pow2(20);
        assert(u == hi * p + w) by {
            lemma_mul_is_associative(nh as int, pow2(20) as int, p as int);
        }
        vstd::arithmetic::div_mod::lemma_fundamental_div_mod(w as int, p as int);
        vstd::arithmetic::div_mod::lemma_mod_pos_bound(w as int, p as int);
        assert(w / p < 16) by (nonlinear_arith)
            requires
                w == p * (w / p) + w % p,
                w < 16 * p,
                p > 0,
        ;
        assert(u == (hi + w / p) * p + w % p) by (nonlinear_arith)
            requires
                u == hi * p + w,
                w == p * (w / p) + w % p,
        ;
        vstd::arithmetic::div_mod::lemma_fundamental_div_mod_converse(u as int, p as int, (hi + w / p) as int, (w % p) as int);
        lemma_rne_between(u, q1);
        let r1 = crate::model::rne(u, q1);
        let j = (r1 - hi) as nat;
        assert(j <= 16);
        let v = r1 * p;
        assert(v == nh * pow2(kh) + j * p && j * p <= 16 * p) by (nonlinear_arith)
            requires
                v == r1 * p,
                r1 == hi + j,
                hi == nh * pow2(20),
                pow2(kh) == pow2(20) * p,
                j <= 16,
                p > 0,
        ;
        lemma_e5m3_rounds_down(v, nh, kh, j * p);
        assert(quantum(v, 23, 127) == q1);
        vstd::arithmetic::div_mod::lemma_mod_multiples_basic(r1 as int, p as int);
        crate::model::lemma_rne_exact(r1, q1);
        assert(round_bits(v, 23, 127) == round_bits(u, 23, 127));
        assert(r1 < 2 * pow2(23)) by (nonlinear_arith)
            requires
                r1 == nh * pow2(20) + j,
                nh < 16,
                j <= 16,
                pow2(20) == 1048576,
                pow2(23) == 8388608,
        ;
        assert(round_bits(u, 23, 127) < inf_bits(8, 23)) by (nonlinear_arith)
            requires
                round_bits(u, 23, 127) == (q1 - 925) * pow2(23) + r1,
                q1 - 925 <= 141,
                r1 < 2 * pow2(23),
                inf_bits(8, 23) == 255 * pow2(23),
                pow2(23) > 0,
        ;
        lemma_f32_number(v, 5, 3, 15);
    }
}

/// A finite non-negative binary32 pattern encodes as its value does.
proof fn lemma_f32_pattern_encoding(t: nat, eb: nat, mb: nat, bias: int)
    requires
        t < inf_bits(8, 23),
    ensures
        in_width(t, 8, 23),
        is_finite_bits(t, 8, 23),
        encode_float(t, 8, 23, 127, eb, mb, bias) == encode_value(units(t, 8, 23, 127), eb, mb, bias),
{
    lemma2_to64();
    lemma2_to64_rest();
    lemma_pow2_adds(8, 23);
    lemma_pow2_pos(23);
    assert(in_width(t, 8, 23)) by (nonlinear_arith)
        requires
            t < inf_bits(8, 23),
            inf_bits(8, 23) == 255 * pow2(23),
            pow2(8 + 23) == 256 * pow2(23),
    ;
    lemma_split(t, 8, 23);
    assert(exp_field(t, 8, 23) < 255) by (nonlinear_arith)
        requires
            t == exp_field(t, 8, 23) * pow2(23) + man_field(t, 23),
            t < 255 * pow2(23),
            pow2(23) > 0,
    ;
    lemma_units_binade(t, 8, 23, 127);
    vstd::arithmetic::div_mod::lemma_basic_div(t as int, pow2(31) as int);
}

/// Rounding through binary32 keeps a value between two values that both encode, with
/// or without that rounding, to the same pattern.
proof fn lemma_through_f32_between(x: nat, y: nat, z: nat, eb: nat, mb: nat, bias: int)
    requires
        crate::model::scaled_layout(eb, mb, bias),
        x <= y <= z,
        encode_value(z, 8, 23, 127) < inf_bits(8, 23),
        through_f32(x, eb, mb, bias) == encode_value(x, eb, mb, bias),
        through_f32(z, eb, mb, bias) == encode_value(z, eb, mb, bias),
        encode_value(x, eb, mb, bias) == encode_value(z, eb, mb, bias),
    ensures
        through_f32(y, eb, mb, bias) == encode_value(y, eb, mb, bias),
{
    lemma2_to64();
    lemma2_to64_rest();
    let tx = encode_value(x, 8, 23, 127);
    let ty = encode_value(y, 8, 23, 127);
    let tz = encode_value(z, 8, 23, 127);
    crate::model::lemma_encode_value_monotone(x, y, 8, 23, 127);
    crate::model::lemma_encode_value_monotone(y, z, 8, 23, 127);
    crate::model::lemma_encode_value_monotone(x, y, eb, mb, bias);
    crate::model::lemma_encode_value_monotone(y, z, eb, mb, bias);
    lemma_f32_pattern_encoding(tx, eb, mb, bias);
    lemma_f32_pattern_encoding(ty, eb, mb, bias);
    lemma_f32_pattern_encoding(tz, eb, mb, bias);
    if tx < ty {
        crate::model::lemma_units_strictly_increasing(tx, ty, 8, 23, 127);
    }
    if ty < tz {
        crate::model::lemma_units_strictly_increasing(ty, tz, 8, 23, 127);
    }
    crate::model::lemma_encode_value_monotone(units(tx, 8, 23, 127), units(ty, 8, 23, 127), eb, mb, bias);
    crate::model::lemma_encode_value_monotone(units(ty, 8, 23, 127), units(tz, 8, 23, 127), eb, mb, bias);
}

/// A normal E5M3 number `n * 2^k` less `2^(k-16)` still rounds to that number.
proof fn lemma_e5m3_rounds_up(n: nat, k: nat)
    requires
        8 <= n < 16,
        1077 <= k,
    ensures
        n * pow2(k) - pow2((k - 16) as nat) >= 1,
        encode_value((n * pow2(k) - pow2((k - 16) as nat)) as nat, 5, 3, 15) == encode_value(n * pow2(k), 5, 3, 15),
{
    lemma2_to64();
    let a = n * pow2(k);
    let e = pow2((k - 16) as nat);
    let l = (a - e) as nat;
    lemma_pow2_pos((k - 16) as nat);
    lemma_pow2_pos(k);
    lemma_pow2_pos((k - 1) as nat);
    lemma_e5m3_rounds_down(a, n, k, 0);
    lemma_pow2_strictly_increases((k - 16) as nat, (k - 2) as nat);
    lemma_pow2_unfold((k - 1) as nat);
    lemma_pow2_unfold(k);
    assert(sub_shift(3, 15) == 1057);
    assert(a >= 8 * pow2(k)) by (nonlinear_arith)
        requires
            a == n * pow2(k),
            n >= 8,
    ;
    if n >= 9 {
        let r = (pow2(k) - e) as nat;
        assert(l == (n - 1) * pow2(k) + r) by (nonlinear_arith)
            requires
                l == n * pow2(k) - e,
                r == pow2(k) - e,
                n >= 9,
                e < pow2(k),
        ;
        lemma_pow2_adds(3, k);
        lemma_pow2_adds(4, k);
        assert(pow2(k + 3) <= l < pow2(k + 3 + 1)) by (nonlinear_arith)
            requires
                l == (n - 1) * pow2(k) + r,
                8 <= n - 1 < 15,
                r < pow2(k),
                pow2(3 + k) == 8 * pow2(k),
                pow2(4 + k) == 16 * pow2(k),
        ;
        crate::model::lemma_log2_unique(l, k + 3);
        vstd::arithmetic::div_mod::lemma_fundamental_div_mod_converse(l as int, pow2(k) as int, (n - 1) as int, r as int);
        assert(quantum(l, 3, 15) == k);
        assert(round_bits(l, 3, 15) == (k - 1057) * 8 + n);
    } else {
        let h = pow2((k - 1) as nat);
        let r = (h - e) as nat;
        assert(l == 15 * h + r) by (nonlinear_arith)
            requires
                l == 8 * pow2(k) - e,
                pow2(k) == 2 * h,
                r == h - e,
                e < h,
        ;
        lemma_pow2_adds(3, (k - 1) as nat);
        lemma_pow2_adds(4, (k - 1) as nat);
        assert(pow2((k - 1 + 3) as nat) <= l < pow2((k - 1 + 3 + 1) as nat)) by (nonlinear_arith)
            requires
                l == 15 * h + r,
                r < h,
                pow2((3 + (k - 1)) as nat) == 8 * h,
                pow2((4 + (k - 1)) as nat) == 16 * h,
        ;
        crate::model::lemma_log2_unique(l, (k - 1 + 3) as nat);
        vstd::arithmetic::div_mod::lemma_fundamental_div_mod_converse(l as int, h as int, 15, r as int);
        assert(quantum(l, 3, 15) == k - 1);
        assert(crate::model::rne(l, (k - 1) as nat) == 16);
        assert(round_bits(l, 3, 15) == (k - 1057) * 8 + 8);
    }
}

/// E5M3 subtraction gives what binary32 subtraction of the widened operands, rounded
/// back, gives. A difference that binary32 cannot hold lies less than `2^(k-16)` below
/// the larger operand `n * 2^k`, a range that rounds to that operand either way.
pub proof fn lemma_uf8_e5m3_difference_as_f32(a: nat, b: nat)
    ensures
        difference_bits(a, b, 5, 3, 15) == difference_f32_bits(a, b, 5, 3, 15),
{
    if is_finite_bits(a, 5, 3) && is_finite_bits(b, 5, 3) && units(a, 5, 3, 15) >= units(b, 5, 3, 15) {
        lemma2_to64();
        let (na, ka) = lemma_byte_value_parts(a, 5, 3, 15);
        let (nb, kb) = lemma_byte_value_parts(b, 5, 3, 15);
        assert(sub_shift(3, 15) == 1057);
        assert(max_exp(5) == 31);
        let ua = units(a, 5, 3, 15);
        let ub = units(b, 5, 3, 15);
        let u = (ua - ub) as nat;
        lemma_pow2_pos(ka);
        lemma_pow2_pos(kb);
        if ka >= kb + 20 {
            lemma_e5m3_difference_far(na, ka, nb, kb);
        } else if ka >= kb {
            let g = (ka - kb) as nat;
            lemma_pow2_adds(g, kb);
            if g < 19 {
                lemma_pow2_strictly_increases(g, 19);
            }
            let d = na * pow2(g) - nb;
            assert(d >= 0 && u == d * pow2(kb) && d < pow2(24)) by (nonlinear_arith)
                requires
                    u == ua - ub,
                    ua >= ub,
                    ua == na * pow2(ka),
                    ub == nb * pow2(kb),
                    pow2(ka) == pow2(g) * pow2(kb),
                    d == na * pow2(g) - nb,
                    pow2(kb) > 0,
                    na < 32,
                    pow2(g) <= 524288,
                    pow2(24) == 16777216,
            ;
            lemma_pow2_adds(24, kb);
            lemma_pow2_strictly_increases(24 + kb, 1201);
            assert(u < pow2(1201)) by (nonlinear_arith)
                requires
                    u == d * pow2(kb),
                    d < pow2(24),
                    pow2(24 + kb) == pow2(24) * pow2(kb),
                    pow2(24 + kb) < pow2(1201),
                    pow2(kb) > 0,
            ;
            lemma_through_f32_exact(u, d as nat, kb, 5, 3, 15);
        } else {
            let g = (kb - ka) as nat;
            lemma_pow2_adds(g, ka);
            let d = na - nb * pow2(g);
            assert(d >= 0 && u == d * pow2(ka) && d < 32) by (nonlinear_arith)
                requires
                    u == ua - ub,
                    ua >= ub,
                    ua == na * pow2(ka),
                    ub == nb * pow2(kb),
                    pow2(kb) == pow2(g) * pow2(ka),
                    d == na - nb * pow2(g),
                    pow2(ka) > 0,
                    na < 32,
            ;
            lemma_pow2_adds(24, ka);
            lemma_pow2_strictly_increases(24 + ka, 1201);
            assert(u < pow2(1201)) by (nonlinear_arith)
                requires
                    u == d * pow2(ka),
                    d < 32,
                    pow2(24) == 16777216,
                    pow2(24 + ka) == pow2(24) * pow2(ka),
                    pow2(24 + ka) < pow2(1201),
                    pow2(ka) > 0,
            ;
            lemma_through_f32_exact(u, d as nat, ka, 5, 3, 15);
        }
    }
}

/// The difference `nh * 2^kh - nl * 2^kl` of two E5M3 numbers at least twenty
/// binades apart encodes the same with or without a rounding to binary32 first.
proof fn lemma_e5m3_difference_far(nh: nat, kh: nat, nl: nat, kl: nat)
    requires
        nh < 16,
        nl < 16,
        1057 <= kl,
        kl + 20 <= kh <= 1086,
        kh > 1057 ==> nh >= 8,
    ensures
        nh * pow2(kh) >= nl * pow2(kl),
        through_f32((nh * pow2(kh) - nl * pow2(kl)) as nat, 5, 3, 15) == encode_value((nh * pow2(kh) - nl * pow2(kl)) as nat, 5, 3, 15),
{
    lemma2_to64();
    let a = nh * pow2(kh);
    let w = nl * pow2(kl);
    let e = pow2((kh - 16) as nat);
    lemma_pow2_pos(kl);
    lemma_pow2_pos((kh - 16) as nat);
    lemma_pow2_adds(4, kl);
    if kl + 4 < kh - 16 {
        lemma_pow2_strictly_increases(kl + 4, (kh - 16) as nat);
    }
    assert(w <= e) by (nonlinear_arith)
        requires
            w == nl * pow2(kl),
            nl < 16,
            pow2(4 + kl) == 16 * pow2(kl),
            pow2(4 + kl) <= e,
            pow2(kl) > 0,
    ;
    lemma_e5m3_rounds_up(nh, kh);
    let l = (a - e) as nat;
    let u = (a - w) as nat;
    // Both ends are binary32 numbers.
    lemma_pow2_adds(16, (kh - 16) as nat);
    let nl16 = (nh * 65536 - 1) as nat;
    assert(l == nl16 * e && nl16 < pow2(24)) by (nonlinear_arith)
        requires
            l == nh * pow2(kh) - e,
            pow2(kh) == 65536 * e,
            nl16 == nh * 65536 - 1,
            8 <= nh < 16,
            pow2(24) == 16777216,
    ;
    lemma_pow2_adds(24, kh);
    lemma_pow2_strictly_increases(24 + kh, 1201);
    assert(a < pow2(1201) && l <= a && nh < pow2(24)) by (nonlinear_arith)
        requires
            a == nh * pow2(kh),
            nh < 16,
            l == a - e,
            e > 0,
            pow2(24) == 16777216,
            pow2(24 + kh) == pow2(24) * pow2(kh),
            pow2(24 + kh) < pow2(1201),
    ;
    lemma_through_f32_exact(l, nl16, (kh - 16) as nat, 5, 3, 15);
    lemma_through_f32_exact(a, nh, kh, 5, 3, 15);
    lemma_through_f32_between(l, u, a, 5, 3, 15);
}

/// The sticky stand-in for the ratio `n / d` at the step `2^j`: twice the quotient by
/// `d * 2^(j+1)`, plus one when that division leaves a remainder, in steps of `2^j`.
pub open spec fn sticky_value(n: nat, d: nat, j: nat) -> nat {
    let c = d * pow2(j + 1);
    (2 * (n / c) + (if n % c != 0 { 1nat } else { 0nat })) * pow2(j)
}

/// A ratio encodes as its sticky stand-in at any step at least four times finer than
/// the ratio's own.
pub(crate) proof fn lemma_ratio_is_sticky(n: nat, d: nat, j: nat, eb: nat, mb: nat, bias: int)
    requires
        d > 0,
        n / (d * pow2(j + 1)) >= 1,
        j + 2 <= quantum(n / d, mb, bias),
    ensures
        sticky_value(n, d, j) >= 1,
        log2(sticky_value(n, d, j)) == log2(n / d),
        encode_ratio(n, d, eb, mb, bias) == encode_value(sticky_value(n, d, j), eb, mb, bias),
{
    let c = d * pow2(j + 1);
    lemma_pow2_pos(j);
    lemma_pow2_pos(j + 1);
    lemma_sticky_binade(n, d, j);
    let q = quantum(n / d, mb, bias);
    lemma_sticky_rounding(n, d, j, q);
    let big = 2 * (n / c) + (if n % c != 0 { 1nat } else { 0nat });
    assert(big * pow2(j) >= 1) by (nonlinear_arith)
        requires
            big >= 2,
            pow2(j) > 0,
    ;
    assert(n >= 1) by {
        if n == 0 {
            vstd::arithmetic::div_mod::lemma_div_of0(c as int);
        }
    }
    assert(quantum(sticky_value(n, d, j), mb, bias) == q);
}

/// Two neighbouring multiples `lo` and `lo + 2^h` of a step at least twice finer than
/// the layout's half step near `lo`, neither of them a midpoint between two numbers of
/// the layout, encode to the same pattern.
pub(crate) proof fn lemma_same_rounding(lo: nat, h: nat, eb: nat, mb: nat, bias: int)
    requires
        crate::model::scaled_layout(eb, mb, bias),
        lo >= 1,
        lo % pow2(h) == 0,
        h + 2 <= quantum(lo, mb, bias),
        lo % pow2(quantum(lo, mb, bias)) != pow2((quantum(lo, mb, bias) - 1) as nat),
        (lo + pow2(h)) % pow2(quantum(lo, mb, bias)) != pow2((quantum(lo, mb, bias) - 1) as nat),
    ensures
        encode_value(lo, eb, mb, bias) == encode_value(lo + pow2(h), eb, mb, bias),
{
    let hi = lo + pow2(h);
    let q = quantum(lo, mb, bias);
    let p = pow2((q - 1) as nat);
    let e = pow2(h);
    let s = sub_shift(mb, bias);
    lemma_pow2_pos(h);
    lemma_pow2_pos((q - 1) as nat);
    lemma_pow2_unfold(q);
    lemma_pow2_adds(h, (q - 1 - h) as nat);
    let f = pow2((q - 1 - h) as nat);
    lemma_pow2_pos((q - 1 - h) as nat);
    assert(p == e * f);
    lemma_log2_bounds(lo);
    lemma_log2_bounds(hi);
    crate::model::lemma_rne_monotone(lo, hi, q);
    if log2(hi) == log2(lo) {
        assert(quantum(hi, mb, bias) == q);
        // lo = k * p + rho with rho < p a multiple of 2^h.
        let k = lo / p;
        let rho = lo % p;
        vstd::arithmetic::div_mod::lemma_fundamental_div_mod(lo as int, p as int);
        vstd::arithmetic::div_mod::lemma_mod_pos_bound(lo as int, p as int);
        let l2 = lo / e;
        vstd::arithmetic::div_mod::lemma_fundamental_div_mod(lo as int, e as int);
        assert(rho % e == 0) by {
            vstd::arithmetic::div_mod::lemma_mod_mod(lo as int, e as int, f as int);
            vstd::arithmetic::mul::lemma_mul_is_commutative(e as int, f as int);
        }
        vstd::arithmetic::div_mod::lemma_fundamental_div_mod(rho as int, e as int);
        assert(rho + e <= p) by (nonlinear_arith)
            requires
                rho == e * (rho / e),
                rho < p,
                p == e * f,
                e > 0,
        ;
        let m = k / 2;
        vstd::arithmetic::div_mod::lemma_fundamental_div_mod(k as int, 2);
        let pq = pow2(q);
        if k % 2 == 0 {
            assert(lo == m * pq + rho) by (nonlinear_arith)
                requires
                    lo == p * k + rho,
                    k == 2 * m,
                    pq == 2 * p,
            ;
            assert(hi != (k + 1) * p) by {
                if hi == (k + 1) * p {
                    assert(hi == m * pq + p) by (nonlinear_arith)
                        requires
                            hi == (k + 1) * p,
                            k == 2 * m,
                            pq == 2 * p,
                    ;
                    vstd::arithmetic::div_mod::lemma_fundamental_div_mod_converse(hi as int, pq as int, m as int, p as int);
                }
            }
            assert(hi == m * pq + (rho + e) && rho + e < p) by (nonlinear_arith)
                requires
                    lo == m * pq + rho,
                    hi == lo + e,
                    rho + e <= p,
                    hi != (k + 1) * p,
                    lo == p * k + rho,
            ;
            vstd::arithmetic::div_mod::lemma_fundamental_div_mod_converse(lo as int, pq as int, m as int, rho as int);
            vstd::arithmetic::div_mod::lemma_fundamental_div_mod_converse(hi as int, pq as int, m as int, (rho + e) as int);
        } else {
            assert(rho != 0) by {
                if rho == 0 {
                    assert(lo == m * pq + p) by (nonlinear_arith)
                        requires
                            lo == p * k + rho,
                            rho == 0,
                            k == 2 * m + 1,
                            pq == 2 * p,
                    ;
                    vstd::arithmetic::div_mod::lemma_fundamental_div_mod_converse(lo as int, pq as int, m as int, p as int);
                }
            }
            assert(lo == m * pq + (p + rho)) by (nonlinear_arith)
                requires
                    lo == p * k + rho,
                    k == 2 * m + 1,
                    pq == 2 * p,
            ;
            vstd::arithmetic::div_mod::lemma_fundamental_div_mod_converse(lo as int, pq as int, m as int, (p + rho) as int);
            if rho + e < p {
                vstd::arithmetic::div_mod::lemma_fundamental_div_mod_converse(hi as int, pq as int, m as int, (p + rho + e) as int);
            } else {
                assert(hi == (m + 1) * pq + 0) by (nonlinear_arith)
                    requires
                        hi == lo + e,
                        lo == m * pq + (p + rho),
                        rho + e == p,
                        pq == 2 * p,
                ;
                vstd::arithmetic::div_mod::lemma_fundamental_div_mod_converse(hi as int, pq as int, (m + 1) as int, 0);
            }
        }
    } else {
        // The step between them is a power of two, `hi` itself: `lo` rounds up to it.
        let b = log2(hi);
        assert(log2(lo) < b) by {
            if log2(lo) > b {
                lemma_pow2_strictly_increases(b + 1, log2(lo));
            }
        }
        assert(lo < pow2(b)) by {
            if log2(lo) + 1 < b {
                lemma_pow2_strictly_increases(log2(lo) + 1, b);
            }
        }
        assert(b >= h) by {
            if b < h {
                lemma_pow2_strictly_increases(b + 1, h);
            }
        }
        // `2^b` is a multiple of `2^h` in `(lo, lo + 2^h]`, so it is `hi`.
        lemma_pow2_adds(h, (b - h) as nat);
        let l2 = lo / e;
        vstd::arithmetic::div_mod::lemma_fundamental_div_mod(lo as int, e as int);
        let g = pow2((b - h) as nat);
        assert(pow2(b) == hi) by (nonlinear_arith)
            requires
                lo == e * l2,
                pow2(b) == e * g,
                lo < pow2(b),
                pow2(b) <= lo + e,
                hi == lo + e,
                e > 0,
        ;
        let pq = pow2(q);
        lemma_pow2_unfold((q - 1 - h) as nat);
        lemma_pow2_pos((q - 2 - h) as nat);
        assert(lo >= e) by (nonlinear_arith)
            requires
                lo == e * l2,
                lo >= 1,
                e > 0,
        ;
        assert(b >= 1) by {
            if b == 0 {
                lemma2_to64();
            }
        }
        lemma_pow2_unfold(b);
        crate::model::lemma_log2_unique(lo, (b - 1) as nat);
        assert(e * 2 <= p) by (nonlinear_arith)
            requires
                p == e * f,
                f >= 2,
                e > 0,
        {
        }
        if q > b {
            if q == b + 1 {
                vstd::arithmetic::div_mod::lemma_small_mod(hi, pq);
            } else {
                lemma_pow2_strictly_increases(b, (q - 1) as nat);
            }
            vstd::arithmetic::div_mod::lemma_small_mod(hi, pq);
            vstd::arithmetic::div_mod::lemma_small_mod(lo, pq);
            vstd::arithmetic::div_mod::lemma_basic_div(hi as int, pq as int);
            vstd::arithmetic::div_mod::lemma_basic_div(lo as int, pq as int);
            assert(quantum(hi, mb, bias) == q);
        } else {
            lemma_pow2_adds(q, (b - q) as nat);
            let w = pow2((b - q) as nat);
            lemma_pow2_pos((b - q) as nat);
            assert(lo == (w - 1) * pq + (pq - e) && pq - e < pq && pq - e > p) by (nonlinear_arith)
                requires
                    lo + e == pow2(b),
                    pow2(b) == pq * w,
                    pq == 2 * p,
                    e * 2 <= p,
                    w >= 1,
                    e > 0,
            ;
            vstd::arithmetic::div_mod::lemma_fundamental_div_mod_converse(lo as int, pq as int, (w - 1) as int, (pq - e) as int);
            assert(hi == w * pq + 0) by (nonlinear_arith)
                requires
                    hi == pow2(b),
                    pow2(b) == pq * w,
            ;
            vstd::arithmetic::div_mod::lemma_fundamental_div_mod_converse(hi as int, pq as int, w as int, 0);
            assert(crate::model::rne(lo, q) == w);
            assert(crate::model::rne(hi, q) == w);
            let q2 = quantum(hi, mb, bias);
            if q2 != q {
                lemma_pow2_pos(q2);
                assert(q2 == q + 1);
                assert(b == q + 1 + mb);
                lemma_pow2_adds(q2, mb);
                lemma_pow2_unfold(mb + 1);
                vstd::arithmetic::div_mod::lemma_fundamental_div_mod_converse(hi as int, pow2(q2) as int, pow2(mb) as int, 0);
                lemma_pow2_adds(q, mb + 1);
                assert(w == pow2(mb + 1)) by (nonlinear_arith)
                    requires
                        pow2(b) == pq * w,
                        pow2(b) == pq * pow2(mb + 1),
                        pq > 0,
                ;
                assert(round_bits(lo, mb, bias) == round_bits(hi, mb, bias)) by (nonlinear_arith)
                    requires
                        round_bits(lo, mb, bias) == (q - s) * pow2(mb) + w,
                        round_bits(hi, mb, bias) == (q2 - s) * pow2(mb) + pow2(mb),
                        w == 2 * pow2(mb),
                        q2 == q + 1,
                        q >= s,
                ;
            }
        }
    }
}

/// A value `x` that differs from the ratio `n / d` (a significand times `2^g1` over
/// one of fewer than `bb` bits times `2^kb`) by less than `2^h` is no odd multiple of
/// `2^(q-1)` when `q >= h + bb + 1` and `g1 >= h + kb + bb`: both `n` and `x * d` would
/// be multiples of a power of two larger than their distance.
pub(crate) proof fn lemma_not_midpoint(n: nat, d: nat, x: nat, na: nat, g1: nat, nb: nat, kb: nat, q: nat, h: nat, bb: nat)
    requires
        n == na * pow2(g1),
        d == nb * pow2(kb),
        1 <= nb < pow2(bb),
        q >= h + bb + 1,
        x * d != n,
        x * d < n + pow2(h) * d,
        n < x * d + pow2(h) * d,
        g1 >= h + kb + bb,
    ensures
        x % pow2(q) != pow2((q - 1) as nat),
{
    if x % pow2(q) == pow2((q - 1) as nat) {
        lemma2_to64();
        let p1 = pow2((q - 1) as nat);
        lemma_pow2_pos(q);
        lemma_pow2_unfold(q);
        vstd::arithmetic::div_mod::lemma_fundamental_div_mod(x as int, pow2(q) as int);
        let w = x / pow2(q);
        let odd = 2 * w + 1;
        assert(x == odd * p1) by (nonlinear_arith)
            requires
                x == pow2(q) * w + x % pow2(q),
                x % pow2(q) == p1,
                pow2(q) == 2 * p1,
                odd == 2 * w + 1,
        ;
        let g: nat = if g1 <= (q - 1 + kb) as nat { g1 } else { (q - 1 + kb) as nat };
        let t = h + kb + bb;
        assert(g >= t);
        lemma_pow2_adds((g1 - g) as nat, g);
        lemma_pow2_adds((q - 1 + kb - g) as nat, g);
        lemma_pow2_adds((q - 1) as nat, kb);
        let pg = pow2(g);
        lemma_pow2_pos(g);
        let a1 = na * pow2((g1 - g) as nat);
        let b1 = odd * nb * pow2((q - 1 + kb - g) as nat);
        assert(n == a1 * pg && x * d == b1 * pg) by (nonlinear_arith)
            requires
                n == na * pow2(g1),
                pow2(g1) == pow2((g1 - g) as nat) * pg,
                a1 == na * pow2((g1 - g) as nat),
                x == odd * p1,
                d == nb * pow2(kb),
                pow2((q - 1 + kb) as nat) == p1 * pow2(kb),
                pow2((q - 1 + kb) as nat) == pow2((q - 1 + kb - g) as nat) * pg,
                b1 == odd * nb * pow2((q - 1 + kb - g) as nat),
        ;
        // Both are multiples of 2^g and differ, so they are at least 2^g apart, while
        // 2^h * d < 2^(h + kb + bb) <= 2^g.
        lemma_pow2_pos(kb);
        lemma_pow2_pos(h);
        lemma_pow2_adds(h, kb);
        lemma_pow2_adds(h + kb, bb);
        if g > t {
            lemma_pow2_strictly_increases(t, g);
        }
        assert(pow2(h) * d < pg) by (nonlinear_arith)
            requires
                d == nb * pow2(kb),
                nb < pow2(bb),
                pow2(h + kb) == pow2(h) * pow2(kb),
                pow2(t) == pow2(h + kb) * pow2(bb),
                pow2(t) <= pg,
                pow2(kb) > 0,
                pow2(h) > 0,
        ;
        assert(pow2(h) * d >= pg) by (nonlinear_arith)
            requires
                n == a1 * pg,
                x * d == b1 * pg,
                x * d != n,
                x * d < n + pow2(h) * d,
                n < x * d + pow2(h) * d,
                pow2(h) * d < pg,
                pg > 0,
        ;
    }
}

/// The ratio `n / d` of a significand `na < 32` times `2^g1` by `nb < 32` times `2^kb`,
/// in an 8-bit layout, encodes the same with or without a rounding to binary32 first.
/// The ratio is never closer than `2^(c-16)` to a midpoint of the layout without being
/// one (`c = g1 - kb`), so the two binary32 numbers `lo` and `lo + 2^(c-16)` around it
/// encode alike, and every value between them does too.
#[verifier::rlimit(60)]
proof fn lemma_ratio_through_f32(n: nat, d: nat, na: nat, g1: nat, nb: nat, kb: nat, eb: nat, mb: nat, bias: int)
    requires
        (eb == 4 && mb == 4 && bias == 7) || (eb == 5 && mb == 3 && bias == 15),
        1 <= na < 32,
        1 <= nb < 32,
        n == na * pow2(g1),
        d == nb * pow2(kb),
        kb + 1045 <= g1 <= kb + 1103,
    ensures
        ratio_through_f32(n, d, eb, mb, bias) == encode_ratio(n, d, eb, mb, bias),
{
    lemma2_to64();
    lemma2_to64_rest();
    let c = (g1 - kb) as nat;
    let h = (c - 16) as nat;
    let j = (c - 32) as nat;
    lemma_pow2_pos(kb);
    lemma_pow2_pos(c);
    lemma_pow2_pos(h);
    lemma_pow2_pos(j);
    lemma_pow2_pos(j + 1);
    // The whole part of the ratio.
    lemma_pow2_adds(c, kb);
    let x = na * pow2(c);
    assert(n == x * pow2(kb) && d == nb * pow2(kb)) by {
        lemma_mul_is_associative(na as int, pow2(c) as int, pow2(kb) as int);
    }
    lemma_div_scaled(x, nb, pow2(kb));
    let r = n / d;
    assert(r == x / nb);
    let p5 = pow2((c - 5) as nat);
    lemma_pow2_adds((c - 5) as nat, 5);
    lemma_pow2_adds(c, 5);
    vstd::arithmetic::div_mod::lemma_fundamental_div_mod(x as int, nb as int);
    vstd::arithmetic::div_mod::lemma_mod_pos_bound(x as int, nb as int);
    lemma_pow2_strictly_increases(5, (c - 5) as nat);
    assert(p5 <= r && r < pow2(c + 5)) by (nonlinear_arith)
        requires
            x == nb * r + x % nb,
            x % nb < nb,
            x == na * pow2(c),
            pow2(c) == p5 * 32,
            pow2(c + 5) == pow2(c) * 32,
            1 <= na < 32,
            1 <= nb < 32,
            p5 > 32,
    ;
    lemma_log2_bounds(r);
    assert(log2(r) >= c - 5) by {
        if log2(r) < c - 5 {
            if log2(r) + 1 < c - 5 {
                lemma_pow2_strictly_increases(log2(r) + 1, (c - 5) as nat);
            }
        }
    }
    // The sticky stand-in at the step 2^j, finer than both layouts' steps.
    lemma_pow2_adds(j + 1, 24);
    lemma_pow2_adds(j + 1, 15);
    assert(h == j + 1 + 15);
    assert(d > 0) by (nonlinear_arith)
        requires
            d == nb * pow2(kb),
            nb >= 1,
            pow2(kb) > 0,
    ;
    vstd::arithmetic::div_mod::lemma_div_denominator(n as int, d as int, pow2(j + 1) as int);
    vstd::arithmetic::div_mod::lemma_div_denominator(n as int, d as int, pow2(h) as int);
    vstd::arithmetic::div_mod::lemma_div_denominator(r as int, pow2(j + 1) as int, pow2(15) as int);
    let cc = d * pow2(j + 1);
    let gg = d * pow2(h);
    let f = n / cc;
    let l0 = n / gg;
    assert(f == r / pow2(j + 1));
    assert(l0 == r / pow2(h));
    assert(l0 == f / pow2(15));
    lemma_pow2_adds(j + 1, (c - 6 - j) as nat);
    lemma_pow2_pos((c - 6 - j) as nat);
    vstd::arithmetic::div_mod::lemma_fundamental_div_mod(r as int, pow2(j + 1) as int);
    vstd::arithmetic::div_mod::lemma_mod_pos_bound(r as int, pow2(j + 1) as int);
    assert(p5 >= pow2(j + 1)) by (nonlinear_arith)
        requires
            p5 == pow2(j + 1) * pow2((c - 6 - j) as nat),
            pow2((c - 6 - j) as nat) >= 1,
            pow2(j + 1) > 0,
    ;
    assert(f >= 1) by {
        if f == 0 {
            vstd::arithmetic::mul::lemma_mul_by_zero_is_zero(pow2(j + 1) as int);
        }
    }
    assert(quantum(r, 23, 127) >= j + 2);
    assert(quantum(r, mb, bias) >= j + 2);
    lemma_ratio_is_sticky(n, d, j, 8, 23, 127);
    lemma_ratio_is_sticky(n, d, j, eb, mb, bias);
    let z = sticky_value(n, d, j);
    // `lo` and `hi`, the multiples of 2^h around the ratio.
    let lo = l0 * pow2(h);
    let hi = lo + pow2(h);
    vstd::arithmetic::div_mod::lemma_fundamental_div_mod(r as int, pow2(h) as int);
    vstd::arithmetic::div_mod::lemma_mod_pos_bound(r as int, pow2(h) as int);
    lemma_pow2_adds(h, 11);
    lemma_pow2_adds(h, 21);
    assert(pow2(h + 11) == p5);
    assert(pow2(h + 21) == pow2(c + 5));
    assert(l0 >= pow2(11) && l0 < pow2(21)) by (nonlinear_arith)
        requires
            r == pow2(h) * l0 + r % pow2(h),
            r % pow2(h) < pow2(h),
            p5 <= r,
            r < pow2(c + 5),
            pow2(h + 11) == pow2(h) * pow2(11),
            pow2(h + 21) == pow2(h) * pow2(21),
            pow2(h + 11) == p5,
            pow2(h + 21) == pow2(c + 5),
            pow2(h) > 0,
    ;
    // f = l0 * 2^15 + phi, and z lies in [lo, hi].
    lemma_pow2_pos(15);
    vstd::arithmetic::div_mod::lemma_fundamental_div_mod(f as int, pow2(15) as int);
    vstd::arithmetic::div_mod::lemma_mod_pos_bound(f as int, pow2(15) as int);
    let st: nat = if n % cc != 0 { 1 } else { 0 };
    assert(z == (2 * f + st) * pow2(j));
    lemma_pow2_unfold(j + 1);
    let phi = f % pow2(15);
    assert(z == lo + phi * pow2(j + 1) + st * pow2(j)) by (nonlinear_arith)
        requires
            z == (2 * f + st) * pow2(j),
            f == pow2(15) * l0 + phi,
            pow2(h) == pow2(j + 1) * pow2(15),
            pow2(j + 1) == 2 * pow2(j),
            lo == l0 * pow2(h),
    ;
    assert(phi * pow2(j + 1) + pow2(j + 1) <= pow2(h)) by (nonlinear_arith)
        requires
            phi < pow2(15),
            pow2(h) == pow2(j + 1) * pow2(15),
            pow2(j + 1) > 0,
    ;
    assert(st * pow2(j) <= pow2(j + 1)) by (nonlinear_arith)
        requires
            st <= 1,
            pow2(j + 1) == 2 * pow2(j),
            pow2(j) > 0,
    ;
    assert(phi * pow2(j + 1) >= 0 && st * pow2(j) >= 0);
    assert(lo <= z && z <= hi);
    // Both ends are binary32 numbers.
    lemma_pow2_adds(24, h);
    lemma_pow2_strictly_increases(24 + h, 1201);
    assert(l0 + 1 < pow2(24) && hi == (l0 + 1) * pow2(h) && hi < pow2(1201)) by (nonlinear_arith)
        requires
            l0 < pow2(21),
            pow2(21) == 2097152,
            pow2(24) == 16777216,
            lo == l0 * pow2(h),
            hi == lo + pow2(h),
            pow2(24 + h) == pow2(24) * pow2(h),
            pow2(24 + h) < pow2(1201),
            pow2(h) > 0,
    ;
    assert(lo < pow2(1201));
    lemma_through_f32_exact(lo, l0, h, eb, mb, bias);
    lemma_through_f32_exact(hi, (l0 + 1) as nat, h, eb, mb, bias);
    // How n compares with lo * d and hi * d.
    vstd::arithmetic::div_mod::lemma_fundamental_div_mod(n as int, gg as int);
    vstd::arithmetic::div_mod::lemma_mod_pos_bound(n as int, gg as int);
    assert(gg > 0) by (nonlinear_arith)
        requires
            gg == d * pow2(h),
            d == nb * pow2(kb),
            nb >= 1,
            pow2(kb) > 0,
            pow2(h) > 0,
    ;
    assert(lo * d == gg * l0 && hi * d == gg * l0 + gg && pow2(h) * d == gg) by (nonlinear_arith)
        requires
            lo == l0 * pow2(h),
            hi == lo + pow2(h),
            gg == d * pow2(h),
    ;
    if n % gg == 0 {
        // The ratio is `lo` itself, a binary32 number.
        assert(n == (l0 * pow2(15)) * cc) by (nonlinear_arith)
            requires
                n == gg * l0 + n % gg,
                n % gg == 0,
                gg == d * pow2(h),
                cc == d * pow2(j + 1),
                pow2(h) == pow2(j + 1) * pow2(15),
        ;
        assert(cc > 0) by (nonlinear_arith)
            requires
                cc == d * pow2(j + 1),
                gg == d * pow2(h),
                gg > 0,
                pow2(j + 1) > 0,
        ;
        vstd::arithmetic::div_mod::lemma_mod_multiples_basic((l0 * pow2(15)) as int, cc as int);
        vstd::arithmetic::div_mod::lemma_div_multiples_vanish((l0 * pow2(15)) as int, cc as int);
        vstd::arithmetic::mul::lemma_mul_is_commutative((l0 * pow2(15)) as int, cc as int);
        assert(z == lo) by (nonlinear_arith)
            requires
                z == (2 * f + st) * pow2(j),
                st == 0,
                f == l0 * pow2(15),
                lo == l0 * pow2(h),
                pow2(h) == pow2(j + 1) * pow2(15),
                pow2(j + 1) == 2 * pow2(j),
        ;
    } else {
        let q = quantum(lo, mb, bias);
        lemma_log2_bounds(lo);
        assert(lo >= p5) by (nonlinear_arith)
            requires
                lo == l0 * pow2(h),
                l0 >= pow2(11),
                pow2(h + 11) == pow2(h) * pow2(11),
                pow2(h + 11) == p5,
        ;
        assert(log2(lo) >= c - 5) by {
            if log2(lo) < c - 5 {
                if log2(lo) + 1 < c - 5 {
                    lemma_pow2_strictly_increases(log2(lo) + 1, (c - 5) as nat);
                }
            }
        }
        assert(q >= h + 6);
        lemma_not_midpoint(n, d, lo, na, g1, nb, kb, q, h, 5);
        lemma_not_midpoint(n, d, hi, na, g1, nb, kb, q, h, 5);
        vstd::arithmetic::div_mod::lemma_mod_multiples_basic(l0 as int, pow2(h) as int);
        lemma_same_rounding(lo, h, eb, mb, bias);
        lemma_through_f32_between(lo, z, hi, eb, mb, bias);
    }
}

/// Division in both 8-bit layouts gives what binary32 division of the widened
/// operands, rounded back, gives: a quotient of two of their numbers is never close
/// enough to a midpoint of the layout for the rounding to binary32 to move it across.
pub proof fn lemma_uf8_quotients_as_f32(a: nat, b: nat)
    ensures
        quotient_bits(a, b, 4, 4, 7) == quotient_f32_bits(a, b, 4, 4, 7),
        quotient_bits(a, b, 5, 3, 15) == quotient_f32_bits(a, b, 5, 3, 15),
{
    lemma_quotient_as_f32(a, b, 4, 4, 7);
    lemma_quotient_as_f32(a, b, 5, 3, 15);
}

/// The quotient of two patterns of an 8-bit layout encodes the same with or without a
/// rounding to binary32 first.
proof fn lemma_quotient_as_f32(a: nat, b: nat, eb: nat, mb: nat, bias: int)
    requires
        (eb == 4 && mb == 4 && bias == 7) || (eb == 5 && mb == 3 && bias == 15),
    ensures
        quotient_bits(a, b, eb, mb, bias) == quotient_f32_bits(a, b, eb, mb, bias),
{
    lemma2_to64();
    if is_finite_bits(a, eb, mb) && is_finite_bits(b, eb, mb) && units(b, eb, mb, bias) != 0 {
        let ua = units(a, eb, mb, bias);
        let ub = units(b, eb, mb, bias);
        if ua == 0 {
            lemma_fields(0, 0, 8, 23);
            assert(ua * pow2(1074) == 0);
        } else {
            let (na, ka) = lemma_byte_value_parts(a, eb, mb, bias);
            let (nb, kb) = lemma_byte_value_parts(b, eb, mb, bias);
            assert(sub_shift(mb, bias) >= 1057);
            assert(sub_shift(mb, bias) + max_exp(eb) <= 1088);
            assert(na >= 1 && nb >= 1) by {
                if na == 0 {
                    vstd::arithmetic::mul::lemma_mul_by_zero_is_zero(pow2(ka) as int);
                }
                if nb == 0 {
                    vstd::arithmetic::mul::lemma_mul_by_zero_is_zero(pow2(kb) as int);
                }
            }
            lemma_pow2_adds(ka, 1074);
            assert(ua * pow2(1074) == na * pow2(ka + 1074)) by {
                lemma_mul_is_associative(na as int, pow2(ka) as int, pow2(1074) as int);
            }
            lemma_ratio_through_f32(ua * pow2(1074), ub, na, ka + 1074, nb, kb, eb, mb, bias);
        }
    }
}

/// Encoding a non-NaN value of a signed IEEE format that is not below zero gives at
/// most the layout's infinity: a finite number or infinity itself, never a NaN.
pub proof fn lemma_encode_float_bounded(x: nat, seb: nat, smb: nat, sbias: int, eb: nat, mb: nat, bias: int)
    requires
        encodable(eb, mb, bias),
        seb >= 1,
        !is_nan_bits(x, seb, smb),
        sign_bit(x, seb, smb) == 0 || (exp_field(x, seb, smb) == 0 && man_field(x, smb) == 0),
    ensures
        encode_float(x, seb, smb, sbias, eb, mb, bias) <= inf_bits(eb, mb),
{
    lemma_pow2_pos(mb);
    lemma2_to64();
    lemma_pow2_strictly_increases(0, seb);
}

/// A pattern below the layout's infinity is a finite number within the layout's width.
pub proof fn lemma_below_infinity(t: nat, eb: nat, mb: nat)
    requires
        1 <= eb,
        t < inf_bits(eb, mb),
    ensures
        in_width(t, eb, mb),
        is_finite_bits(t, eb, mb),
{
    lemma_pow2_pos(mb);
    lemma_pow2_pos(eb);
    lemma_pow2_adds(eb, mb);
    assert(in_width(t, eb, mb)) by (nonlinear_arith)
        requires
            t < inf_bits(eb, mb),
            inf_bits(eb, mb) == (pow2(eb) - 1) * pow2(mb),
            pow2(eb + mb) == pow2(eb) * pow2(mb),
            pow2(mb) > 0,
    ;
    lemma_split(t, eb, mb);
    assert(exp_field(t, eb, mb) < max_exp(eb)) by (nonlinear_arith)
        requires
            t == exp_field(t, eb, mb) * pow2(mb) + man_field(t, mb),
            t < max_exp(eb) * pow2(mb),
            pow2(mb) > 0,
    ;
}

/// Narrowing a binary64 value that is neither NaN, infinite nor below zero to binary32
/// gives a non-NaN binary32 pattern that is not below zero either.
pub proof fn lemma_narrow_not_below_zero(value: nat)
    requires
        value < pow2(64),
        !crate::convert::f64_is_nan(value),
        !crate::convert::f64_is_negative(value),
    ensures
        !is_nan_bits(narrow_f64(value, 8, 23, 127), 8, 23),
        sign_bit(narrow_f64(value, 8, 23, 127), 8, 23) == 0
            || (exp_field(narrow_f64(value, 8, 23, 127), 8, 23) == 0 && man_field(narrow_f64(value, 8, 23, 127), 23) == 0),
{
    lemma2_to64();
    lemma2_to64_rest();
    lemma_pow2_adds(11, 52);
    lemma_pow2_adds(8, 23);
    lemma_pow2_unfold(64);
    lemma_pow2_pos(23);
    lemma_pow2_pos(52);
    let y = narrow_f64(value, 8, 23, 127);
    vstd::arithmetic::div_mod::lemma_fundamental_div_mod(value as int, pow2(63) as int);
    vstd::arithmetic::div_mod::lemma_mod_pos_bound(value as int, pow2(63) as int);
    if value < pow2(63) {
        vstd::arithmetic::div_mod::lemma_basic_div(value as int, pow2(63) as int);
        vstd::arithmetic::div_mod::lemma_small_mod(value, pow2(63));
        lemma_encode_float_bounded(value, 11, 52, 1023, 8, 23, 127);
        assert(y == encode_f64(value, 8, 23, 127));
        if y < inf_bits(8, 23) {
            lemma_below_infinity(y, 8, 23);
        } else {
            lemma_fields(255, 0, 8, 23);
        }
        assert(y < pow2(31));
        vstd::arithmetic::div_mod::lemma_basic_div(y as int, pow2(31) as int);
    } else {
        // The negative zero: exactly the sign bit.
        assert(value / pow2(63) == 1);
        let r = value % pow2(63);
        assert(crate::model::f64_sign(value) == 1);
        assert(crate::convert::f64_is_zero(value));
        vstd::arithmetic::div_mod::lemma_fundamental_div_mod(value as int, pow2(52) as int);
        vstd::arithmetic::div_mod::lemma_mod_pos_bound(value as int, pow2(52) as int);
        let hi = value / pow2(52);
        vstd::arithmetic::div_mod::lemma_fundamental_div_mod(hi as int, 2048);
        assert(value == pow2(63) + r);
        assert(hi % 2048 == 0 && value % pow2(52) == 0);
        assert(r == 0) by (nonlinear_arith)
            requires
                value == pow2(63) + r,
                r < pow2(63),
                value == pow2(52) * hi + value % pow2(52),
                value % pow2(52) == 0,
                hi == 2048 * (hi / 2048) + hi % 2048,
                hi % 2048 == 0,
                pow2(63) == 2048 * pow2(52),
                pow2(52) > 0,
        ;
        lemma_fields(0, 0, 11, 52);
        assert(encode_f64(0, 8, 23, 127) == 0);
        assert(y == pow2(31));
        vstd::arithmetic::div_mod::lemma_fundamental_div_mod_converse(pow2(31) as int, pow2(23) as int, 256, 0);
        vstd::arithmetic::div_mod::lemma_fundamental_div_mod_converse(256, pow2(8) as int, 1, 0);
    }
}

/// A layout that fits in another encodes there exactly: the encoded pattern is finite
/// and has the same value.
#[verifier::spinoff_prover]
#[verifier::rlimit(40)]
pub proof fn lemma_encode_exact_in(b: nat, eb: nat, mb: nat, bias: int, teb: nat, tmb: nat, tbias: int)
    requires
        fits_in(eb, mb, bias, teb, tmb, tbias),
        is_finite_bits(b, eb, mb),
    ensures
        encode_value(units(b, eb, mb, bias), teb, tmb, tbias) < inf_bits(teb, tmb),
        in_width(encode_value(units(b, eb, mb, bias), teb, tmb, tbias), teb, tmb),
        is_finite_bits(encode_value(units(b, eb, mb, bias), teb, tmb, tbias), teb, tmb),
        units(encode_value(units(b, eb, mb, bias), teb, tmb, tbias), teb, tmb, tbias) == units(b, eb, mb, bias),
{
    let u = units(b, eb, mb, bias);
    let st = sub_shift(tmb, tbias);
    lemma_pow2_pos(tmb);
    lemma_pow2_pos(teb);
    lemma_pow2_adds(teb, tmb);
    lemma_units_binade(b, eb, mb, bias);
    if u == 0 {
        lemma_fields(0, 0, teb, tmb);
        lemma_pow2_pos(teb + tmb);
        lemma_pow2_unfold(teb);
        if teb > 1 {
            lemma_pow2_strictly_increases(1, teb);
        }
        lemma2_to64();
        assert(0 < inf_bits(teb, tmb)) by (nonlinear_arith)
            requires
                inf_bits(teb, tmb) == (pow2(teb) - 1) * pow2(tmb),
                pow2(teb) >= 2,
                pow2(tmb) > 0,
        ;
    } else {
        let (n, k) = lemma_value_parts(b, eb, mb, bias);
        assert(n >= 1) by (nonlinear_arith)
            requires
                u == n * pow2(k),
                u >= 1,
        ;
        lemma_log2_scaled(n, k);
        lemma_log2_bounds(n);
        if log2(n) > mb {
            lemma_pow2_strictly_increases(mb + 1, log2(n));
        }
        let q = quantum(u, tmb, tbias);
        assert(q <= k);
        lemma_pow2_adds((k - q) as nat, q);
        lemma_mul_is_associative(n as int, pow2((k - q) as nat) as int, pow2(q) as int);
        lemma_pow2_pos(q);
        vstd::arithmetic::div_mod::lemma_mod_multiples_basic((n * pow2((k - q) as nat)) as int, pow2(q) as int);
        let e = exp_field(b, eb, mb);
        lemma_pow2_unfold(eb);
        lemma_pow2_unfold(teb);
        if eb > 1 {
            lemma_pow2_strictly_increases(1, eb);
        }
        lemma2_to64();
        lemma_log2_bounds(u);
        assert(log2(u) + bias <= pow2(eb) + 1072) by {
            if e > 0 {
                if log2(u) >= mb + e + sub_shift(mb, bias) {
                    lemma_pow2_strictly_increases(mb + e + sub_shift(mb, bias), log2(u));
                }
            } else {
                if log2(u) >= mb + sub_shift(mb, bias) {
                    lemma_pow2_strictly_increases(mb + sub_shift(mb, bias), log2(u));
                }
            }
        }
        assert(round_bits(u, tmb, tbias) < inf_bits(teb, tmb)) by {
            if log2(u) >= tmb + st {
                lemma_rne_between(u, q);
                lemma_pow2_unfold(tmb + 1);
                lemma_pow2_adds(q, tmb + 1);
                let d = u / pow2(q);
                vstd::arithmetic::div_mod::lemma_fundamental_div_mod(u as int, pow2(q) as int);
                assert(d < 2 * pow2(tmb)) by (nonlinear_arith)
                    requires
                        u == pow2(q) * d,
                        u < pow2(q) * pow2(tmb + 1),
                        pow2(tmb + 1) == 2 * pow2(tmb),
                        pow2(q) > 0,
                ;
                let kk = (q - st) as nat;
                let big = (pow2(teb) - 1) as nat;
                let rr = crate::model::rne(u, q);
                let pp = pow2(tmb);
                assert(kk + 2 <= big);
                assert(kk * pp + rr < big * pp) by (nonlinear_arith)
                    requires
                        kk + 2 <= big,
                        rr < 2 * pp,
                        pp > 0,
                ;
                assert(round_bits(u, tmb, tbias) == kk * pp + rr);
                assert(inf_bits(teb, tmb) == big * pp);
            } else {
                assert(u < pow2(st + tmb)) by {
                    if log2(u) + 1 < st + tmb {
                        lemma_pow2_strictly_increases(log2(u) + 1, st + tmb);
                    }
                }
                let m = n * pow2((k - q) as nat);
                assert(u == m * pow2(q));
                crate::model::lemma_rne_exact(m, q);
                lemma_pow2_adds(st, tmb);
                assert(m < pow2(tmb)) by (nonlinear_arith)
                    requires
                        m * pow2(q) < pow2(q) * pow2(tmb),
                        pow2(q) > 0,
                ;
                assert(crate::model::rne(u, q) < (pow2(teb) - 1) * pow2(tmb)) by (nonlinear_arith)
                    requires
                        crate::model::rne(u, q) < pow2(tmb),
                        pow2(teb) >= 2,
                        pow2(tmb) > 0,
                ;
                assert(q == st);
                assert(round_bits(u, tmb, tbias) == 0 * pow2(tmb) + crate::model::rne(u, q));
            }
        }
        lemma_encode_value_exact(u, teb, tmb, tbias);
    }
}

/// The binary64 pattern of a finite pattern's value is a finite non-negative binary64
/// pattern with exactly that value.
pub proof fn lemma_decode_f64_exact(b: nat, eb: nat, mb: nat, bias: int)
    requires
        decodable(eb, mb, bias),
        is_finite_bits(b, eb, mb),
    ensures
        decode_f64(b, eb, mb, bias) < 0x7ff0_0000_0000_0000,
        is_finite_bits(decode_f64(b, eb, mb, bias), 11, 52),
        in_width(decode_f64(b, eb, mb, bias), 11, 52),
        units(decode_f64(b, eb, mb, bias), 11, 52, 1023) == units(b, eb, mb, bias),
{
    lemma2_to64();
    lemma2_to64_rest();
    lemma_encode_exact_in(b, eb, mb, bias, 11, 52, 1023);
}

/// Decoding to binary64 and encoding back gives every non-NaN pattern unchanged.
pub proof fn lemma_decode_encode_roundtrip(b: nat, eb: nat, mb: nat, bias: int)
    requires
        decodable(eb, mb, bias),
        in_width(b, eb, mb),
        !is_nan_bits(b, eb, mb),
    ensures
        encode_f64(decode_f64(b, eb, mb, bias), eb, mb, bias) == b,
{
    lemma2_to64();
    lemma2_to64_rest();
    lemma_pow2_adds(11, 52);
    lemma_split(b, eb, mb);
    if is_inf_bits(b, eb, mb) {
        lemma_fields(2047, 0, 11, 52);
        assert(b == max_exp(eb) * pow2(mb) + 0);
    } else {
        let x = decode_f64(b, eb, mb, bias);
        lemma_decode_f64_exact(b, eb, mb, bias);
        lemma_split(x, 11, 52);
        assert(x / pow2(63) == 0) by {
            vstd::arithmetic::div_mod::lemma_basic_div(x as int, pow2(63) as int);
        }
        lemma_units_binade(x, 11, 52, 1023);
        lemma_units_binade(b, eb, mb, bias);
        lemma_encode_units_roundtrip(b, eb, mb, bias);
    }
}

/// Narrowing a decoded value to a format that holds it exactly gives that format's
/// pattern of the value.
pub proof fn lemma_narrow_decoded_exact(b: nat, eb: nat, mb: nat, bias: int, t: nat, teb: nat, tmb: nat, tbias: int)
    requires
        decodable(eb, mb, bias),
        encodable(teb, tmb, tbias),
        is_finite_bits(b, eb, mb),
        in_width(t, teb, tmb),
        is_finite_bits(t, teb, tmb),
        units(t, teb, tmb, tbias) == units(b, eb, mb, bias),
    ensures
        narrow_f64(decode_f64(b, eb, mb, bias), teb, tmb, tbias) == t,
{
    let d = decode_f64(b, eb, mb, bias);
    lemma2_to64();
    lemma2_to64_rest();
    lemma_decode_f64_exact(b, eb, mb, bias);
    vstd::arithmetic::div_mod::lemma_small_mod(d, pow2(63));
    vstd::arithmetic::div_mod::lemma_basic_div(d as int, pow2(63) as int);
    lemma_units_binade(d, 11, 52, 1023);
    lemma_units_binade(b, eb, mb, bias);
    lemma_units_binade(t, teb, tmb, tbias);
    lemma_encode_units_roundtrip(t, teb, tmb, tbias);
    assert(crate::model::f64_sign(d) == 0);
    if units(b, eb, mb, bias) == 0 {
        lemma_split(t, teb, tmb);
        assert(t == 0 * pow2(tmb) + 0);
    }
}

/// Narrowing a value to a format that holds the layout exactly and encoding it back
/// gives every non-NaN pattern unchanged.
pub proof fn lemma_roundtrip_through(b: nat, eb: nat, mb: nat, bias: int, teb: nat, tmb: nat, tbias: int)
    requires
        decodable(eb, mb, bias),
        fits_in(eb, mb, bias, teb, tmb, tbias),
        in_width(b, eb, mb),
        !is_nan_bits(b, eb, mb),
    ensures
        encode_float(narrow_f64(decode_f64(b, eb, mb, bias), teb, tmb, tbias), teb, tmb, tbias, eb, mb, bias) == b,
{
    lemma2_to64();
    lemma2_to64_rest();
    lemma_split(b, eb, mb);
    lemma_pow2_pos(teb + tmb);
    if is_inf_bits(b, eb, mb) {
        lemma_fields(2047, 0, 11, 52);
        assert(b == max_exp(eb) * pow2(mb) + 0);
        let x: nat = 0x7ff0_0000_0000_0000;
        vstd::arithmetic::div_mod::lemma_small_mod(x, pow2(63));
        vstd::arithmetic::div_mod::lemma_basic_div(x as int, pow2(63) as int);
        let t = inf_bits(teb, tmb);
        lemma_pow2_pos(tmb);
        lemma_pow2_pos(teb);
        lemma_pow2_adds(teb, tmb);
        assert(t == max_exp(teb) * pow2(tmb) + 0);
        lemma_fields(max_exp(teb), 0, teb, tmb);
        assert(t < pow2(teb) * pow2(tmb)) by (nonlinear_arith)
            requires
                t == (pow2(teb) - 1) * pow2(tmb),
                pow2(tmb) > 0,
                pow2(teb) > 0,
        ;
        vstd::arithmetic::div_mod::lemma_small_mod(t, pow2(teb + tmb));
        vstd::arithmetic::div_mod::lemma_basic_div(t as int, pow2(teb + tmb) as int);
        assert(narrow_f64(x, teb, tmb, tbias) == 0 * pow2(teb + tmb) + t);
    } else {
        let u = units(b, eb, mb, bias);
        let t = encode_value(u, teb, tmb, tbias);
        lemma_encode_exact_in(b, eb, mb, bias, teb, tmb, tbias);
        lemma_narrow_decoded_exact(b, eb, mb, bias, t, teb, tmb, tbias);
        vstd::arithmetic::div_mod::lemma_basic_div(t as int, pow2(teb + tmb) as int);
        lemma_units_binade(t, teb, tmb, tbias);
        lemma_units_binade(b, eb, mb, bias);
        lemma_encode_units_roundtrip(b, eb, mb, bias);
    }
}

/// A non-NaN binary64 pattern with a clear sign bit, read as an E11M52 pattern,
/// decodes to itself and encodes back to itself.
pub proof fn lemma_self_encode(b: nat)
    requires
        in_width(b, 11, 52),
        !is_nan_bits(b, 11, 52),
    ensures
        encode_f64(decode_f64(b, 11, 52, 1023), 11, 52, 1023) == b,
{
    lemma2_to64();
    lemma2_to64_rest();
    lemma_pow2_adds(11, 52);
    lemma_split(b, 11, 52);
    vstd::arithmetic::div_mod::lemma_basic_div(b as int, pow2(63) as int);
    if is_inf_bits(b, 11, 52) {
        assert(b == 2047 * pow2(52) + 0);
    } else {
        lemma_encode_units_roundtrip(b, 11, 52, 1023);
        lemma_units_binade(b, 11, 52, 1023);
        assert(decode_f64(b, 11, 52, 1023) == b);
    }
}

/// Encoding never produces a negative value or a negative zero: every negative number
/// and negative infinity become the layout's NaN, and both zeros become zero.
pub proof fn lemma_sign_handling(x: nat, seb: nat, smb: nat, sbias: int, eb: nat, mb: nat, bias: int)
    requires
        encodable(eb, mb, bias),
        seb >= 1,
        sign_bit(x, seb, smb) == 1,
    ensures
        (exp_field(x, seb, smb) == 0 && man_field(x, smb) == 0) ==> encode_float(x, seb, smb, sbias, eb, mb, bias) == 0,
        !(exp_field(x, seb, smb) == 0 && man_field(x, smb) == 0) ==> encode_float(x, seb, smb, sbias, eb, mb, bias) == nan_bits(eb, mb),
        is_nan_bits(nan_bits(eb, mb), eb, mb),
{
    lemma_pow2_pos(mb);
    lemma_pow2_pos(eb);
    lemma_pow2_strictly_increases((mb - 1) as nat, mb);
    lemma_pow2_pos((mb - 1) as nat);
    lemma_pow2_strictly_increases(0, seb);
    lemma2_to64();
    lemma_fields(max_exp(eb), pow2((mb - 1) as nat), eb, mb);
    assert(nan_bits(eb, mb) == max_exp(eb) * pow2(mb) + pow2((mb - 1) as nat));
}

/// Positive values at or above `2^(emax + 1)`, where `emax` is the layout's largest
/// unbiased exponent, encode to infinity.
pub proof fn lemma_overflow_becomes_infinity(u: nat, eb: nat, mb: nat, bias: int)
    requires
        encodable(eb, mb, bias),
        u >= pow2((max_exp(eb) - bias + 1074) as nat),
    ensures
        encode_value(u, eb, mb, bias) == inf_bits(eb, mb),
{
    lemma_pow2_pos((max_exp(eb) - bias + 1074) as nat);
    lemma_log2_bounds(u);
    if log2(u) + bias < max_exp(eb) + 1074 {
        lemma_pow2_strictly_increases(log2(u) + 1, (max_exp(eb) - bias + 1074) as nat);
    }
    crate::codec::lemma_encode_overflow(u, eb, mb, bias);
}

/// A checked conversion refuses no finite value of a layout: a finite non-negative
/// binary64 value with the value of a finite pattern, and encoding to that pattern,
/// passes every check.
pub proof fn lemma_checked_accepts(b: nat, eb: nat, mb: nat, bias: int, value: nat)
    requires
        bias + mb <= 1075,
        in_width(b, eb, mb),
        is_finite_bits(b, eb, mb),
        value < pow2(63),
        is_finite_bits(value, 11, 52),
        units(value, 11, 52, 1023) == units(b, eb, mb, bias),
    ensures
        crate::convert::conversion_outcome(value, b, eb, mb) == None::<crate::convert::ConversionError>,
{
    lemma2_to64();
    lemma_pow2_pos(mb);
    lemma_pow2_pos(eb);
    vstd::arithmetic::div_mod::lemma_basic_div(value as int, pow2(63) as int);
    assert(crate::model::f64_sign(value) == 0);
    lemma_split(b, eb, mb);
    lemma_units_binade(b, eb, mb, bias);
    lemma_units_binade(value, 11, 52, 1023);
    if b == inf_bits(eb, mb) {
        vstd::arithmetic::power2::lemma_pow2_strictly_increases(0, eb);
        lemma_fields(max_exp(eb), 0, eb, mb);
        assert(inf_bits(eb, mb) == max_exp(eb) * pow2(mb) + 0);
    }
    if b == 0 {
        assert(exp_field(b, eb, mb) == 0 && man_field(b, mb) == 0) by {
            lemma_fields(0, 0, eb, mb);
            assert(0 * pow2(mb) + 0 == 0);
        }
    }
}

} // verus!
