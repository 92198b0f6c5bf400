//! Arithmetic of the 32-bit layout: the exact result, rounded once to nearest with
//! ties to even.
//!
//! Binary64 carries more than twice the bits of a 25-bit significand plus two, and
//! its range holds every exact result, so computing in binary64 and then rounding to
//! the layout gives these same patterns (`promoted.rs` proves it).
use vstd::prelude::*;
use vstd::arithmetic::power2::{pow2, lemma2_to64, lemma2_to64_rest, lemma_pow2_adds, lemma_pow2_pos, lemma_pow2_strictly_increases};
use crate::model::{log2, rne, quantum, units, exp_field, man_field, inf_bits, nan_bits, encode_value, is_nan_bits, is_inf_bits, is_finite_bits, lemma_log2_bounds};
use crate::bitfacts::{lemma_u64_shr, lemma_u64_mask, lemma_u64_one_shl, lemma_u64_shl};
use crate::codec::encode_finite;
use crate::uf32::Uf32E8M24;
use core::ops::{Add, Sub, Mul, Div};
use vstd::std_specs::ops::{AddSpecImpl, SubSpecImpl, MulSpecImpl, DivSpecImpl};
use crate::arith8::{rne_ratio, sum_bits, difference_bits, product_bits, quotient_bits, lemma_sticky_rounding, lemma_sticky_binade, lemma_div_scaled};

verus! {

/// Facts about the 32-bit layout's constants.
proof fn lemma_e8m24_constants()
    ensures
        pow2(24) == 0x100_0000,
        pow2(25) == 0x200_0000,
        pow2(8) == 256,
        inf_bits(8, 24) == 0xff00_0000,
        nan_bits(8, 24) == 0xff80_0000,
        crate::model::max_exp(8) == 255,
        crate::model::encodable(8, 24, 127),
        crate::model::sub_shift(24, 127) == 924,
{
    lemma2_to64();
}

/// A finite 32-bit pattern as `sig * 2^exp`: its value in units is
/// `sig * 2^(exp + 1074)`; a normal number has `exp > -150` and a 25-bit `sig`.
fn decompose32(bits: u32) -> (r: (u64, i32))
    requires
        is_finite_bits(bits as nat, 8, 24),
    ensures
        units(bits as nat, 8, 24, 127) == r.0 * pow2((r.1 + 1074) as nat),
        r.0 < 0x200_0000,
        -150 <= r.1 <= 103,
        r.1 > -150 ==> r.0 >= 0x100_0000,
        (r.0 == 0) == (units(bits as nat, 8, 24, 127) == 0),
        r.1 == (if exp_field(bits as nat, 8, 24) == 0 { 1int } else { exp_field(bits as nat, 8, 24) as int }) - 151,
{
    let x = bits as u64;
    proof {
        lemma_e8m24_constants();
        lemma_u64_shr(x, 24);
        lemma_u64_mask(x >> 24u32, 8);
        lemma_u64_mask(x, 24);
        lemma_u64_one_shl(8);
        lemma_u64_one_shl(24);
        vstd::arithmetic::div_mod::lemma_mod_pos_bound(bits as int, pow2(24) as int);
        vstd::arithmetic::div_mod::lemma_mod_pos_bound((bits as nat / pow2(24)) as int, 256);
        crate::model::lemma_units_binade(bits as nat, 8, 24, 127);
    }
    let e = (x >> 24u32) & ((1u64 << 8u32) - 1);
    let m = x & ((1u64 << 24u32) - 1);
    assert(e == exp_field(bits as nat, 8, 24));
    assert(m == man_field(bits as nat, 24));
    if e == 0 {
        (m, -150)
    } else {
        (m + 0x100_0000, e as i32 - 151)
    }
}

/// Whether a 32-bit pattern is NaN, and whether it is infinite.
fn classify32(bits: u32) -> (r: (bool, bool))
    ensures
        r.0 == is_nan_bits(bits as nat, 8, 24),
        r.1 == is_inf_bits(bits as nat, 8, 24),
{
    let x = bits as u64;
    proof {
        lemma_e8m24_constants();
        lemma_u64_shr(x, 24);
        lemma_u64_mask(x >> 24u32, 8);
        lemma_u64_mask(x, 24);
        lemma_u64_one_shl(8);
        lemma_u64_one_shl(24);
    }
    let e = (x >> 24u32) & ((1u64 << 8u32) - 1);
    let m = x & ((1u64 << 24u32) - 1);
    (e == 255 && m != 0, e == 255 && m == 0)
}

/// `n / 2^q` rounded as a ratio over one is `n / 2^q` rounded.
proof fn lemma_rne_ratio_one(n: nat, q: nat)
    requires
        q >= 1,
    ensures
        rne_ratio(n, 1, q) == rne(n, q),
{
    vstd::arithmetic::power2::lemma_pow2_unfold(q);
    lemma_pow2_pos(q);
}

/// Rounding a whole number through a sticky bit: with `F = floor(s / 2^(j+1))`
/// holding at least `mb + 2` bits, `(2F + sticky) * 2^j` encodes as `s` does.
pub(crate) proof fn lemma_sticky_integer(s: nat, j: nat, f: nat, st: nat, eb: nat, mb: nat, bias: int)
    requires
        s / pow2(j + 1) == f,
        (s % pow2(j + 1) != 0) == (st == 1),
        st <= 1,
        f >= pow2(mb + 1),
    ensures
        encode_value(s, eb, mb, bias) == encode_value((2 * f + st) * pow2(j), eb, mb, bias),
{
    lemma_pow2_pos(j + 1);
    lemma_pow2_pos(mb + 1);
    assert(1 * pow2(j + 1) == pow2(j + 1));
    assert(s / 1 == s);
    lemma_sticky_binade(s, 1, j);
    lemma_log2_bounds(f);
    if log2(f) < mb + 1 {
        lemma_pow2_strictly_increases(log2(f) + 1, mb + 1);
    }
    let q = quantum(s, mb, bias);
    lemma_sticky_rounding(s, 1, j, q);
    lemma_rne_ratio_one(s, q);
    vstd::arithmetic::div_mod::lemma_fundamental_div_mod(s as int, pow2(j + 1) as int);
    assert(s >= pow2(j + 1)) by (nonlinear_arith)
        requires
            s == pow2(j + 1) * f + s % pow2(j + 1),
            s % pow2(j + 1) >= 0,
            f >= 1,
    ;
    lemma_pow2_pos(j);
    assert((2 * f + st) * pow2(j) > 0) by (nonlinear_arith)
        requires
            f >= 1,
            pow2(j) > 0,
    ;
}

/// The larger of two finite patterns has the larger or equal exponent field.
proof fn lemma_exponent_order(hi: nat, lo: nat)
    requires
        lo <= hi < pow2(32),
    ensures
        exp_field(lo, 8, 24) <= exp_field(hi, 8, 24),
{
    lemma_e8m24_constants();
    lemma_pow2_adds(8, 24);
    crate::model::lemma_split(hi, 8, 24);
    crate::model::lemma_split(lo, 8, 24);
    let eh = exp_field(hi, 8, 24);
    let el = exp_field(lo, 8, 24);
    assert(el <= eh) by (nonlinear_arith)
        requires
            hi == eh * pow2(24) + man_field(hi, 24),
            lo == el * pow2(24) + man_field(lo, 24),
            man_field(hi, 24) < pow2(24),
            man_field(lo, 24) < pow2(24),
            lo <= hi,
    ;
}

/// Moves `sig * 2^exp` to the lower exponent `low`.
proof fn lemma_align(sig: nat, exp: int, low: int)
    requires
        low <= exp,
        low + 1074 >= 0,
    ensures
        sig * pow2((exp + 1074) as nat) == (sig * pow2((exp - low) as nat)) * pow2((low + 1074) as nat),
{
    lemma_pow2_adds((exp - low) as nat, (low + 1074) as nat);
    vstd::arithmetic::mul::lemma_mul_is_associative(sig as int, pow2((exp - low) as nat) as int, pow2((low + 1074) as nat) as int);
}

/// Every encoded pattern of the 32-bit layout fits in 32 bits.
proof fn lemma_encoded_fits(u: nat)
    ensures
        encode_value(u, 8, 24, 127) <= 0xff00_0000,
{
    lemma_e8m24_constants();
}

/// The exact sum or difference of two values whose exponents `eh > el + 27` differ by
/// more than a significand: the smaller one only decides the sticky bit.
proof fn lemma_far_operands(sh: nat, eh: int, sl: nat, el: int)
    requires
        sh >= 0x100_0000,
        sh < 0x200_0000,
        sl < 0x200_0000,
        -150 <= el,
        el + 27 < eh <= 103,
    ensures
        ({
            let j = (eh + 1070) as nat;
            let hi = sh * pow2((eh + 1074) as nat);
            let lo = sl * pow2((el + 1074) as nat);
            &&& (hi + lo) / pow2(j + 1) == 8 * sh
            &&& ((hi + lo) % pow2(j + 1) != 0) == (sl != 0)
            &&& sl != 0 ==> ((hi - lo) as nat) / pow2(j + 1) == 8 * sh - 1
            &&& sl != 0 ==> ((hi - lo) as nat) % pow2(j + 1) != 0
            &&& lo < hi
        }),
{
    let j = (eh + 1070) as nat;
    let p = pow2(j + 1);
    let hi = sh * pow2((eh + 1074) as nat);
    let lo = sl * pow2((el + 1074) as nat);
    lemma_e8m24_constants();
    lemma_pow2_pos(j + 1);
    lemma_pow2_pos((el + 1074) as nat);
    lemma_pow2_adds(3, j + 1);
    lemma_pow2_adds(25, (el + 1074) as nat);
    lemma2_to64();
    assert(hi == (8 * sh) * p) by (nonlinear_arith)
        requires
            hi == sh * pow2((eh + 1074) as nat),
            pow2((eh + 1074) as nat) == pow2(3) * p,
            pow2(3) == 8,
    ;
    if (el + 1074 + 25) < j + 1 {
        lemma_pow2_strictly_increases((el + 1074 + 25) as nat, j + 1);
    }
    assert(lo < p) by (nonlinear_arith)
        requires
            lo == sl * pow2((el + 1074) as nat),
            sl < pow2(25),
            pow2(25) * pow2((el + 1074) as nat) <= p,
            pow2((el + 1074) as nat) > 0,
    ;
    vstd::arithmetic::div_mod::lemma_fundamental_div_mod_converse((hi + lo) as int, p as int, (8 * sh) as int, lo as int);
    assert(lo == 0 <==> sl == 0) by (nonlinear_arith)
        requires
            lo == sl * pow2((el + 1074) as nat),
            pow2((el + 1074) as nat) > 0,
    ;
    if sl != 0 {
        assert(hi - lo == (8 * sh - 1) * p + (p - lo)) by (nonlinear_arith)
            requires
                hi == (8 * sh) * p,
        ;
        vstd::arithmetic::div_mod::lemma_fundamental_div_mod_converse((hi - lo) as int, p as int, (8 * sh - 1) as int, (p - lo) as int);
    }
    assert(lo < hi) by (nonlinear_arith)
        requires
            hi == (8 * sh) * p,
            lo < p,
            sh >= 1,
    ;
}

/// `a + b` for E8M24 patterns.
pub fn add_uf32(a: u32, b: u32) -> (r: u32)
    ensures
        r == sum_bits(a as nat, b as nat, 8, 24, 127),
{
    proof {
        lemma_e8m24_constants();
    }
    let (a_nan, a_inf) = classify32(a);
    let (b_nan, b_inf) = classify32(b);
    if a_nan || b_nan {
        return 0xff80_0000;
    }
    if a_inf || b_inf {
        return 0xff00_0000;
    }
    proof {
        crate::model::lemma_classes(a as nat, 8, 24);
        crate::model::lemma_classes(b as nat, 8, 24);
    }
    let (hi, lo) = if a >= b { (a, b) } else { (b, a) };
    proof {
        lemma2_to64();
        lemma_exponent_order(hi as nat, lo as nat);
        lemma_encoded_fits(units(a as nat, 8, 24, 127) + units(b as nat, 8, 24, 127));
    }
    let (sh, eh) = decompose32(hi);
    let (sl, el) = decompose32(lo);
    let gap = eh - el;
    if gap <= 27 {
        proof {
            lemma_align(sh as nat, eh as int, el as int);
            if gap < 27 {
                lemma_pow2_strictly_increases(gap as nat, 27);
            }
            lemma_pow2_adds(25, 27);
            lemma_pow2_pos(gap as nat);
            vstd::arithmetic::mul::lemma_mul_strict_inequality(sh as int, 0x200_0000, pow2(gap as nat) as int);
            vstd::arithmetic::mul::lemma_mul_inequality(0x200_0000, 0x200_0000, pow2(gap as nat) as int);
            lemma_pow2_pos(gap as nat);
            lemma2_to64_rest();
            lemma_u64_shl(sh, gap as u32);
            vstd::arithmetic::mul::lemma_mul_is_distributive_add_other_way(pow2((el + 1074) as nat) as int, (sh * pow2(gap as nat)) as int, sl as int);
        }
        let s = (sh << (gap as u32)) + sl;
        if s == 0 {
            return 0;
        }
        return encode_finite(s, el, 255, 8, 24, 127) as u32;
    }
    let big = 16 * sh + (if sl != 0 { 1u64 } else { 0u64 });
    proof {
        lemma_far_operands(sh as nat, eh as int, sl as nat, el as int);
        let st: nat = if sl != 0 { 1 } else { 0 };
        lemma_pow2_strictly_increases(25, 27);
        lemma_sticky_integer(units(hi as nat, 8, 24, 127) + units(lo as nat, 8, 24, 127), (eh + 1070) as nat, (8 * sh) as nat, st, 8, 24, 127);
        lemma2_to64_rest();
    }
    encode_finite(big, eh - 4, 255, 8, 24, 127) as u32
}

/// `a - b` for E8M24 patterns.
pub fn sub_uf32(a: u32, b: u32) -> (r: u32)
    ensures
        r == difference_bits(a as nat, b as nat, 8, 24, 127),
{
    proof {
        lemma_e8m24_constants();
        lemma2_to64();
    }
    let (a_nan, a_inf) = classify32(a);
    let (b_nan, b_inf) = classify32(b);
    if a_nan || b_nan || b_inf {
        return 0xff80_0000;
    }
    if a_inf {
        return 0xff00_0000;
    }
    proof {
        crate::model::lemma_classes(a as nat, 8, 24);
        crate::model::lemma_classes(b as nat, 8, 24);
        lemma_pow2_adds(8, 24);
    }
    if a < b {
        proof {
            crate::model::lemma_units_strictly_increasing(a as nat, b as nat, 8, 24, 127);
        }
        return 0xff80_0000;
    }
    if a == b {
        return 0;
    }
    proof {
        crate::model::lemma_units_strictly_increasing(b as nat, a as nat, 8, 24, 127);
        lemma_exponent_order(a as nat, b as nat);
        lemma_encoded_fits((units(a as nat, 8, 24, 127) - units(b as nat, 8, 24, 127)) as nat);
    }
    let (sh, eh) = decompose32(a);
    let (sl, el) = decompose32(b);
    let gap = eh - el;
    if gap <= 27 {
        proof {
            lemma_align(sh as nat, eh as int, el as int);
            if gap < 27 {
                lemma_pow2_strictly_increases(gap as nat, 27);
            }
            lemma_pow2_adds(25, 27);
            lemma_pow2_pos(gap as nat);
            lemma_pow2_pos((el + 1074) as nat);
            vstd::arithmetic::mul::lemma_mul_strict_inequality(sh as int, 0x200_0000, pow2(gap as nat) as int);
            vstd::arithmetic::mul::lemma_mul_inequality(0x200_0000, 0x200_0000, pow2(gap as nat) as int);
            lemma2_to64_rest();
            lemma_u64_shl(sh, gap as u32);
            vstd::arithmetic::mul::lemma_mul_is_distributive_sub_other_way(pow2((el + 1074) as nat) as int, (sh * pow2(gap as nat)) as int, sl as int);
            let w = pow2((el + 1074) as nat);
            assert(sh * pow2(gap as nat) > sl) by (nonlinear_arith)
                requires
                    (sh * pow2(gap as nat)) * w > sl * w,
                    w > 0,
            ;
        }
        let s = (sh << (gap as u32)) - sl;
        return encode_finite(s, el, 255, 8, 24, 127) as u32;
    }
    if sl == 0 {
        proof {
            lemma2_to64_rest();
            assert(units(b as nat, 8, 24, 127) == 0);
        }
        return encode_finite(sh, eh, 255, 8, 24, 127) as u32;
    }
    let big = 16 * sh - 1;
    proof {
        lemma_far_operands(sh as nat, eh as int, sl as nat, el as int);
        lemma_pow2_strictly_increases(25, 27);
        lemma_sticky_integer((units(a as nat, 8, 24, 127) - units(b as nat, 8, 24, 127)) as nat, (eh + 1070) as nat, (8 * sh - 1) as nat, 1, 8, 24, 127);
        lemma2_to64_rest();
    }
    encode_finite(big, eh - 4, 255, 8, 24, 127) as u32
}

/// A pattern other than zero has a non-zero value, infinity and NaN included.
proof fn lemma_nonzero32(x: nat)
    requires
        x < 0x1_0000_0000,
        x != 0,
    ensures
        units(x, 8, 24, 127) != 0,
{
    lemma_e8m24_constants();
    lemma2_to64();
    lemma_pow2_adds(8, 24);
    crate::model::lemma_split(x, 8, 24);
    crate::model::lemma_units_binade(x, 8, 24, 127);
    if exp_field(x, 8, 24) == 0 && man_field(x, 24) == 0 {
        assert(x == 0 * pow2(24) + 0);
    }
}

/// `a * b` for E8M24 patterns.
pub fn mul_uf32(a: u32, b: u32) -> (r: u32)
    ensures
        r == product_bits(a as nat, b as nat, 8, 24, 127),
{
    proof {
        lemma_e8m24_constants();
        lemma2_to64();
    }
    let (a_nan, a_inf) = classify32(a);
    let (b_nan, b_inf) = classify32(b);
    if a_nan || b_nan {
        return 0xff80_0000;
    }
    if a_inf || b_inf {
        if a == 0 || b == 0 {
            proof {
                crate::model::lemma_fields(0, 0, 8, 24);
                crate::model::lemma_units_binade(0, 8, 24, 127);
            }
            return 0xff80_0000;
        }
        proof {
            lemma_nonzero32(a as nat);
            lemma_nonzero32(b as nat);
        }
        return 0xff00_0000;
    }
    proof {
        crate::model::lemma_classes(a as nat, 8, 24);
        crate::model::lemma_classes(b as nat, 8, 24);
    }
    let (sa, ea) = decompose32(a);
    let (sb, eb) = decompose32(b);
    let ghost ua = units(a as nat, 8, 24, 127);
    let ghost ub = units(b as nat, 8, 24, 127);
    if sa == 0 || sb == 0 {
        proof {
            assert(ua * ub == 0) by (nonlinear_arith)
                requires
                    ua == 0 || ub == 0,
            ;
            lemma_pow2_pos(1074);
        }
        return 0;
    }
    proof {
        assert(sa * sb < 0x200_0000 * 0x200_0000) by (nonlinear_arith)
            requires
                sa < 0x200_0000,
                sb < 0x200_0000,
        ;
    }
    let product = sa * sb;
    let exponent = ea + eb;
    proof {
        let pa = pow2((ea + 1074) as nat);
        let pb = pow2((eb + 1074) as nat);
        let pe = pow2((exponent + 1074) as nat);
        lemma_pow2_adds((ea + 1074) as nat, (eb + 1074) as nat);
        lemma_pow2_adds((exponent + 1074) as nat, 1074);
        lemma_pow2_pos(1074);
        assert(ua * ub == (product * pe) * pow2(1074)) by (nonlinear_arith)
            requires
                ua == sa * pa,
                ub == sb * pb,
                pa * pb == pe * pow2(1074),
                product == sa * sb,
        ;
        vstd::arithmetic::div_mod::lemma_div_by_multiple((product * pe) as int, pow2(1074) as int);
        assert(product > 0) by (nonlinear_arith)
            requires
                product == sa * sb,
                sa > 0,
                sb > 0,
        ;
        lemma2_to64_rest();
        lemma_pow2_adds(25, 25);
        lemma_pow2_strictly_increases(50, 53);
        lemma_encoded_fits(product as nat * pe);
    }
    encode_finite(product, exponent, 255, 8, 24, 127) as u32
}

/// `a / b` for E8M24 patterns.
pub fn div_uf32(a: u32, b: u32) -> (r: u32)
    ensures
        r == quotient_bits(a as nat, b as nat, 8, 24, 127),
{
    proof {
        lemma_e8m24_constants();
        lemma2_to64();
    }
    let (a_nan, a_inf) = classify32(a);
    let (b_nan, b_inf) = classify32(b);
    if a_nan || b_nan {
        return 0xff80_0000;
    }
    if a_inf {
        if b_inf {
            return 0xff80_0000;
        }
        return 0xff00_0000;
    }
    if b_inf {
        return 0;
    }
    proof {
        crate::model::lemma_classes(a as nat, 8, 24);
        crate::model::lemma_classes(b as nat, 8, 24);
    }
    let (sa, ea) = decompose32(a);
    let (sb, eb) = decompose32(b);
    if sb == 0 {
        if sa == 0 {
            return 0xff80_0000;
        }
        return 0xff00_0000;
    }
    if sa == 0 {
        proof {
            let ua = units(a as nat, 8, 24, 127);
            assert(ua * pow2(1074) == 0) by (nonlinear_arith)
                requires
                    ua == 0,
            ;
        }
        return 0;
    }
    let ghost ua = units(a as nat, 8, 24, 127);
    let ghost ub = units(b as nat, 8, 24, 127);
    let ghost n = ua * pow2(1074);
    let ghost d = ub;
    let la = crate::codec::floor_log2(sa);
    let lb = crate::codec::floor_log2(sb);
    proof {
        lemma_log2_bounds(sa as nat);
        lemma_log2_bounds(sb as nat);
        if log2(sa as nat) >= 25 {
            lemma_pow2_strictly_increases(25, log2(sa as nat));
        }
        if log2(sb as nat) >= 25 {
            lemma_pow2_strictly_increases(25, log2(sb as nat));
        }
    }
    let k: u32 = 27 + lb - la;
    proof {
        lemma_pow2_adds(la as nat + 1, k as nat);
        lemma_pow2_pos(k as nat);
        vstd::arithmetic::mul::lemma_mul_strict_inequality(sa as int, pow2(la as nat + 1) as int, pow2(k as nat) as int);
        lemma_pow2_strictly_increases(28 + lb as nat, 64);
        lemma2_to64_rest();
        crate::bitfacts::lemma_u128_shl_is_mul(sa as u128, k);
    }
    let scaled = (sa as u128) << k;
    let f = scaled / (sb as u128);
    let rem = scaled % (sb as u128);
    let ghost w = pow2((ea + 2148 - k) as nat);
    let ghost j = (ea - eb - k - 1 + 1074) as nat;
    proof {
        // The whole quotient has from 27 to 28 bits.
        lemma_pow2_adds(la as nat, k as nat);
        lemma_pow2_adds(26, lb as nat + 1);
        lemma_pow2_adds(28, lb as nat);
        vstd::arithmetic::mul::lemma_mul_inequality(pow2(la as nat) as int, sa as int, pow2(k as nat) as int);
        lemma_pow2_pos(26);
        lemma_pow2_pos(28);
        vstd::arithmetic::mul::lemma_mul_strict_inequality(sb as int, pow2(lb as nat + 1) as int, pow2(26) as int);
        vstd::arithmetic::mul::lemma_mul_inequality(pow2(lb as nat) as int, sb as int, pow2(28) as int);
        assert(scaled >= pow2(26) * sb);
        assert(scaled < pow2(28) * sb);
        vstd::arithmetic::div_mod::lemma_div_is_ordered((pow2(26) * sb) as int, scaled as int, sb as int);
        vstd::arithmetic::div_mod::lemma_div_multiples_vanish(pow2(26) as int, sb as int);
        vstd::arithmetic::div_mod::lemma_fundamental_div_mod(scaled as int, sb as int);
        vstd::arithmetic::div_mod::lemma_mod_pos_bound(scaled as int, sb as int);
        assert(f < pow2(28)) by (nonlinear_arith)
            requires
                scaled == sb * f + rem,
                scaled < pow2(28) * sb,
                rem >= 0,
                sb > 0,
        ;
        // The ratio's numerator and the sticky division's divisor share the factor `w`.
        lemma_pow2_pos((ea + 2148 - k) as nat);
        lemma_pow2_adds((ea + 1074) as nat, 1074);
        lemma_pow2_adds(k as nat, (ea + 2148 - k) as nat);
        lemma_pow2_adds((eb + 1074) as nat, j + 1);
        assert(n == (scaled as nat) * w) by (nonlinear_arith)
            requires
                n == ua * pow2(1074),
                ua == sa * pow2((ea + 1074) as nat),
                pow2((ea + 1074) as nat) * pow2(1074) == pow2((ea + 2148) as nat),
                pow2(k as nat) * w == pow2((ea + 2148) as nat),
                scaled == sa * pow2(k as nat),
        ;
        let c = d * pow2(j + 1);
        assert(c == (sb as nat) * w) by (nonlinear_arith)
            requires
                c == d * pow2(j + 1),
                d == sb * pow2((eb + 1074) as nat),
                pow2((eb + 1074) as nat) * pow2(j + 1) == w,
        ;
        lemma_div_scaled(scaled as nat, sb as nat, w);
        assert((n % c != 0) == (rem != 0)) by (nonlinear_arith)
            requires
                n % c == rem * w,
                w > 0,
        ;
    }
    let big = (2 * f + (if rem != 0 { 1u128 } else { 0u128 })) as u64;
    let exponent = ea - eb - k as i32 - 1;
    proof {
        lemma_sticky_binade(n, d, j);
        crate::model::lemma_log2_bounds(f as nat);
        if log2(f as nat) < 26 {
            lemma_pow2_strictly_increases(log2(f as nat) + 1, 26);
        }
        let q = quantum(n / d, 24, 127);
        lemma_sticky_rounding(n, d, j, q);
        lemma2_to64_rest();
        lemma_pow2_strictly_increases(29, 53);
        lemma_pow2_adds(28, 1);
        lemma_encoded_fits((big as nat) * pow2(j));
        lemma_pow2_pos(j);
        assert(big * pow2(j) > 0) by (nonlinear_arith)
            requires
                big >= 1,
                pow2(j) > 0,
        ;
        assert(n > 0) by (nonlinear_arith)
            requires
                n == scaled * w,
                scaled > 0,
                w > 0,
        ;
    }
    encode_finite(big, exponent, 255, 8, 24, 127) as u32
}

impl Add for Uf32E8M24 {
    type Output = Self;

    fn add(self, rhs: Self) -> (r: Self) {
        let r = Uf32E8M24::from_bits(add_uf32(self.to_bits(), rhs.to_bits()));
        proof {
            Uf32E8M24::lemma_with_bits(r@, r);
        }
        r
    }
}

impl AddSpecImpl for Uf32E8M24 {
    open spec fn obeys_add_spec() -> bool {
        true
    }

    open spec fn add_req(self, rhs: Self) -> bool {
        true
    }

    open spec fn add_spec(self, rhs: Self) -> Self {
        Uf32E8M24::with_bits(sum_bits(self@ as nat, rhs@ as nat, 8, 24, 127) as u32)
    }
}

impl Sub for Uf32E8M24 {
    type Output = Self;

    fn sub(self, rhs: Self) -> (r: Self) {
        let r = Uf32E8M24::from_bits(sub_uf32(self.to_bits(), rhs.to_bits()));
        proof {
            Uf32E8M24::lemma_with_bits(r@, r);
        }
        r
    }
}

impl SubSpecImpl for Uf32E8M24 {
    open spec fn obeys_sub_spec() -> bool {
        true
    }

    open spec fn sub_req(self, rhs: Self) -> bool {
        true
    }

    open spec fn sub_spec(self, rhs: Self) -> Self {
        Uf32E8M24::with_bits(difference_bits(self@ as nat, rhs@ as nat, 8, 24, 127) as u32)
    }
}

impl Mul for Uf32E8M24 {
    type Output = Self;

    fn mul(self, rhs: Self) -> (r: Self) {
        let r = Uf32E8M24::from_bits(mul_uf32(self.to_bits(), rhs.to_bits()));
        proof {
            Uf32E8M24::lemma_with_bits(r@, r);
        }
        r
    }
}

impl MulSpecImpl for Uf32E8M24 {
    open spec fn obeys_mul_spec() -> bool {
        true
    }

    open spec fn mul_req(self, rhs: Self) -> bool {
        true
    }

    open spec fn mul_spec(self, rhs: Self) -> Self {
        Uf32E8M24::with_bits(product_bits(self@ as nat, rhs@ as nat, 8, 24, 127) as u32)
    }
}

impl Div for Uf32E8M24 {
    type Output = Self;

    fn div(self, rhs: Self) -> (r: Self) {
        let r = Uf32E8M24::from_bits(div_uf32(self.to_bits(), rhs.to_bits()));
        proof {
            Uf32E8M24::lemma_with_bits(r@, r);
        }
        r
    }
}

impl DivSpecImpl for Uf32E8M24 {
    open spec fn obeys_div_spec() -> bool {
        true
    }

    open spec fn div_req(self, rhs: Self) -> bool {
        true
    }

    open spec fn div_spec(self, rhs: Self) -> Self {
        Uf32E8M24::with_bits(quotient_bits(self@ as nat, rhs@ as nat, 8, 24, 127) as u32)
    }
}

} // verus!
