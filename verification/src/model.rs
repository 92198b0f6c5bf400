//! Mathematical model of unsigned floating-point bit patterns.
//!
//! A layout has `eb` exponent bits, `mb` mantissa bits and an exponent bias; a bit
//! pattern holds the mantissa in its low `mb` bits and the exponent above them, with
//! no sign bit. IEEE binary64 without its sign is the layout `(11, 52, 1023)`.
//!
//! Every finite value of every supported layout is a whole multiple of `2^-1074`, the
//! smallest binary64 step, so values are modelled as natural numbers of such steps
//! ("units").
use vstd::prelude::*;
use vstd::arithmetic::power2::{pow2, lemma2_to64, lemma_pow2_adds, lemma_pow2_pos, lemma_pow2_strictly_increases, lemma_pow2_unfold};
use vstd::arithmetic::div_mod::{lemma_fundamental_div_mod, lemma_fundamental_div_mod_converse, lemma_mod_pos_bound, lemma_div_denominator, lemma_small_mod};
use vstd::arithmetic::mul::{lemma_mul_inequality, lemma_mul_strict_inequality, lemma_mul_is_associative, lemma_mul_is_commutative};

verus! {

/// Position of the highest set bit of a positive integer (`floor(log2(n))`).
pub open spec fn log2(n: nat) -> nat
    decreases n,
{
    if n < 2 {
        0
    } else {
        1 + log2(n / 2)
    }
}

/// The exponent field of a bit pattern.
pub open spec fn exp_field(bits: nat, eb: nat, mb: nat) -> nat {
    (bits / pow2(mb)) % pow2(eb)
}

/// The mantissa field of a bit pattern.
pub open spec fn man_field(bits: nat, mb: nat) -> nat {
    bits % pow2(mb)
}

/// The all-ones exponent field that marks infinity and NaN.
pub open spec fn max_exp(eb: nat) -> nat {
    (pow2(eb) - 1) as nat
}

/// How many binary64 steps (as a power of two) make one subnormal step of the layout.
pub open spec fn sub_shift(mb: nat, bias: int) -> nat {
    (1075 - bias - mb) as nat
}

/// The value of a finite bit pattern, counted in steps of `2^-1074`.
pub open spec fn units(bits: nat, eb: nat, mb: nat, bias: int) -> nat {
    let e = exp_field(bits, eb, mb);
    let m = man_field(bits, mb);
    if e == 0 {
        m * pow2(sub_shift(mb, bias))
    } else {
        (pow2(mb) + m) * pow2((e - 1 + sub_shift(mb, bias)) as nat)
    }
}

/// The pattern is a NaN: all-ones exponent, non-zero mantissa.
pub open spec fn is_nan_bits(bits: nat, eb: nat, mb: nat) -> bool {
    exp_field(bits, eb, mb) == max_exp(eb) && man_field(bits, mb) != 0
}

/// The pattern is infinity: all-ones exponent, zero mantissa.
pub open spec fn is_inf_bits(bits: nat, eb: nat, mb: nat) -> bool {
    exp_field(bits, eb, mb) == max_exp(eb) && man_field(bits, mb) == 0
}

/// The pattern is a finite number (zero, subnormal or normal).
pub open spec fn is_finite_bits(bits: nat, eb: nat, mb: nat) -> bool {
    exp_field(bits, eb, mb) != max_exp(eb)
}

/// The canonical infinity of a layout.
pub open spec fn inf_bits(eb: nat, mb: nat) -> nat {
    max_exp(eb) * pow2(mb)
}

/// The canonical quiet NaN of a layout: infinity with the top mantissa bit set.
pub open spec fn nan_bits(eb: nat, mb: nat) -> nat {
    inf_bits(eb, mb) + pow2((mb - 1) as nat)
}

/// `u / 2^q` rounded to the nearest integer, ties to the even one.
pub open spec fn rne(u: nat, q: nat) -> nat {
    if q == 0 {
        u
    } else {
        let d = u / pow2(q);
        let r = u % pow2(q);
        let half = pow2((q - 1) as nat);
        if r > half || (r == half && d % 2 == 1) {
            d + 1
        } else {
            d
        }
    }
}

/// The step, as a power of two in units, of the layout's numbers near the positive value `u`.
pub open spec fn quantum(u: nat, mb: nat, bias: int) -> nat {
    if log2(u) >= mb + sub_shift(mb, bias) {
        (log2(u) - mb) as nat
    } else {
        sub_shift(mb, bias)
    }
}

/// The bit pattern of the positive value `u` rounded to the layout's nearest number,
/// ties to even, before any overflow check. Patterns of finite numbers grow by one per
/// step, so a value `n * 2^q` has the pattern `(q - s) * 2^mb + n`.
pub open spec fn round_bits(u: nat, mb: nat, bias: int) -> nat {
    let q = quantum(u, mb, bias);
    ((q - sub_shift(mb, bias)) as nat) * pow2(mb) + rne(u, q)
}

/// The bit pattern of a non-negative value `u` (in units) in the layout: rounded to
/// nearest, ties to even, and infinity when the rounded value is out of range.
pub open spec fn encode_value(u: nat, eb: nat, mb: nat, bias: int) -> nat {
    if u == 0 {
        0
    } else if round_bits(u, mb, bias) >= inf_bits(eb, mb) {
        inf_bits(eb, mb)
    } else {
        round_bits(u, mb, bias)
    }
}

/// The sign bit of a signed float pattern with `seb` exponent and `smb` mantissa bits.
pub open spec fn sign_bit(x: nat, seb: nat, smb: nat) -> nat {
    x / pow2(seb + smb)
}

/// The sign bit of a binary64 pattern.
pub open spec fn f64_sign(x: nat) -> nat {
    sign_bit(x, 11, 52)
}

/// The pattern that a signed IEEE value (bits `x` of the format `(seb, smb, sbias)`)
/// encodes to in the layout `(eb, mb, bias)`: NaN for NaN and for every negative
/// number, infinity for positive infinity, zero for either zero, and otherwise the
/// rounded value.
pub open spec fn encode_float(x: nat, seb: nat, smb: nat, sbias: int, eb: nat, mb: nat, bias: int) -> nat {
    if exp_field(x, seb, smb) == max_exp(seb) {
        if man_field(x, smb) == 0 && sign_bit(x, seb, smb) == 0 {
            inf_bits(eb, mb)
        } else {
            nan_bits(eb, mb)
        }
    } else if exp_field(x, seb, smb) == 0 && man_field(x, smb) == 0 {
        0
    } else if sign_bit(x, seb, smb) == 1 {
        nan_bits(eb, mb)
    } else {
        encode_value(units(x, seb, smb, sbias), eb, mb, bias)
    }
}

/// The pattern that a binary64 value (given by its bits) encodes to.
pub open spec fn encode_f64(x: nat, eb: nat, mb: nat, bias: int) -> nat {
    encode_float(x, 11, 52, 1023, eb, mb, bias)
}

/// The binary64 bits of the value of a pattern: the canonical NaN for a NaN,
/// infinity for infinity, and otherwise the binary64 pattern of the same value.
pub open spec fn decode_f64(bits: nat, eb: nat, mb: nat, bias: int) -> nat {
    if is_nan_bits(bits, eb, mb) {
        0x7ff8_0000_0000_0000
    } else if is_inf_bits(bits, eb, mb) {
        0x7ff0_0000_0000_0000
    } else {
        encode_value(units(bits, eb, mb, bias), 11, 52, 1023)
    }
}

/// The binary64 bits of a signed IEEE value of the format `(seb, smb, sbias)`: the
/// same sign and the same value (the canonical NaN for any NaN).
pub open spec fn widen_f64(x: nat, seb: nat, smb: nat, sbias: int) -> nat {
    sign_bit(x, seb, smb) * pow2(63) + decode_f64(x, seb, smb, sbias)
}

/// The bits of a binary64 value in the signed IEEE format `(eb, mb, bias)`: the same
/// sign, and the magnitude rounded to nearest with ties to even (infinity on overflow,
/// the canonical quiet NaN for NaN).
pub open spec fn narrow_f64(x: nat, eb: nat, mb: nat, bias: int) -> nat {
    f64_sign(x) * pow2(eb + mb) + encode_f64(x % pow2(63), eb, mb, bias)
}

/// A layout whose numbers are whole multiples of the unit: its bias may be negative,
/// which models a layout of finer numbers with all values scaled up by a power of two.
pub open spec fn scaled_layout(eb: nat, mb: nat, bias: int) -> bool {
    &&& 1 <= eb <= 11
    &&& 1 <= mb <= 52
    &&& bias + mb <= 1075
}

/// A layout the binary64 encoder handles.
pub open spec fn encodable(eb: nat, mb: nat, bias: int) -> bool {
    &&& scaled_layout(eb, mb, bias)
    &&& 0 <= bias
}

/// A layout whose every number is a normal binary64 number.
pub open spec fn decodable(eb: nat, mb: nat, bias: int) -> bool {
    &&& encodable(eb, mb, bias)
    &&& bias + mb <= 1023
    &&& pow2(eb) <= bias + 1025
}

// ---------------------------------------------------------------------------------
// Lemmas

/// `2^log2(n) <= n < 2^(log2(n) + 1)` for every positive `n`.
pub proof fn lemma_log2_bounds(n: nat)
    requires
        n >= 1,
    ensures
        pow2(log2(n)) <= n < pow2(log2(n) + 1),
    decreases n,
{
    if n < 2 {
        lemma2_to64();
    } else {
        lemma_log2_bounds(n / 2);
        lemma_pow2_unfold(log2(n));
        lemma_pow2_unfold(log2(n) + 1);
    }
}

/// A number between `2^k` and `2^(k+1)` has `log2` equal to `k`.
pub proof fn lemma_log2_unique(n: nat, k: nat)
    requires
        pow2(k) <= n < pow2(k + 1),
    ensures
        log2(n) == k,
{
    lemma_pow2_pos(k);
    lemma_log2_bounds(n);
    if log2(n) < k {
        if log2(n) + 1 < k {
            lemma_pow2_strictly_increases(log2(n) + 1, k);
        }
    } else if log2(n) > k {
        if k + 1 < log2(n) {
            lemma_pow2_strictly_increases(k + 1, log2(n));
        }
    }
}

/// Scaling by `2^a` adds `a` to `log2`.
pub proof fn lemma_log2_scaled(n: nat, a: nat)
    requires
        n >= 1,
    ensures
        log2(n * pow2(a)) == log2(n) + a,
{
    let k = log2(n);
    lemma_log2_bounds(n);
    lemma_pow2_pos(a);
    lemma_pow2_adds(k, a);
    lemma_pow2_adds(k + 1, a);
    lemma_mul_inequality(pow2(k) as int, n as int, pow2(a) as int);
    lemma_mul_strict_inequality(n as int, pow2(k + 1) as int, pow2(a) as int);
    lemma_log2_unique(n * pow2(a), k + a);
}

/// A multiple of `2^q` is rounded exactly.
pub proof fn lemma_rne_exact(n: nat, q: nat)
    ensures
        rne(n * pow2(q), q) == n,
{
    lemma_pow2_pos(q);
    if q == 0 {
        lemma2_to64();
        let p = pow2(q);
        assert(p == 1);
        assert(n * p == n) by (nonlinear_arith)
            requires
                p == 1,
        ;
    } else {
        lemma_fundamental_div_mod_converse((n * pow2(q)) as int, pow2(q) as int, n as int, 0);
        lemma_pow2_pos((q - 1) as nat);
        assert((n * pow2(q)) / pow2(q) == n);
        assert((n * pow2(q)) % pow2(q) == 0);
    }
}

/// Rounding is unchanged when both the value and the step are scaled by `2^a`.
pub proof fn lemma_rne_scaled(n: nat, a: nat, k: nat)
    ensures
        rne(n * pow2(a), k + a) == rne(n, k),
{
    lemma_pow2_pos(a);
    lemma_pow2_pos(k);
    if k == 0 {
        lemma_rne_exact(n, a);
        lemma2_to64();
    } else {
        let q = k + a;
        lemma_pow2_adds(k, a);
        lemma_pow2_adds((k - 1) as nat, a);
        let d = n / pow2(k);
        let r = n % pow2(k);
        lemma_fundamental_div_mod(n as int, pow2(k) as int);
        lemma_mod_pos_bound(n as int, pow2(k) as int);
        let pa = pow2(a);
        let pk = pow2(k);
        let ph = pow2((k - 1) as nat);
        assert(n * pa == d * (pk * pa) + r * pa && r * pa < pk * pa) by (nonlinear_arith)
            requires
                n == pk * d + r,
                r < pk,
                pa > 0,
        ;
        lemma_fundamental_div_mod_converse((n * pa) as int, (pk * pa) as int, d as int, (r * pa) as int);
        assert((r * pa > ph * pa) == (r > ph)) by (nonlinear_arith)
            requires
                pa > 0,
        ;
        assert((r * pa == ph * pa) == (r == ph)) by (nonlinear_arith)
            requires
                pa > 0,
        ;
    }
}

/// Rounding a value below half a step gives zero.
pub proof fn lemma_rne_small(u: nat, q: nat)
    requires
        2 * u < pow2(q),
    ensures
        rne(u, q) == 0,
{
    if q == 0 {
        lemma2_to64();
    } else {
        lemma_pow2_unfold(q);
        lemma_fundamental_div_mod_converse(u as int, pow2(q) as int, 0, u as int);
    }
}

/// Rounding lies between the quotient and the quotient plus one.
pub proof fn lemma_rne_between(u: nat, q: nat)
    ensures
        u / pow2(q) <= rne(u, q) <= u / pow2(q) + 1,
        u % pow2(q) == 0 ==> rne(u, q) == u / pow2(q),
{
    lemma_pow2_pos(q);
    if q == 0 {
        lemma2_to64();
    } else {
        lemma_pow2_pos((q - 1) as nat);
    }
}

/// Values in `[2^(q+k), 2^(q+k+1))` round to a number in `[2^k, 2^(k+1)]`.
pub proof fn lemma_rne_binade(u: nat, q: nat, k: nat)
    requires
        pow2(q + k) <= u < pow2(q + k + 1),
    ensures
        pow2(k) <= rne(u, q) <= pow2(k + 1),
{
    lemma_rne_between(u, q);
    lemma_pow2_adds(q, k);
    lemma_pow2_adds(q, k + 1);
    lemma_pow2_pos(q);
    let pq = pow2(q);
    lemma_fundamental_div_mod(u as int, pq as int);
    lemma_mod_pos_bound(u as int, pq as int);
    let d = u / pq;
    let r = u % pq;
    assert(pow2(k) <= d < pow2(k + 1)) by (nonlinear_arith)
        requires
            u == pq * d + r,
            r < pq,
            pq * pow2(k) <= u < pq * pow2(k + 1),
            pq > 0,
    ;
}

/// Values below `2^(q+k)` round to at most `2^k`.
pub proof fn lemma_rne_below(u: nat, q: nat, k: nat)
    requires
        u < pow2(q + k),
    ensures
        rne(u, q) <= pow2(k),
{
    lemma_rne_between(u, q);
    lemma_pow2_adds(q, k);
    lemma_pow2_pos(q);
    let pq = pow2(q);
    lemma_fundamental_div_mod(u as int, pq as int);
    lemma_mod_pos_bound(u as int, pq as int);
    let d = u / pq;
    let r = u % pq;
    assert(d < pow2(k)) by (nonlinear_arith)
        requires
            u == pq * d + r,
            r < pq,
            u < pq * pow2(k),
            pq > 0,
    ;
}

/// A pattern `e * 2^mb + m` with `m < 2^mb` and `e < 2^eb` has fields `e` and `m`.
pub proof fn lemma_fields(e: nat, m: nat, eb: nat, mb: nat)
    requires
        m < pow2(mb),
        e < pow2(eb),
    ensures
        exp_field(e * pow2(mb) + m, eb, mb) == e,
        man_field(e * pow2(mb) + m, mb) == m,
{
    lemma_pow2_pos(mb);
    lemma_mul_is_commutative(e as int, pow2(mb) as int);
    lemma_fundamental_div_mod_converse((e * pow2(mb) + m) as int, pow2(mb) as int, e as int, m as int);
    lemma_fundamental_div_mod_converse(e as int, pow2(eb) as int, 0, e as int);
}

/// The pattern fits the layout's `eb + mb` bits.
pub open spec fn in_width(t: nat, eb: nat, mb: nat) -> bool {
    t < pow2(eb + mb)
}

/// A pattern within the layout's width is its exponent field above its mantissa field.
pub proof fn lemma_split(t: nat, eb: nat, mb: nat)
    requires
        in_width(t, eb, mb),
    ensures
        t == exp_field(t, eb, mb) * pow2(mb) + man_field(t, mb),
        man_field(t, mb) < pow2(mb),
        exp_field(t, eb, mb) < pow2(eb),
        exp_field(t, eb, mb) == t / pow2(mb),
{
    lemma_pow2_pos(mb);
    lemma_pow2_pos(eb);
    lemma_pow2_adds(mb, eb);
    lemma_fundamental_div_mod(t as int, pow2(mb) as int);
    lemma_mod_pos_bound(t as int, pow2(mb) as int);
    lemma_div_denominator(t as int, pow2(mb) as int, pow2(eb) as int);
    let d = t / pow2(mb);
    assert(d < pow2(eb)) by {
        lemma_pow2_adds(eb, mb);
        vstd::arithmetic::div_mod::lemma_div_by_multiple_is_strongly_ordered(t as int, (pow2(eb) * pow2(mb)) as int, pow2(eb) as int, pow2(mb) as int);
        vstd::arithmetic::div_mod::lemma_div_by_multiple(pow2(eb) as int, pow2(mb) as int);
        lemma_mul_is_commutative(pow2(mb) as int, pow2(eb) as int);
    }
    lemma_small_mod(d, pow2(eb));
    lemma_mul_is_commutative(d as int, pow2(mb) as int);
}

/// The value of a finite pattern with exponent field `e` lies in its binade:
/// below `2^(mb+s)` for `e == 0`, else in `[2^(mb+e-1+s), 2^(mb+e+s))`.
pub proof fn lemma_units_binade(t: nat, eb: nat, mb: nat, bias: int)
    requires
        bias + mb <= 1075,
    ensures
        exp_field(t, eb, mb) == 0 ==> units(t, eb, mb, bias) < pow2(mb + sub_shift(mb, bias)),
        exp_field(t, eb, mb) > 0 ==> pow2((mb + exp_field(t, eb, mb) - 1 + sub_shift(mb, bias)) as nat) <= units(t, eb, mb, bias),
        exp_field(t, eb, mb) > 0 ==> units(t, eb, mb, bias) < pow2(mb + exp_field(t, eb, mb) + sub_shift(mb, bias)),
        units(t, eb, mb, bias) == 0 <==> (exp_field(t, eb, mb) == 0 && man_field(t, mb) == 0),
{
    let e = exp_field(t, eb, mb);
    let m = man_field(t, mb);
    let s = sub_shift(mb, bias);
    lemma_pow2_pos(mb);
    lemma_mod_pos_bound(t as int, pow2(mb) as int);
    lemma_pow2_pos(s);
    if e == 0 {
        lemma_pow2_adds(mb, s);
        lemma_mul_strict_inequality(m as int, pow2(mb) as int, pow2(s) as int);
        if m != 0 {
            assert(m * pow2(s) > 0) by (nonlinear_arith)
                requires
                    m > 0,
                    pow2(s) > 0,
            ;
        } else {
            assert(m * pow2(s) == 0) by (nonlinear_arith)
                requires
                    m == 0,
            ;
        }
    } else {
        let k = (e - 1 + s) as nat;
        lemma_pow2_pos(k);
        lemma_pow2_adds(mb, k);
        lemma_pow2_adds(mb + 1, k);
        lemma_pow2_unfold(mb + 1);
        lemma_mul_inequality(pow2(mb) as int, (pow2(mb) + m) as int, pow2(k) as int);
        lemma_mul_strict_inequality((pow2(mb) + m) as int, pow2(mb + 1) as int, pow2(k) as int);
        assert(mb + e - 1 + s == mb + k);
        assert(mb + e + s == mb + 1 + k);
        lemma_pow2_pos((mb + e - 1 + s) as nat);
    }
}

/// Raw-bit order is value order: among finite patterns within the layout's width, a
/// larger pattern always has a larger value.
pub proof fn lemma_units_strictly_increasing(a: nat, b: nat, eb: nat, mb: nat, bias: int)
    requires
        bias + mb <= 1075,
        a < b,
        in_width(b, eb, mb),
        is_finite_bits(b, eb, mb),
    ensures
        units(a, eb, mb, bias) < units(b, eb, mb, bias),
{
    lemma_pow2_pos(mb);
    lemma_pow2_pos(eb);
    lemma_split(b, eb, mb);
    lemma_split(a, eb, mb);
    let ea = exp_field(a, eb, mb);
    let e2 = exp_field(b, eb, mb);
    let ma = man_field(a, mb);
    let m2 = man_field(b, mb);
    let s = sub_shift(mb, bias);
    lemma_units_binade(a, eb, mb, bias);
    lemma_units_binade(b, eb, mb, bias);
    assert(ea <= e2) by (nonlinear_arith)
        requires
            a == ea * pow2(mb) + ma,
            b == e2 * pow2(mb) + m2,
            ma < pow2(mb),
            m2 < pow2(mb),
            a < b,
    ;
    if ea == e2 {
        assert(ma < m2);
        if ea == 0 {
            lemma_pow2_pos(s);
            lemma_mul_strict_inequality(ma as int, m2 as int, pow2(s) as int);
        } else {
            let k = (ea - 1 + s) as nat;
            lemma_pow2_pos(k);
            lemma_mul_strict_inequality((pow2(mb) + ma) as int, (pow2(mb) + m2) as int, pow2(k) as int);
        }
    } else {
        if ea == 0 {
            if e2 > 1 {
                lemma_pow2_strictly_increases(mb + s, (mb + e2 - 1 + s) as nat);
            }
        } else {
            if mb + ea + s < mb + e2 - 1 + s {
                lemma_pow2_strictly_increases(mb + ea + s, (mb + e2 - 1 + s) as nat);
            }
        }
    }
}

/// Values whose rounding step divides them encode exactly: the pattern is finite and
/// has the same value.
pub proof fn lemma_encode_value_exact(u: nat, eb: nat, mb: nat, bias: int)
    requires
        1 <= eb,
        bias + mb <= 1075,
        u >= 1,
        u % pow2(quantum(u, mb, bias)) == 0,
        round_bits(u, mb, bias) < inf_bits(eb, mb),
    ensures
        encode_value(u, eb, mb, bias) == round_bits(u, mb, bias),
        in_width(round_bits(u, mb, bias), eb, mb),
        is_finite_bits(round_bits(u, mb, bias), eb, mb),
        units(round_bits(u, mb, bias), eb, mb, bias) == u,
{
    let q = quantum(u, mb, bias);
    let s = sub_shift(mb, bias);
    let t = round_bits(u, mb, bias);
    lemma_pow2_pos(q);
    lemma_pow2_pos(mb);
    lemma_pow2_pos(eb);
    lemma_rne_between(u, q);
    let n = u / pow2(q);
    lemma_fundamental_div_mod(u as int, pow2(q) as int);
    assert(u == n * pow2(q));
    lemma_log2_bounds(u);
    assert(inf_bits(eb, mb) < pow2(eb) * pow2(mb)) by (nonlinear_arith)
        requires
            inf_bits(eb, mb) == (pow2(eb) - 1) * pow2(mb),
            pow2(mb) > 0,
    ;
    lemma_pow2_adds(eb, mb);
    if log2(u) >= mb + s {
        assert(q + mb == log2(u));
        lemma_rne_binade(u, q, mb);
        lemma_pow2_unfold(mb + 1);
        assert(pow2(mb) <= n < pow2(mb + 1)) by {
            lemma_pow2_adds(q, mb);
            lemma_pow2_adds(q, mb + 1);
            lemma_mul_is_commutative(n as int, pow2(q) as int);
            vstd::arithmetic::mul::lemma_mul_strict_inequality_converse(n as int, pow2(mb + 1) as int, pow2(q) as int);
            vstd::arithmetic::mul::lemma_mul_inequality_converse(pow2(mb) as int, n as int, pow2(q) as int);
        }
        let e = (q - s + 1) as nat;
        let m = (n - pow2(mb)) as nat;
        assert(t == e * pow2(mb) + m) by (nonlinear_arith)
            requires
                t == (q - s) * pow2(mb) + n,
                e == q - s + 1,
                m == n - pow2(mb),
        ;
        assert(e < max_exp(eb)) by (nonlinear_arith)
            requires
                t == e * pow2(mb) + m,
                t < max_exp(eb) * pow2(mb),
                pow2(mb) > 0,
        ;
        lemma_fields(e, m, eb, mb);
        assert(units(t, eb, mb, bias) == (pow2(mb) + m) * pow2((e - 1 + s) as nat));
        assert((e - 1 + s) as nat == q);
    } else {
        assert(q == s);
        assert(u < pow2(s + mb)) by {
            if log2(u) + 1 < s + mb {
                lemma_pow2_strictly_increases(log2(u) + 1, s + mb);
            }
        }
        lemma_pow2_adds(s, mb);
        assert(n < pow2(mb)) by {
            lemma_mul_is_commutative(n as int, pow2(q) as int);
            lemma_mul_is_commutative(pow2(mb) as int, pow2(q) as int);
            vstd::arithmetic::mul::lemma_mul_strict_inequality_converse(n as int, pow2(mb) as int, pow2(q) as int);
        }
        assert(t == 0 * pow2(mb) + n);
        lemma_fields(0, n, eb, mb);
    }
}

/// Every finite pattern within the layout's width is what its own value encodes to.
pub proof fn lemma_encode_units_roundtrip(t: nat, eb: nat, mb: nat, bias: int)
    requires
        scaled_layout(eb, mb, bias),
        in_width(t, eb, mb),
        is_finite_bits(t, eb, mb),
    ensures
        encode_value(units(t, eb, mb, bias), eb, mb, bias) == t,
{
    let u = units(t, eb, mb, bias);
    lemma_units_binade(t, eb, mb, bias);
    lemma_split(t, eb, mb);
    if u == 0 {
        assert(t == 0 * pow2(mb) + 0);
    } else {
        let e = exp_field(t, eb, mb);
        let m = man_field(t, mb);
        let s = sub_shift(mb, bias);
        let q: nat = if e == 0 { s } else { (e - 1 + s) as nat };
        let n: nat = if e == 0 { m } else { pow2(mb) + m };
        assert(u == n * pow2(q));
        lemma_log2_bounds(u);
        if e == 0 {
            if log2(u) >= mb + s {
                lemma_pow2_strictly_increases(mb + s, log2(u));
            }
            assert(quantum(u, mb, bias) == q);
        } else {
            lemma_log2_unique(u, mb + q);
            assert(quantum(u, mb, bias) == q);
        }
        lemma_rne_exact(n, q);
        lemma_pow2_pos(q);
        vstd::arithmetic::div_mod::lemma_mod_multiples_basic(n as int, pow2(q) as int);
        assert(round_bits(u, mb, bias) == t) by (nonlinear_arith)
            requires
                round_bits(u, mb, bias) == (q - s) * pow2(mb) + n,
                t == e * pow2(mb) + m,
                e == 0 ==> (q == s && n == m),
                e != 0 ==> (q == e - 1 + s && n == pow2(mb) + m),
        ;
        lemma_pow2_pos(mb);
        assert(t < inf_bits(eb, mb)) by (nonlinear_arith)
            requires
                t == e * pow2(mb) + m,
                m < pow2(mb),
                e < max_exp(eb),
                inf_bits(eb, mb) == max_exp(eb) * pow2(mb),
        ;
    }
}

/// A sign bit placed above a pattern leaves its fields alone.
pub proof fn lemma_signed_fields(sgn: nat, y: nat, eb: nat, mb: nat, bias: int)
    requires
        sgn <= 1,
        in_width(y, eb, mb),
    ensures
        exp_field(sgn * pow2(eb + mb) + y, eb, mb) == exp_field(y, eb, mb),
        man_field(sgn * pow2(eb + mb) + y, mb) == man_field(y, mb),
        sign_bit(sgn * pow2(eb + mb) + y, eb, mb) == sgn,
        units(sgn * pow2(eb + mb) + y, eb, mb, bias) == units(y, eb, mb, bias),
{
    let x = sgn * pow2(eb + mb) + y;
    lemma_pow2_pos(mb);
    lemma_pow2_pos(eb);
    lemma_pow2_adds(eb, mb);
    lemma_fundamental_div_mod_converse(x as int, pow2(eb + mb) as int, sgn as int, y as int);
    lemma_split(y, eb, mb);
    let e = exp_field(y, eb, mb);
    let m = man_field(y, mb);
    assert(x == (sgn * pow2(eb) + e) * pow2(mb) + m) by (nonlinear_arith)
        requires
            x == sgn * pow2(eb + mb) + y,
            y == e * pow2(mb) + m,
            pow2(eb + mb) == pow2(eb) * pow2(mb),
    ;
    lemma_fundamental_div_mod_converse(x as int, pow2(mb) as int, (sgn * pow2(eb) + e) as int, m as int);
    lemma_fundamental_div_mod_converse((sgn * pow2(eb) + e) as int, pow2(eb) as int, sgn as int, e as int);
}

/// Every result of the encoder fits the layout's width.
pub proof fn lemma_encode_float_in_width(x: nat, seb: nat, smb: nat, sbias: int, eb: nat, mb: nat, bias: int)
    requires
        encodable(eb, mb, bias),
    ensures
        in_width(encode_float(x, seb, smb, sbias, eb, mb, bias), eb, mb),
{
    lemma_pow2_pos(mb);
    lemma_pow2_pos(eb);
    lemma_pow2_adds(eb, mb);
    lemma_pow2_strictly_increases((mb - 1) as nat, mb);
    assert(nan_bits(eb, mb) < pow2(eb) * pow2(mb)) by (nonlinear_arith)
        requires
            nan_bits(eb, mb) == (pow2(eb) - 1) * pow2(mb) + pow2((mb - 1) as nat),
            pow2((mb - 1) as nat) < pow2(mb),
    ;
}

/// The layouts of this crate and the IEEE formats it converts through are all handled
/// by the codec.
pub proof fn lemma_layouts()
    ensures
        decodable(4, 4, 7),
        decodable(5, 3, 15),
        decodable(5, 11, 15),
        decodable(6, 10, 31),
        decodable(8, 24, 127),
        decodable(8, 23, 127),
        decodable(5, 10, 15),
        encodable(11, 52, 1023),
{
    lemma2_to64();
}

/// Moving a normal number to a layout with at least as many mantissa bits keeps its
/// value: the mantissa is shifted up and the exponent re-biased.
pub proof fn lemma_rebias_normal(e: nat, m: nat, mb: nat, bias: int, tm: nat, tbias: int)
    requires
        m < pow2(mb),
        mb <= tm,
        e >= 1,
        e - bias + tbias >= 1,
        tbias + tm <= 1075,
        bias + mb <= 1075,
    ensures
        m * pow2((tm - mb) as nat) < pow2(tm),
        (pow2(tm) + m * pow2((tm - mb) as nat)) * pow2((e - bias + tbias - 1 + sub_shift(tm, tbias)) as nat)
            == (pow2(mb) + m) * pow2((e - 1 + sub_shift(mb, bias)) as nat),
{
    let pm = pow2(mb);
    let pr = pow2((tm - mb) as nat);
    let k = (e - bias + tbias - 1 + sub_shift(tm, tbias)) as nat;
    lemma_pow2_adds(mb, (tm - mb) as nat);
    lemma_pow2_pos((tm - mb) as nat);
    lemma_mul_strict_inequality(m as int, pm as int, pr as int);
    assert(pow2(tm) + m * pr == (pm + m) * pr) by (nonlinear_arith)
        requires
            pow2(tm) == pm * pr,
    ;
    lemma_mul_is_associative((pm + m) as int, pr as int, pow2(k) as int);
    lemma_pow2_adds((tm - mb) as nat, k);
}

/// Every pattern is exactly one of NaN, infinity and a finite number; zero and the
/// subnormal patterns are finite.
pub proof fn lemma_classes(b: nat, eb: nat, mb: nat)
    requires
        eb >= 1,
    ensures
        is_nan_bits(b, eb, mb) || is_inf_bits(b, eb, mb) || is_finite_bits(b, eb, mb),
        !(is_nan_bits(b, eb, mb) && is_inf_bits(b, eb, mb)),
        !(is_nan_bits(b, eb, mb) && is_finite_bits(b, eb, mb)),
        !(is_inf_bits(b, eb, mb) && is_finite_bits(b, eb, mb)),
        b == 0 ==> is_finite_bits(b, eb, mb),
        (exp_field(b, eb, mb) == 0 && man_field(b, mb) != 0) ==> (is_finite_bits(b, eb, mb) && b != 0),
{
    lemma_pow2_pos(mb);
    lemma_pow2_strictly_increases(0, eb);
    lemma2_to64();
    if b == 0 {
        assert(exp_field(b, eb, mb) == 0) by {
            vstd::arithmetic::div_mod::lemma_div_of0(pow2(mb) as int);
            lemma_pow2_pos(eb);
            lemma_small_mod(0, pow2(eb));
        }
    }
    if b == 0 {
        lemma_small_mod(0, pow2(mb));
    }
}

/// A subnormal mantissa `m` with top bit `top` becomes a normal number of a layout
/// with at least as many mantissa bits: its bits below the top one become the new
/// mantissa and the top bit's position the new exponent.
pub proof fn lemma_rebias_subnormal(m: nat, top: nat, mb: nat, bias: int, tm: nat, tbias: int, fe: nat, fm: nat)
    requires
        pow2(top) <= m < pow2(top + 1),
        top <= tm,
        fe == top + 1 - bias - mb + tbias,
        fe >= 1,
        fm == (m - pow2(top)) * pow2((tm - top) as nat),
        tbias + tm <= 1075,
        bias + mb <= 1075,
    ensures
        fm < pow2(tm),
        (pow2(tm) + fm) * pow2((fe - 1 + sub_shift(tm, tbias)) as nat) == m * pow2(sub_shift(mb, bias)),
{
    let pt = pow2(top);
    let pr = pow2((tm - top) as nat);
    let k = (fe - 1 + sub_shift(tm, tbias)) as nat;
    lemma_pow2_adds(top, (tm - top) as nat);
    lemma_pow2_unfold(top + 1);
    lemma_pow2_pos((tm - top) as nat);
    lemma_mul_strict_inequality((m - pt) as int, pt as int, pr as int);
    assert(pow2(tm) + fm == m * pr) by (nonlinear_arith)
        requires
            pow2(tm) == pt * pr,
            fm == (m - pt) * pr,
            pt <= m,
    ;
    lemma_mul_is_associative(m as int, pr as int, pow2(k) as int);
    lemma_pow2_adds((tm - top) as nat, k);
}

/// `rne(u, q)` is a nearest multiple count: `u` is within half a step of
/// `rne(u, q) * 2^q`, and exactly half a step away only when `rne(u, q)` is even.
pub proof fn lemma_rne_nearest(u: nat, q: nat)
    requires
        q >= 1,
    ensures
        2 * (if u >= rne(u, q) * pow2(q) { u - rne(u, q) * pow2(q) } else { rne(u, q) * pow2(q) - u }) <= pow2(q),
        2 * (if u >= rne(u, q) * pow2(q) { u - rne(u, q) * pow2(q) } else { rne(u, q) * pow2(q) - u }) == pow2(q) ==> rne(u, q) % 2 == 0,
{
    let p = pow2(q);
    let h = pow2((q - 1) as nat);
    lemma_pow2_unfold(q);
    lemma_pow2_pos(q);
    let d = u / p;
    let r = u % p;
    lemma_fundamental_div_mod(u as int, p as int);
    lemma_mod_pos_bound(u as int, p as int);
    let n = rne(u, q);
    if r > h || (r == h && d % 2 == 1) {
        assert(n * p == d * p + p) by (nonlinear_arith)
            requires
                n == d + 1,
        ;
        assert(u == d * p + r) by {
            lemma_mul_is_commutative(d as int, p as int);
        }
    } else {
        assert(u == n * p + r) by {
            lemma_mul_is_commutative(d as int, p as int);
        }
    }
}

/// Rounding at a fixed step is monotone.
pub proof fn lemma_rne_monotone(u: nat, v: nat, q: nat)
    requires
        u <= v,
    ensures
        rne(u, q) <= rne(v, q),
{
    lemma_pow2_pos(q);
    if q > 0 {
        let p = pow2(q);
        lemma_fundamental_div_mod(u as int, p as int);
        lemma_fundamental_div_mod(v as int, p as int);
        lemma_mod_pos_bound(u as int, p as int);
        lemma_mod_pos_bound(v as int, p as int);
        vstd::arithmetic::div_mod::lemma_div_is_ordered(u as int, v as int, p as int);
        let du = u / p;
        let dv = v / p;
        if du == dv {
            let ru = u % p;
            let rv = v % p;
            assert(ru <= rv) by (nonlinear_arith)
                requires
                    u == p * du + ru,
                    v == p * dv + rv,
                    du == dv,
                    u <= v,
            ;
        }
    }
}

/// Encoding is monotone: a larger value never encodes to a smaller pattern.
pub proof fn lemma_encode_value_monotone(u: nat, v: nat, eb: nat, mb: nat, bias: int)
    requires
        1 <= eb,
        bias + mb <= 1075,
        u <= v,
    ensures
        encode_value(u, eb, mb, bias) <= encode_value(v, eb, mb, bias),
{
    if u > 0 {
        let s = sub_shift(mb, bias);
        let qu = quantum(u, mb, bias);
        let qv = quantum(v, mb, bias);
        lemma_log2_bounds(u);
        lemma_log2_bounds(v);
        if log2(v) + 1 < log2(u) {
            lemma_pow2_strictly_increases(log2(v) + 1, log2(u));
        }
        assert(log2(u) <= log2(v));
        lemma_pow2_pos(mb);
        if qu == qv {
            lemma_rne_monotone(u, v, qu);
        } else {
            assert(qu < qv);
            assert(log2(v) >= mb + s);
            assert(qv == log2(v) - mb);
            lemma_rne_binade(v, qv, mb);
            if log2(u) >= mb + s {
                lemma_rne_binade(u, qu, mb);
            } else {
                assert(u < pow2(qu + mb)) by {
                    if log2(u) + 1 < qu + mb {
                        lemma_pow2_strictly_increases(log2(u) + 1, qu + mb);
                    }
                }
                lemma_rne_below(u, qu, mb);
                lemma_pow2_unfold(mb + 1);
            }
            lemma_pow2_unfold(mb + 1);
            let ku = (qu - s) as nat;
            let kv = (qv - s) as nat;
            assert(ku * pow2(mb) + rne(u, qu) <= kv * pow2(mb) + rne(v, qv)) by (nonlinear_arith)
                requires
                    ku + 1 <= kv,
                    rne(u, qu) <= 2 * pow2(mb),
                    rne(v, qv) >= pow2(mb),
                    pow2(mb) > 0,
            ;
        }
    }
}

/// Lowering the bias by `k` counts every value `2^k` times finer.
pub proof fn lemma_units_rescaled(t: nat, eb: nat, mb: nat, bias: int, k: nat)
    requires
        bias + mb <= 1075,
    ensures
        units(t, eb, mb, bias - k) == units(t, eb, mb, bias) * pow2(k),
{
    let e = exp_field(t, eb, mb);
    let m = man_field(t, mb);
    let s = sub_shift(mb, bias);
    if e == 0 {
        lemma_pow2_adds(s, k);
        lemma_mul_is_associative(m as int, pow2(s) as int, pow2(k) as int);
    } else {
        lemma_pow2_adds((e - 1 + s) as nat, k);
        lemma_mul_is_associative((pow2(mb) + m) as int, pow2((e - 1 + s) as nat) as int, pow2(k) as int);
    }
}

/// Encoding does not depend on the unit: a value counted `2^k` times finer encodes,
/// in the layout with its bias lowered by `k`, to the same pattern.
pub proof fn lemma_encode_rescaled(u: nat, eb: nat, mb: nat, bias: int, k: nat)
    requires
        bias + mb <= 1075,
    ensures
        encode_value(u * pow2(k), eb, mb, bias - k) == encode_value(u, eb, mb, bias),
{
    lemma_pow2_pos(k);
    if u == 0 {
        assert(u * pow2(k) == 0);
    } else {
        assert(u * pow2(k) != 0) by (nonlinear_arith)
            requires
                u >= 1,
                pow2(k) > 0,
        ;
        lemma_log2_scaled(u, k);
        let q = quantum(u, mb, bias);
        assert(quantum(u * pow2(k), mb, bias - k) == q + k);
        lemma_rne_scaled(u, k, q);
    }
}

} // verus!
