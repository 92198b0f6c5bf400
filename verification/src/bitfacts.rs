//! Facts relating shifts and masks on 128-bit words to arithmetic on powers of two.
use vstd::prelude::*;
use vstd::arithmetic::power2::{pow2, lemma2_to64, lemma2_to64_rest, lemma_pow2_adds, lemma_pow2_pos, lemma_pow2_strictly_increases};
use vstd::arithmetic::div_mod::lemma_fundamental_div_mod;
use vstd::arithmetic::mul::lemma_mul_is_associative;
use vstd::bits::{lemma_u128_shr_is_div, lemma_u64_shr_is_div, lemma_u64_shl_is_mul, lemma_u64_low_bits_mask_is_mod, lemma_u64_pow2_no_overflow};

verus! {

/// `2^k` is below `2^128` for every shift amount of a 128-bit word.
pub proof fn lemma_pow2_below_u128(k: nat)
    requires
        k < 128,
    ensures
        0 < pow2(k) <= 0x8000_0000_0000_0000_0000_0000_0000_0000,
{
    lemma_pow2_pos(k);
    assert(pow2(127) == 0x8000_0000_0000_0000_0000_0000_0000_0000) by {
        lemma2_to64();
        lemma2_to64_rest();
        lemma_pow2_adds(64, 63);
    }
    if k < 127 {
        lemma_pow2_strictly_increases(k, 127);
    }
}

/// `1 << k` on a 128-bit word is `2^k`.
pub proof fn lemma_u128_one_shl(k: u32)
    requires
        k < 128,
    ensures
        (1u128 << k) == pow2(k as nat),
    decreases k,
{
    if k == 0 {
        assert((1u128 << 0u32) == 1u128) by (bit_vector);
        lemma2_to64();
    } else {
        let j: u32 = (k - 1) as u32;
        assert((1u128 << k) == 2 * (1u128 << j)) by (bit_vector)
            requires
                j + 1 == k,
                k < 128,
        ;
        lemma_u128_one_shl(j);
        lemma_pow2_adds(j as nat, 1);
        lemma2_to64();
    }
}

/// Shifting a 128-bit word left multiplies it by `2^k` when nothing is shifted out.
pub proof fn lemma_u128_shl_is_mul(x: u128, k: u32)
    requires
        k < 128,
        x * pow2(k as nat) <= u128::MAX,
    ensures
        (x << k) == x * pow2(k as nat),
    decreases k,
{
    if k == 0 {
        assert((x << k) == x) by (bit_vector)
            requires
                k == 0,
        ;
        lemma2_to64();
    } else {
        let j: u32 = (k - 1) as u32;
        lemma_pow2_adds(j as nat, 1);
        lemma2_to64();
        lemma_pow2_pos(j as nat);
        lemma_mul_is_associative(x as int, pow2(j as nat) as int, 2);
        assert(x * pow2(j as nat) <= u128::MAX);
        lemma_u128_shl_is_mul(x, j);
        let y: u128 = x << j;
        assert(y * 2 <= u128::MAX);
        assert((x << k) == 2 * (x << j)) by (bit_vector)
            requires
                j + 1 == k,
                k < 128,
                (x << j) * 2 <= u128::MAX,
        ;
        assert(pow2(k as nat) == pow2(j as nat) * 2);
        assert(x * pow2(k as nat) == (x * pow2(j as nat)) * 2);
        assert((x << k) == x * pow2(k as nat));
    }
}

/// Right shift and low mask of a 128-bit word are quotient and remainder by `2^k`.
pub proof fn lemma_u128_split(x: u128, k: u32)
    requires
        k < 128,
    ensures
        (x >> k) == x as nat / pow2(k as nat),
        (x & (((1u128 << k) - 1) as u128)) == x as nat % pow2(k as nat),
{
    lemma_u128_shr_is_div(x, k as u128);
    assert((x >> k) == (x >> (k as u128))) by (bit_vector);
    lemma_u128_one_shl(k);
    lemma_pow2_below_u128(k as nat);
    let q: u128 = x >> k;
    let m: u128 = x & (((1u128 << k) - 1) as u128);
    assert(((x >> k) << k) + (x & (((1u128 << k) - 1) as u128)) == x && (x & (((1u128 << k) - 1) as u128)) < (1u128 << k)) by (bit_vector)
        requires
            k < 128,
    ;
    lemma_fundamental_div_mod(x as int, pow2(k as nat) as int);
    let d = pow2(k as nat);
    assert(q * d <= x) by {
        lemma_fundamental_div_mod(x as int, d as int);
        vstd::arithmetic::div_mod::lemma_mod_pos_bound(x as int, d as int);
        vstd::arithmetic::mul::lemma_mul_is_commutative(q as int, d as int);
    }
    lemma_u128_shl_is_mul(q, k);
    assert(m == x - q * d);
    vstd::arithmetic::mul::lemma_mul_is_commutative(q as int, d as int);
}

/// `1 << k` on a 64-bit word is `2^k`.
pub proof fn lemma_u64_one_shl(k: u32)
    requires
        k < 64,
    ensures
        (1u64 << k) == pow2(k as nat),
        pow2(k as nat) <= 0x8000_0000_0000_0000,
{
    lemma_u64_pow2_no_overflow(k as nat);
    lemma_u64_shl_is_mul(1, k as u64);
    assert((1u64 << k) == (1u64 << (k as u64))) by (bit_vector);
    lemma2_to64_rest();
    if k < 63 {
        lemma_pow2_strictly_increases(k as nat, 63);
    }
}

/// Shifting a 64-bit word left multiplies it by `2^k` when nothing is shifted out.
pub proof fn lemma_u64_shl(x: u64, k: u32)
    requires
        k < 64,
        x * pow2(k as nat) <= u64::MAX,
    ensures
        (x << k) == x * pow2(k as nat),
{
    lemma_u64_shl_is_mul(x, k as u64);
    assert((x << k) == (x << (k as u64))) by (bit_vector);
}

/// Shifting a 64-bit word right divides it by `2^k`.
pub proof fn lemma_u64_shr(x: u64, k: u32)
    requires
        k < 64,
    ensures
        (x >> k) == x as nat / pow2(k as nat),
{
    lemma_u64_shr_is_div(x, k as u64);
    assert((x >> k) == (x >> (k as u64))) by (bit_vector);
}

/// Masking a 64-bit word with `2^k - 1` is the remainder by `2^k`.
pub proof fn lemma_u64_mask(x: u64, k: u32)
    requires
        k < 64,
    ensures
        (x & (((1u64 << k) - 1) as u64)) == x as nat % pow2(k as nat),
{
    lemma_u64_one_shl(k);
    lemma_u64_low_bits_mask_is_mod(x, k as nat);
    lemma_pow2_pos(k as nat);
}

/// A field placed above `k` clear low bits combines with them by addition.
pub proof fn lemma_u64_compose(a: u64, m: u64, k: u32)
    requires
        k < 64,
        m < pow2(k as nat),
        a * pow2(k as nat) <= u64::MAX,
    ensures
        ((a << k) | m) == a * pow2(k as nat) + m,
{
    lemma_u64_one_shl(k);
    lemma_u64_shl(a, k);
    assert(((a << k) | m) == (a << k) + m) by (bit_vector)
        requires
            k < 64,
            m < (1u64 << k),
    ;
}

/// The high half of a 128-bit word is its quotient by `2^64`.
pub proof fn lemma_u128_shr_split(x: u128)
    ensures
        ((x >> 64u32) as u64) as nat == x as nat / pow2(64),
        x as nat == ((x >> 64u32) as u64) as nat * pow2(64) + x as nat % pow2(64),
        x as nat % pow2(64) < pow2(64),
        (x >> 64u32) as u64 == 0 ==> x < pow2(64),
{
    lemma_u128_split(x, 64);
    assert(((x >> 64u32) as u64) as u128 == (x >> 64u32)) by (bit_vector);
    lemma2_to64_rest();
    lemma_pow2_pos(64);
    lemma_fundamental_div_mod(x as int, pow2(64) as int);
    vstd::arithmetic::div_mod::lemma_mod_pos_bound(x as int, pow2(64) as int);
    vstd::arithmetic::mul::lemma_mul_is_commutative((x as nat / pow2(64)) as int, pow2(64) as int);
}

} // verus!
