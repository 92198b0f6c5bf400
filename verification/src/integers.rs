//! Checked conversion of integers, through their binary64 value as the cast `as f64`
//! gives it.
use vstd::prelude::*;
use vstd::arithmetic::power2::{pow2, lemma2_to64, lemma2_to64_rest, lemma_pow2_adds, lemma_pow2_pos, lemma_pow2_strictly_increases, lemma_pow2_unfold};
use vstd::arithmetic::mul::{lemma_mul_is_associative, lemma_mul_strict_inequality};
use crate::model::{log2, rne, quantum, round_bits, encode_value, inf_bits, units, in_width, is_finite_bits, lemma_log2_bounds, lemma_log2_unique, lemma_log2_scaled, lemma_rne_exact, lemma_rne_scaled, lemma_rne_binade};
use crate::codec::{floor_log2, round_shift};
use crate::bitfacts::{lemma_u128_shr_split, lemma_u128_one_shl};
use crate::convert::ConversionError;
use crate::uf8::{Uf8E4M4, Uf8E5M3};
use crate::uf16::{Uf16, Uf16E6M10};
use crate::uf32::Uf32E8M24;
use crate::uf64::Uf64E11M52;
use vstd::std_specs::convert::TryFromSpecImpl;
use vstd::std_specs::convert::TryFromSpec;

verus! {

/// Index of the highest set bit of a non-zero 128-bit value.
pub fn floor_log2_u128(value: u128) -> (r: u32)
    requires
        value > 0,
    ensures
        r == log2(value as nat),
        r < 128,
{
    let high = (value >> 64u32) as u64;
    proof {
        lemma_u128_shr_split(value);
        lemma2_to64_rest();
    }
    if high != 0 {
        let t = floor_log2(high);
        proof {
            lemma_log2_bounds(high as nat);
            if log2(high as nat) >= 64 {
                lemma_pow2_strictly_increases(64, log2(high as nat));
            }
        }
        let r = 64 + t;
        proof {
            lemma_pow2_adds(log2(high as nat), 64);
            lemma_pow2_adds(log2(high as nat) + 1, 64);
            lemma_pow2_pos(64);
            let p = pow2(64);
            let h = high as nat;
            let l = (value as nat) % p;
            assert(pow2(log2(h)) * p <= value && value < pow2(log2(h) + 1) * p) by (nonlinear_arith)
                requires
                    value == h * p + l,
                    l < p,
                    pow2(log2(h)) <= h < pow2(log2(h) + 1),
            ;
            lemma_log2_unique(value as nat, log2(h) + 64);
            if log2(h) >= 64 {
                lemma_pow2_strictly_increases(64, log2(h));
            }
        }
        r
    } else {
        proof {
            assert(value < pow2(64));
            assert(value as u64 == value);
            lemma_log2_bounds(value as nat);
            if log2(value as nat) >= 64 {
                lemma_pow2_strictly_increases(64, log2(value as nat));
            }
        }
        floor_log2(value as u64)
    }
}

/// The binary64 bits of a non-negative integer: the integer rounded to 53 significant
/// bits, to nearest with ties to even.
pub fn u128_to_f64(value: u128) -> (r: u64)
    ensures
        r == encode_value(value as nat * pow2(1074), 11, 52, 1023),
{
    if value == 0 {
        return 0;
    }
    let ghost v = value as nat;
    let ghost u = v * pow2(1074);
    let top = floor_log2_u128(value);
    let shift = 52 - top as i32;
    proof {
        lemma2_to64();
        lemma2_to64_rest();
        lemma_pow2_pos(1074);
        lemma_log2_bounds(v);
        lemma_log2_scaled(v, 1074);
        if top <= 52 {
            let sh = (52 - top) as nat;
            lemma_pow2_adds(top as nat + 1, sh);
            lemma_pow2_pos(sh);
            lemma_mul_strict_inequality(v as int, pow2(top as nat + 1) as int, pow2(sh) as int);
            lemma_pow2_strictly_increases(53, 128);
        }
    }
    let rounded = round_shift(value, shift);
    let ghost q = quantum(u, 52, 1023);
    proof {
        assert(q == top + 1022);
        lemma_log2_bounds(u);
        lemma_rne_binade(u, q, 52);
        if shift >= 0 {
            let sh = shift as nat;
            assert(1074 == q + sh);
            lemma_pow2_adds(sh, q);
            lemma_mul_is_associative(v as int, pow2(sh) as int, pow2(q) as int);
            lemma_rne_exact(v * pow2(sh), q);
        } else {
            let k = (-shift) as nat;
            assert(q == k + 1074);
            lemma_rne_scaled(v, 1074, k);
        }
        assert(rounded == rne(u, q));
        lemma_u128_one_shl(53);
        lemma_u128_one_shl(52);
        lemma_pow2_unfold(53);
    }
    let mut exp = top as u64 + 1023;
    let mut mantissa = rounded;
    if rounded == (1u128 << 53u32) {
        exp = exp + 1;
        mantissa = rounded >> 1u32;
        proof {
            assert(rounded >> 1u32 == rounded / 2) by (bit_vector);
        }
    }
    let fraction = (mantissa - (1u128 << 52u32)) as u64;
    proof {
        let n = rne(u, q);
        assert(round_bits(u, 52, 1023) == exp * pow2(52) + fraction) by (nonlinear_arith)
            requires
                round_bits(u, 52, 1023) == (q - 0) * pow2(52) + n,
                q == top + 1022,
                n == pow2(53) ==> (exp == top + 1024 && fraction == 0),
                n != pow2(53) ==> (exp == top + 1023 && fraction == n - pow2(52)),
                pow2(53) == 2 * pow2(52),
        ;
        assert(exp * pow2(52) + fraction < inf_bits(11, 52)) by (nonlinear_arith)
            requires
                exp <= 1151,
                fraction < pow2(52),
                inf_bits(11, 52) == 2047 * pow2(52),
        ;
        crate::bitfacts::lemma_u64_compose(exp, fraction, 52);
    }
    (exp << 52u32) | fraction
}

/// The binary64 bits of the non-negative integer `v`, rounded to nearest with ties to
/// even.
pub open spec fn int_to_f64(v: nat) -> nat {
    encode_value(v * pow2(1074), 11, 52, 1023)
}

impl TryFrom<u8> for Uf8E4M4 {
    type Error = ConversionError;

    fn try_from(value: u8) -> (r: Result<Self, ConversionError>) {
        Self::try_from_f64_bits(u128_to_f64(value as u128))
    }
}

impl TryFromSpecImpl<u8> for Uf8E4M4 {
    open spec fn obeys_try_from_spec() -> bool {
        true
    }

    open spec fn try_from_spec(v: u8) -> Result<Self, ConversionError> {
        Self::checked_from_f64(int_to_f64(v as nat))
    }
}

impl TryFrom<u16> for Uf8E4M4 {
    type Error = ConversionError;

    fn try_from(value: u16) -> (r: Result<Self, ConversionError>) {
        Self::try_from_f64_bits(u128_to_f64(value as u128))
    }
}

impl TryFromSpecImpl<u16> for Uf8E4M4 {
    open spec fn obeys_try_from_spec() -> bool {
        true
    }

    open spec fn try_from_spec(v: u16) -> Result<Self, ConversionError> {
        Self::checked_from_f64(int_to_f64(v as nat))
    }
}

impl TryFrom<u32> for Uf8E4M4 {
    type Error = ConversionError;

    fn try_from(value: u32) -> (r: Result<Self, ConversionError>) {
        Self::try_from_f64_bits(u128_to_f64(value as u128))
    }
}

impl TryFromSpecImpl<u32> for Uf8E4M4 {
    open spec fn obeys_try_from_spec() -> bool {
        true
    }

    open spec fn try_from_spec(v: u32) -> Result<Self, ConversionError> {
        Self::checked_from_f64(int_to_f64(v as nat))
    }
}

impl TryFrom<u64> for Uf8E4M4 {
    type Error = ConversionError;

    fn try_from(value: u64) -> (r: Result<Self, ConversionError>) {
        Self::try_from_f64_bits(u128_to_f64(value as u128))
    }
}

impl TryFromSpecImpl<u64> for Uf8E4M4 {
    open spec fn obeys_try_from_spec() -> bool {
        true
    }

    open spec fn try_from_spec(v: u64) -> Result<Self, ConversionError> {
        Self::checked_from_f64(int_to_f64(v as nat))
    }
}

impl TryFrom<u128> for Uf8E4M4 {
    type Error = ConversionError;

    fn try_from(value: u128) -> (r: Result<Self, ConversionError>) {
        Self::try_from_f64_bits(u128_to_f64(value as u128))
    }
}

impl TryFromSpecImpl<u128> for Uf8E4M4 {
    open spec fn obeys_try_from_spec() -> bool {
        true
    }

    open spec fn try_from_spec(v: u128) -> Result<Self, ConversionError> {
        Self::checked_from_f64(int_to_f64(v as nat))
    }
}

impl TryFrom<usize> for Uf8E4M4 {
    type Error = ConversionError;

    fn try_from(value: usize) -> (r: Result<Self, ConversionError>) {
        Self::try_from_f64_bits(u128_to_f64(value as u128))
    }
}

impl TryFromSpecImpl<usize> for Uf8E4M4 {
    open spec fn obeys_try_from_spec() -> bool {
        true
    }

    open spec fn try_from_spec(v: usize) -> Result<Self, ConversionError> {
        Self::checked_from_f64(int_to_f64(v as nat))
    }
}

impl TryFrom<i8> for Uf8E4M4 {
    type Error = ConversionError;

    fn try_from(value: i8) -> (r: Result<Self, ConversionError>) {
        if value < 0 {
            Err(ConversionError::Negative)
        } else {
            Self::try_from_f64_bits(u128_to_f64(value as u128))
        }
    }
}

impl TryFromSpecImpl<i8> for Uf8E4M4 {
    open spec fn obeys_try_from_spec() -> bool {
        true
    }

    open spec fn try_from_spec(v: i8) -> Result<Self, ConversionError> {
        if v < 0 {
            Err(ConversionError::Negative)
        } else {
            Self::checked_from_f64(int_to_f64(v as nat))
        }
    }
}

impl TryFrom<i16> for Uf8E4M4 {
    type Error = ConversionError;

    fn try_from(value: i16) -> (r: Result<Self, ConversionError>) {
        if value < 0 {
            Err(ConversionError::Negative)
        } else {
            Self::try_from_f64_bits(u128_to_f64(value as u128))
        }
    }
}

impl TryFromSpecImpl<i16> for Uf8E4M4 {
    open spec fn obeys_try_from_spec() -> bool {
        true
    }

    open spec fn try_from_spec(v: i16) -> Result<Self, ConversionError> {
        if v < 0 {
            Err(ConversionError::Negative)
        } else {
            Self::checked_from_f64(int_to_f64(v as nat))
        }
    }
}

impl TryFrom<i32> for Uf8E4M4 {
    type Error = ConversionError;

    fn try_from(value: i32) -> (r: Result<Self, ConversionError>) {
        if value < 0 {
            Err(ConversionError::Negative)
        } else {
            Self::try_from_f64_bits(u128_to_f64(value as u128))
        }
    }
}

impl TryFromSpecImpl<i32> for Uf8E4M4 {
    open spec fn obeys_try_from_spec() -> bool {
        true
    }

    open spec fn try_from_spec(v: i32) -> Result<Self, ConversionError> {
        if v < 0 {
            Err(ConversionError::Negative)
        } else {
            Self::checked_from_f64(int_to_f64(v as nat))
        }
    }
}

impl TryFrom<i64> for Uf8E4M4 {
    type Error = ConversionError;

    fn try_from(value: i64) -> (r: Result<Self, ConversionError>) {
        if value < 0 {
            Err(ConversionError::Negative)
        } else {
            Self::try_from_f64_bits(u128_to_f64(value as u128))
        }
    }
}

impl TryFromSpecImpl<i64> for Uf8E4M4 {
    open spec fn obeys_try_from_spec() -> bool {
        true
    }

    open spec fn try_from_spec(v: i64) -> Result<Self, ConversionError> {
        if v < 0 {
            Err(ConversionError::Negative)
        } else {
            Self::checked_from_f64(int_to_f64(v as nat))
        }
    }
}

impl TryFrom<i128> for Uf8E4M4 {
    type Error = ConversionError;

    fn try_from(value: i128) -> (r: Result<Self, ConversionError>) {
        if value < 0 {
            Err(ConversionError::Negative)
        } else {
            Self::try_from_f64_bits(u128_to_f64(value as u128))
        }
    }
}

impl TryFromSpecImpl<i128> for Uf8E4M4 {
    open spec fn obeys_try_from_spec() -> bool {
        true
    }

    open spec fn try_from_spec(v: i128) -> Result<Self, ConversionError> {
        if v < 0 {
            Err(ConversionError::Negative)
        } else {
            Self::checked_from_f64(int_to_f64(v as nat))
        }
    }
}

impl TryFrom<isize> for Uf8E4M4 {
    type Error = ConversionError;

    fn try_from(value: isize) -> (r: Result<Self, ConversionError>) {
        if value < 0 {
            Err(ConversionError::Negative)
        } else {
            Self::try_from_f64_bits(u128_to_f64(value as u128))
        }
    }
}

impl TryFromSpecImpl<isize> for Uf8E4M4 {
    open spec fn obeys_try_from_spec() -> bool {
        true
    }

    open spec fn try_from_spec(v: isize) -> Result<Self, ConversionError> {
        if v < 0 {
            Err(ConversionError::Negative)
        } else {
            Self::checked_from_f64(int_to_f64(v as nat))
        }
    }
}

impl TryFrom<u8> for Uf16 {
    type Error = ConversionError;

    fn try_from(value: u8) -> (r: Result<Self, ConversionError>) {
        Self::try_from_f64_bits(u128_to_f64(value as u128))
    }
}

impl TryFromSpecImpl<u8> for Uf16 {
    open spec fn obeys_try_from_spec() -> bool {
        true
    }

    open spec fn try_from_spec(v: u8) -> Result<Self, ConversionError> {
        Self::checked_from_f64(int_to_f64(v as nat))
    }
}

impl TryFrom<u16> for Uf16 {
    type Error = ConversionError;

    fn try_from(value: u16) -> (r: Result<Self, ConversionError>) {
        Self::try_from_f64_bits(u128_to_f64(value as u128))
    }
}

impl TryFromSpecImpl<u16> for Uf16 {
    open spec fn obeys_try_from_spec() -> bool {
        true
    }

    open spec fn try_from_spec(v: u16) -> Result<Self, ConversionError> {
        Self::checked_from_f64(int_to_f64(v as nat))
    }
}

impl TryFrom<u32> for Uf16 {
    type Error = ConversionError;

    fn try_from(value: u32) -> (r: Result<Self, ConversionError>) {
        Self::try_from_f64_bits(u128_to_f64(value as u128))
    }
}

impl TryFromSpecImpl<u32> for Uf16 {
    open spec fn obeys_try_from_spec() -> bool {
        true
    }

    open spec fn try_from_spec(v: u32) -> Result<Self, ConversionError> {
        Self::checked_from_f64(int_to_f64(v as nat))
    }
}

impl TryFrom<u64> for Uf16 {
    type Error = ConversionError;

    fn try_from(value: u64) -> (r: Result<Self, ConversionError>) {
        Self::try_from_f64_bits(u128_to_f64(value as u128))
    }
}

impl TryFromSpecImpl<u64> for Uf16 {
    open spec fn obeys_try_from_spec() -> bool {
        true
    }

    open spec fn try_from_spec(v: u64) -> Result<Self, ConversionError> {
        Self::checked_from_f64(int_to_f64(v as nat))
    }
}

impl TryFrom<u128> for Uf16 {
    type Error = ConversionError;

    fn try_from(value: u128) -> (r: Result<Self, ConversionError>) {
        Self::try_from_f64_bits(u128_to_f64(value as u128))
    }
}

impl TryFromSpecImpl<u128> for Uf16 {
    open spec fn obeys_try_from_spec() -> bool {
        true
    }

    open spec fn try_from_spec(v: u128) -> Result<Self, ConversionError> {
        Self::checked_from_f64(int_to_f64(v as nat))
    }
}

impl TryFrom<usize> for Uf16 {
    type Error = ConversionError;

    fn try_from(value: usize) -> (r: Result<Self, ConversionError>) {
        Self::try_from_f64_bits(u128_to_f64(value as u128))
    }
}

impl TryFromSpecImpl<usize> for Uf16 {
    open spec fn obeys_try_from_spec() -> bool {
        true
    }

    open spec fn try_from_spec(v: usize) -> Result<Self, ConversionError> {
        Self::checked_from_f64(int_to_f64(v as nat))
    }
}

impl TryFrom<i8> for Uf16 {
    type Error = ConversionError;

    fn try_from(value: i8) -> (r: Result<Self, ConversionError>) {
        if value < 0 {
            Err(ConversionError::Negative)
        } else {
            Self::try_from_f64_bits(u128_to_f64(value as u128))
        }
    }
}

impl TryFromSpecImpl<i8> for Uf16 {
    open spec fn obeys_try_from_spec() -> bool {
        true
    }

    open spec fn try_from_spec(v: i8) -> Result<Self, ConversionError> {
        if v < 0 {
            Err(ConversionError::Negative)
        } else {
            Self::checked_from_f64(int_to_f64(v as nat))
        }
    }
}

impl TryFrom<i16> for Uf16 {
    type Error = ConversionError;

    fn try_from(value: i16) -> (r: Result<Self, ConversionError>) {
        if value < 0 {
            Err(ConversionError::Negative)
        } else {
            Self::try_from_f64_bits(u128_to_f64(value as u128))
        }
    }
}

impl TryFromSpecImpl<i16> for Uf16 {
    open spec fn obeys_try_from_spec() -> bool {
        true
    }

    open spec fn try_from_spec(v: i16) -> Result<Self, ConversionError> {
        if v < 0 {
            Err(ConversionError::Negative)
        } else {
            Self::checked_from_f64(int_to_f64(v as nat))
        }
    }
}

impl TryFrom<i32> for Uf16 {
    type Error = ConversionError;

    fn try_from(value: i32) -> (r: Result<Self, ConversionError>) {
        if value < 0 {
            Err(ConversionError::Negative)
        } else {
            Self::try_from_f64_bits(u128_to_f64(value as u128))
        }
    }
}

impl TryFromSpecImpl<i32> for Uf16 {
    open spec fn obeys_try_from_spec() -> bool {
        true
    }

    open spec fn try_from_spec(v: i32) -> Result<Self, ConversionError> {
        if v < 0 {
            Err(ConversionError::Negative)
        } else {
            Self::checked_from_f64(int_to_f64(v as nat))
        }
    }
}

impl TryFrom<i64> for Uf16 {
    type Error = ConversionError;

    fn try_from(value: i64) -> (r: Result<Self, ConversionError>) {
        if value < 0 {
            Err(ConversionError::Negative)
        } else {
            Self::try_from_f64_bits(u128_to_f64(value as u128))
        }
    }
}

impl TryFromSpecImpl<i64> for Uf16 {
    open spec fn obeys_try_from_spec() -> bool {
        true
    }

    open spec fn try_from_spec(v: i64) -> Result<Self, ConversionError> {
        if v < 0 {
            Err(ConversionError::Negative)
        } else {
            Self::checked_from_f64(int_to_f64(v as nat))
        }
    }
}

impl TryFrom<i128> for Uf16 {
    type Error = ConversionError;

    fn try_from(value: i128) -> (r: Result<Self, ConversionError>) {
        if value < 0 {
            Err(ConversionError::Negative)
        } else {
            Self::try_from_f64_bits(u128_to_f64(value as u128))
        }
    }
}

impl TryFromSpecImpl<i128> for Uf16 {
    open spec fn obeys_try_from_spec() -> bool {
        true
    }

    open spec fn try_from_spec(v: i128) -> Result<Self, ConversionError> {
        if v < 0 {
            Err(ConversionError::Negative)
        } else {
            Self::checked_from_f64(int_to_f64(v as nat))
        }
    }
}

impl TryFrom<isize> for Uf16 {
    type Error = ConversionError;

    fn try_from(value: isize) -> (r: Result<Self, ConversionError>) {
        if value < 0 {
            Err(ConversionError::Negative)
        } else {
            Self::try_from_f64_bits(u128_to_f64(value as u128))
        }
    }
}

impl TryFromSpecImpl<isize> for Uf16 {
    open spec fn obeys_try_from_spec() -> bool {
        true
    }

    open spec fn try_from_spec(v: isize) -> Result<Self, ConversionError> {
        if v < 0 {
            Err(ConversionError::Negative)
        } else {
            Self::checked_from_f64(int_to_f64(v as nat))
        }
    }
}

impl TryFrom<u8> for Uf32E8M24 {
    type Error = ConversionError;

    fn try_from(value: u8) -> (r: Result<Self, ConversionError>) {
        Self::try_from_f64_bits(u128_to_f64(value as u128))
    }
}

impl TryFromSpecImpl<u8> for Uf32E8M24 {
    open spec fn obeys_try_from_spec() -> bool {
        true
    }

    open spec fn try_from_spec(v: u8) -> Result<Self, ConversionError> {
        Self::checked_from_f64(int_to_f64(v as nat))
    }
}

impl TryFrom<u16> for Uf32E8M24 {
    type Error = ConversionError;

    fn try_from(value: u16) -> (r: Result<Self, ConversionError>) {
        Self::try_from_f64_bits(u128_to_f64(value as u128))
    }
}

impl TryFromSpecImpl<u16> for Uf32E8M24 {
    open spec fn obeys_try_from_spec() -> bool {
        true
    }

    open spec fn try_from_spec(v: u16) -> Result<Self, ConversionError> {
        Self::checked_from_f64(int_to_f64(v as nat))
    }
}

impl TryFrom<u32> for Uf32E8M24 {
    type Error = ConversionError;

    fn try_from(value: u32) -> (r: Result<Self, ConversionError>) {
        Self::try_from_f64_bits(u128_to_f64(value as u128))
    }
}

impl TryFromSpecImpl<u32> for Uf32E8M24 {
    open spec fn obeys_try_from_spec() -> bool {
        true
    }

    open spec fn try_from_spec(v: u32) -> Result<Self, ConversionError> {
        Self::checked_from_f64(int_to_f64(v as nat))
    }
}

impl TryFrom<u64> for Uf32E8M24 {
    type Error = ConversionError;

    fn try_from(value: u64) -> (r: Result<Self, ConversionError>) {
        Self::try_from_f64_bits(u128_to_f64(value as u128))
    }
}

impl TryFromSpecImpl<u64> for Uf32E8M24 {
    open spec fn obeys_try_from_spec() -> bool {
        true
    }

    open spec fn try_from_spec(v: u64) -> Result<Self, ConversionError> {
        Self::checked_from_f64(int_to_f64(v as nat))
    }
}

impl TryFrom<u128> for Uf32E8M24 {
    type Error = ConversionError;

    fn try_from(value: u128) -> (r: Result<Self, ConversionError>) {
        Self::try_from_f64_bits(u128_to_f64(value as u128))
    }
}

impl TryFromSpecImpl<u128> for Uf32E8M24 {
    open spec fn obeys_try_from_spec() -> bool {
        true
    }

    open spec fn try_from_spec(v: u128) -> Result<Self, ConversionError> {
        Self::checked_from_f64(int_to_f64(v as nat))
    }
}

impl TryFrom<usize> for Uf32E8M24 {
    type Error = ConversionError;

    fn try_from(value: usize) -> (r: Result<Self, ConversionError>) {
        Self::try_from_f64_bits(u128_to_f64(value as u128))
    }
}

impl TryFromSpecImpl<usize> for Uf32E8M24 {
    open spec fn obeys_try_from_spec() -> bool {
        true
    }

    open spec fn try_from_spec(v: usize) -> Result<Self, ConversionError> {
        Self::checked_from_f64(int_to_f64(v as nat))
    }
}

impl TryFrom<i8> for Uf32E8M24 {
    type Error = ConversionError;

    fn try_from(value: i8) -> (r: Result<Self, ConversionError>) {
        if value < 0 {
            Err(ConversionError::Negative)
        } else {
            Self::try_from_f64_bits(u128_to_f64(value as u128))
        }
    }
}

impl TryFromSpecImpl<i8> for Uf32E8M24 {
    open spec fn obeys_try_from_spec() -> bool {
        true
    }

    open spec fn try_from_spec(v: i8) -> Result<Self, ConversionError> {
        if v < 0 {
            Err(ConversionError::Negative)
        } else {
            Self::checked_from_f64(int_to_f64(v as nat))
        }
    }
}

impl TryFrom<i16> for Uf32E8M24 {
    type Error = ConversionError;

    fn try_from(value: i16) -> (r: Result<Self, ConversionError>) {
        if value < 0 {
            Err(ConversionError::Negative)
        } else {
            Self::try_from_f64_bits(u128_to_f64(value as u128))
        }
    }
}

impl TryFromSpecImpl<i16> for Uf32E8M24 {
    open spec fn obeys_try_from_spec() -> bool {
        true
    }

    open spec fn try_from_spec(v: i16) -> Result<Self, ConversionError> {
        if v < 0 {
            Err(ConversionError::Negative)
        } else {
            Self::checked_from_f64(int_to_f64(v as nat))
        }
    }
}

impl TryFrom<i32> for Uf32E8M24 {
    type Error = ConversionError;

    fn try_from(value: i32) -> (r: Result<Self, ConversionError>) {
        if value < 0 {
            Err(ConversionError::Negative)
        } else {
            Self::try_from_f64_bits(u128_to_f64(value as u128))
        }
    }
}

impl TryFromSpecImpl<i32> for Uf32E8M24 {
    open spec fn obeys_try_from_spec() -> bool {
        true
    }

    open spec fn try_from_spec(v: i32) -> Result<Self, ConversionError> {
        if v < 0 {
            Err(ConversionError::Negative)
        } else {
            Self::checked_from_f64(int_to_f64(v as nat))
        }
    }
}

impl TryFrom<i64> for Uf32E8M24 {
    type Error = ConversionError;

    fn try_from(value: i64) -> (r: Result<Self, ConversionError>) {
        if value < 0 {
            Err(ConversionError::Negative)
        } else {
            Self::try_from_f64_bits(u128_to_f64(value as u128))
        }
    }
}

impl TryFromSpecImpl<i64> for Uf32E8M24 {
    open spec fn obeys_try_from_spec() -> bool {
        true
    }

    open spec fn try_from_spec(v: i64) -> Result<Self, ConversionError> {
        if v < 0 {
            Err(ConversionError::Negative)
        } else {
            Self::checked_from_f64(int_to_f64(v as nat))
        }
    }
}

impl TryFrom<i128> for Uf32E8M24 {
    type Error = ConversionError;

    fn try_from(value: i128) -> (r: Result<Self, ConversionError>) {
        if value < 0 {
            Err(ConversionError::Negative)
        } else {
            Self::try_from_f64_bits(u128_to_f64(value as u128))
        }
    }
}

impl TryFromSpecImpl<i128> for Uf32E8M24 {
    open spec fn obeys_try_from_spec() -> bool {
        true
    }

    open spec fn try_from_spec(v: i128) -> Result<Self, ConversionError> {
        if v < 0 {
            Err(ConversionError::Negative)
        } else {
            Self::checked_from_f64(int_to_f64(v as nat))
        }
    }
}

impl TryFrom<isize> for Uf32E8M24 {
    type Error = ConversionError;

    fn try_from(value: isize) -> (r: Result<Self, ConversionError>) {
        if value < 0 {
            Err(ConversionError::Negative)
        } else {
            Self::try_from_f64_bits(u128_to_f64(value as u128))
        }
    }
}

impl TryFromSpecImpl<isize> for Uf32E8M24 {
    open spec fn obeys_try_from_spec() -> bool {
        true
    }

    open spec fn try_from_spec(v: isize) -> Result<Self, ConversionError> {
        if v < 0 {
            Err(ConversionError::Negative)
        } else {
            Self::checked_from_f64(int_to_f64(v as nat))
        }
    }
}

impl TryFrom<u8> for Uf8E5M3 {
    type Error = ConversionError;

    fn try_from(value: u8) -> (r: Result<Self, ConversionError>) {
        Self::try_from_f64_bits(u128_to_f64(value as u128))
    }
}

impl TryFromSpecImpl<u8> for Uf8E5M3 {
    open spec fn obeys_try_from_spec() -> bool {
        true
    }

    open spec fn try_from_spec(v: u8) -> Result<Self, ConversionError> {
        Self::checked_from_f64(int_to_f64(v as nat))
    }
}

impl TryFrom<u16> for Uf8E5M3 {
    type Error = ConversionError;

    fn try_from(value: u16) -> (r: Result<Self, ConversionError>) {
        Self::try_from_f64_bits(u128_to_f64(value as u128))
    }
}

impl TryFromSpecImpl<u16> for Uf8E5M3 {
    open spec fn obeys_try_from_spec() -> bool {
        true
    }

    open spec fn try_from_spec(v: u16) -> Result<Self, ConversionError> {
        Self::checked_from_f64(int_to_f64(v as nat))
    }
}

impl TryFrom<u32> for Uf8E5M3 {
    type Error = ConversionError;

    fn try_from(value: u32) -> (r: Result<Self, ConversionError>) {
        Self::try_from_f64_bits(u128_to_f64(value as u128))
    }
}

impl TryFromSpecImpl<u32> for Uf8E5M3 {
    open spec fn obeys_try_from_spec() -> bool {
        true
    }

    open spec fn try_from_spec(v: u32) -> Result<Self, ConversionError> {
        Self::checked_from_f64(int_to_f64(v as nat))
    }
}

impl TryFrom<u64> for Uf8E5M3 {
    type Error = ConversionError;

    fn try_from(value: u64) -> (r: Result<Self, ConversionError>) {
        Self::try_from_f64_bits(u128_to_f64(value as u128))
    }
}

impl TryFromSpecImpl<u64> for Uf8E5M3 {
    open spec fn obeys_try_from_spec() -> bool {
        true
    }

    open spec fn try_from_spec(v: u64) -> Result<Self, ConversionError> {
        Self::checked_from_f64(int_to_f64(v as nat))
    }
}

impl TryFrom<u128> for Uf8E5M3 {
    type Error = ConversionError;

    fn try_from(value: u128) -> (r: Result<Self, ConversionError>) {
        Self::try_from_f64_bits(u128_to_f64(value as u128))
    }
}

impl TryFromSpecImpl<u128> for Uf8E5M3 {
    open spec fn obeys_try_from_spec() -> bool {
        true
    }

    open spec fn try_from_spec(v: u128) -> Result<Self, ConversionError> {
        Self::checked_from_f64(int_to_f64(v as nat))
    }
}

impl TryFrom<usize> for Uf8E5M3 {
    type Error = ConversionError;

    fn try_from(value: usize) -> (r: Result<Self, ConversionError>) {
        Self::try_from_f64_bits(u128_to_f64(value as u128))
    }
}

impl TryFromSpecImpl<usize> for Uf8E5M3 {
    open spec fn obeys_try_from_spec() -> bool {
        true
    }

    open spec fn try_from_spec(v: usize) -> Result<Self, ConversionError> {
        Self::checked_from_f64(int_to_f64(v as nat))
    }
}

impl TryFrom<i8> for Uf8E5M3 {
    type Error = ConversionError;

    fn try_from(value: i8) -> (r: Result<Self, ConversionError>) {
        if value < 0 {
            Err(ConversionError::Negative)
        } else {
            Self::try_from_f64_bits(u128_to_f64(value as u128))
        }
    }
}

impl TryFromSpecImpl<i8> for Uf8E5M3 {
    open spec fn obeys_try_from_spec() -> bool {
        true
    }

    open spec fn try_from_spec(v: i8) -> Result<Self, ConversionError> {
        if v < 0 {
            Err(ConversionError::Negative)
        } else {
            Self::checked_from_f64(int_to_f64(v as nat))
        }
    }
}

impl TryFrom<i16> for Uf8E5M3 {
    type Error = ConversionError;

    fn try_from(value: i16) -> (r: Result<Self, ConversionError>) {
        if value < 0 {
            Err(ConversionError::Negative)
        } else {
            Self::try_from_f64_bits(u128_to_f64(value as u128))
        }
    }
}

impl TryFromSpecImpl<i16> for Uf8E5M3 {
    open spec fn obeys_try_from_spec() -> bool {
        true
    }

    open spec fn try_from_spec(v: i16) -> Result<Self, ConversionError> {
        if v < 0 {
            Err(ConversionError::Negative)
        } else {
            Self::checked_from_f64(int_to_f64(v as nat))
        }
    }
}

impl TryFrom<i32> for Uf8E5M3 {
    type Error = ConversionError;

    fn try_from(value: i32) -> (r: Result<Self, ConversionError>) {
        if value < 0 {
            Err(ConversionError::Negative)
        } else {
            Self::try_from_f64_bits(u128_to_f64(value as u128))
        }
    }
}

impl TryFromSpecImpl<i32> for Uf8E5M3 {
    open spec fn obeys_try_from_spec() -> bool {
        true
    }

    open spec fn try_from_spec(v: i32) -> Result<Self, ConversionError> {
        if v < 0 {
            Err(ConversionError::Negative)
        } else {
            Self::checked_from_f64(int_to_f64(v as nat))
        }
    }
}

impl TryFrom<i64> for Uf8E5M3 {
    type Error = ConversionError;

    fn try_from(value: i64) -> (r: Result<Self, ConversionError>) {
        if value < 0 {
            Err(ConversionError::Negative)
        } else {
            Self::try_from_f64_bits(u128_to_f64(value as u128))
        }
    }
}

impl TryFromSpecImpl<i64> for Uf8E5M3 {
    open spec fn obeys_try_from_spec() -> bool {
        true
    }

    open spec fn try_from_spec(v: i64) -> Result<Self, ConversionError> {
        if v < 0 {
            Err(ConversionError::Negative)
        } else {
            Self::checked_from_f64(int_to_f64(v as nat))
        }
    }
}

impl TryFrom<i128> for Uf8E5M3 {
    type Error = ConversionError;

    fn try_from(value: i128) -> (r: Result<Self, ConversionError>) {
        if value < 0 {
            Err(ConversionError::Negative)
        } else {
            Self::try_from_f64_bits(u128_to_f64(value as u128))
        }
    }
}

impl TryFromSpecImpl<i128> for Uf8E5M3 {
    open spec fn obeys_try_from_spec() -> bool {
        true
    }

    open spec fn try_from_spec(v: i128) -> Result<Self, ConversionError> {
        if v < 0 {
            Err(ConversionError::Negative)
        } else {
            Self::checked_from_f64(int_to_f64(v as nat))
        }
    }
}

impl TryFrom<isize> for Uf8E5M3 {
    type Error = ConversionError;

    fn try_from(value: isize) -> (r: Result<Self, ConversionError>) {
        if value < 0 {
            Err(ConversionError::Negative)
        } else {
            Self::try_from_f64_bits(u128_to_f64(value as u128))
        }
    }
}

impl TryFromSpecImpl<isize> for Uf8E5M3 {
    open spec fn obeys_try_from_spec() -> bool {
        true
    }

    open spec fn try_from_spec(v: isize) -> Result<Self, ConversionError> {
        if v < 0 {
            Err(ConversionError::Negative)
        } else {
            Self::checked_from_f64(int_to_f64(v as nat))
        }
    }
}

impl TryFrom<u8> for Uf16E6M10 {
    type Error = ConversionError;

    fn try_from(value: u8) -> (r: Result<Self, ConversionError>) {
        Self::try_from_f64_bits(u128_to_f64(value as u128))
    }
}

impl TryFromSpecImpl<u8> for Uf16E6M10 {
    open spec fn obeys_try_from_spec() -> bool {
        true
    }

    open spec fn try_from_spec(v: u8) -> Result<Self, ConversionError> {
        Self::checked_from_f64(int_to_f64(v as nat))
    }
}

impl TryFrom<u16> for Uf16E6M10 {
    type Error = ConversionError;

    fn try_from(value: u16) -> (r: Result<Self, ConversionError>) {
        Self::try_from_f64_bits(u128_to_f64(value as u128))
    }
}

impl TryFromSpecImpl<u16> for Uf16E6M10 {
    open spec fn obeys_try_from_spec() -> bool {
        true
    }

    open spec fn try_from_spec(v: u16) -> Result<Self, ConversionError> {
        Self::checked_from_f64(int_to_f64(v as nat))
    }
}

impl TryFrom<u32> for Uf16E6M10 {
    type Error = ConversionError;

    fn try_from(value: u32) -> (r: Result<Self, ConversionError>) {
        Self::try_from_f64_bits(u128_to_f64(value as u128))
    }
}

impl TryFromSpecImpl<u32> for Uf16E6M10 {
    open spec fn obeys_try_from_spec() -> bool {
        true
    }

    open spec fn try_from_spec(v: u32) -> Result<Self, ConversionError> {
        Self::checked_from_f64(int_to_f64(v as nat))
    }
}

impl TryFrom<u64> for Uf16E6M10 {
    type Error = ConversionError;

    fn try_from(value: u64) -> (r: Result<Self, ConversionError>) {
        Self::try_from_f64_bits(u128_to_f64(value as u128))
    }
}

impl TryFromSpecImpl<u64> for Uf16E6M10 {
    open spec fn obeys_try_from_spec() -> bool {
        true
    }

    open spec fn try_from_spec(v: u64) -> Result<Self, ConversionError> {
        Self::checked_from_f64(int_to_f64(v as nat))
    }
}

impl TryFrom<u128> for Uf16E6M10 {
    type Error = ConversionError;

    fn try_from(value: u128) -> (r: Result<Self, ConversionError>) {
        Self::try_from_f64_bits(u128_to_f64(value as u128))
    }
}

impl TryFromSpecImpl<u128> for Uf16E6M10 {
    open spec fn obeys_try_from_spec() -> bool {
        true
    }

    open spec fn try_from_spec(v: u128) -> Result<Self, ConversionError> {
        Self::checked_from_f64(int_to_f64(v as nat))
    }
}

impl TryFrom<usize> for Uf16E6M10 {
    type Error = ConversionError;

    fn try_from(value: usize) -> (r: Result<Self, ConversionError>) {
        Self::try_from_f64_bits(u128_to_f64(value as u128))
    }
}

impl TryFromSpecImpl<usize> for Uf16E6M10 {
    open spec fn obeys_try_from_spec() -> bool {
        true
    }

    open spec fn try_from_spec(v: usize) -> Result<Self, ConversionError> {
        Self::checked_from_f64(int_to_f64(v as nat))
    }
}

impl TryFrom<i8> for Uf16E6M10 {
    type Error = ConversionError;

    fn try_from(value: i8) -> (r: Result<Self, ConversionError>) {
        if value < 0 {
            Err(ConversionError::Negative)
        } else {
            Self::try_from_f64_bits(u128_to_f64(value as u128))
        }
    }
}

impl TryFromSpecImpl<i8> for Uf16E6M10 {
    open spec fn obeys_try_from_spec() -> bool {
        true
    }

    open spec fn try_from_spec(v: i8) -> Result<Self, ConversionError> {
        if v < 0 {
            Err(ConversionError::Negative)
        } else {
            Self::checked_from_f64(int_to_f64(v as nat))
        }
    }
}

impl TryFrom<i16> for Uf16E6M10 {
    type Error = ConversionError;

    fn try_from(value: i16) -> (r: Result<Self, ConversionError>) {
        if value < 0 {
            Err(ConversionError::Negative)
        } else {
            Self::try_from_f64_bits(u128_to_f64(value as u128))
        }
    }
}

impl TryFromSpecImpl<i16> for Uf16E6M10 {
    open spec fn obeys_try_from_spec() -> bool {
        true
    }

    open spec fn try_from_spec(v: i16) -> Result<Self, ConversionError> {
        if v < 0 {
            Err(ConversionError::Negative)
        } else {
            Self::checked_from_f64(int_to_f64(v as nat))
        }
    }
}

impl TryFrom<i32> for Uf16E6M10 {
    type Error = ConversionError;

    fn try_from(value: i32) -> (r: Result<Self, ConversionError>) {
        if value < 0 {
            Err(ConversionError::Negative)
        } else {
            Self::try_from_f64_bits(u128_to_f64(value as u128))
        }
    }
}

impl TryFromSpecImpl<i32> for Uf16E6M10 {
    open spec fn obeys_try_from_spec() -> bool {
        true
    }

    open spec fn try_from_spec(v: i32) -> Result<Self, ConversionError> {
        if v < 0 {
            Err(ConversionError::Negative)
        } else {
            Self::checked_from_f64(int_to_f64(v as nat))
        }
    }
}

impl TryFrom<i64> for Uf16E6M10 {
    type Error = ConversionError;

    fn try_from(value: i64) -> (r: Result<Self, ConversionError>) {
        if value < 0 {
            Err(ConversionError::Negative)
        } else {
            Self::try_from_f64_bits(u128_to_f64(value as u128))
        }
    }
}

impl TryFromSpecImpl<i64> for Uf16E6M10 {
    open spec fn obeys_try_from_spec() -> bool {
        true
    }

    open spec fn try_from_spec(v: i64) -> Result<Self, ConversionError> {
        if v < 0 {
            Err(ConversionError::Negative)
        } else {
            Self::checked_from_f64(int_to_f64(v as nat))
        }
    }
}

impl TryFrom<i128> for Uf16E6M10 {
    type Error = ConversionError;

    fn try_from(value: i128) -> (r: Result<Self, ConversionError>) {
        if value < 0 {
            Err(ConversionError::Negative)
        } else {
            Self::try_from_f64_bits(u128_to_f64(value as u128))
        }
    }
}

impl TryFromSpecImpl<i128> for Uf16E6M10 {
    open spec fn obeys_try_from_spec() -> bool {
        true
    }

    open spec fn try_from_spec(v: i128) -> Result<Self, ConversionError> {
        if v < 0 {
            Err(ConversionError::Negative)
        } else {
            Self::checked_from_f64(int_to_f64(v as nat))
        }
    }
}

impl TryFrom<isize> for Uf16E6M10 {
    type Error = ConversionError;

    fn try_from(value: isize) -> (r: Result<Self, ConversionError>) {
        if value < 0 {
            Err(ConversionError::Negative)
        } else {
            Self::try_from_f64_bits(u128_to_f64(value as u128))
        }
    }
}

impl TryFromSpecImpl<isize> for Uf16E6M10 {
    open spec fn obeys_try_from_spec() -> bool {
        true
    }

    open spec fn try_from_spec(v: isize) -> Result<Self, ConversionError> {
        if v < 0 {
            Err(ConversionError::Negative)
        } else {
            Self::checked_from_f64(int_to_f64(v as nat))
        }
    }
}

impl TryFrom<u8> for Uf64E11M52 {
    type Error = ConversionError;

    fn try_from(value: u8) -> (r: Result<Self, ConversionError>) {
        Self::try_from_f64_bits(u128_to_f64(value as u128))
    }
}

impl TryFromSpecImpl<u8> for Uf64E11M52 {
    open spec fn obeys_try_from_spec() -> bool {
        true
    }

    open spec fn try_from_spec(v: u8) -> Result<Self, ConversionError> {
        Self::checked_from_f64(int_to_f64(v as nat))
    }
}

impl TryFrom<u16> for Uf64E11M52 {
    type Error = ConversionError;

    fn try_from(value: u16) -> (r: Result<Self, ConversionError>) {
        Self::try_from_f64_bits(u128_to_f64(value as u128))
    }
}

impl TryFromSpecImpl<u16> for Uf64E11M52 {
    open spec fn obeys_try_from_spec() -> bool {
        true
    }

    open spec fn try_from_spec(v: u16) -> Result<Self, ConversionError> {
        Self::checked_from_f64(int_to_f64(v as nat))
    }
}

impl TryFrom<u32> for Uf64E11M52 {
    type Error = ConversionError;

    fn try_from(value: u32) -> (r: Result<Self, ConversionError>) {
        Self::try_from_f64_bits(u128_to_f64(value as u128))
    }
}

impl TryFromSpecImpl<u32> for Uf64E11M52 {
    open spec fn obeys_try_from_spec() -> bool {
        true
    }

    open spec fn try_from_spec(v: u32) -> Result<Self, ConversionError> {
        Self::checked_from_f64(int_to_f64(v as nat))
    }
}

impl TryFrom<u64> for Uf64E11M52 {
    type Error = ConversionError;

    fn try_from(value: u64) -> (r: Result<Self, ConversionError>) {
        Self::try_from_f64_bits(u128_to_f64(value as u128))
    }
}

impl TryFromSpecImpl<u64> for Uf64E11M52 {
    open spec fn obeys_try_from_spec() -> bool {
        true
    }

    open spec fn try_from_spec(v: u64) -> Result<Self, ConversionError> {
        Self::checked_from_f64(int_to_f64(v as nat))
    }
}

impl TryFrom<u128> for Uf64E11M52 {
    type Error = ConversionError;

    fn try_from(value: u128) -> (r: Result<Self, ConversionError>) {
        Self::try_from_f64_bits(u128_to_f64(value as u128))
    }
}

impl TryFromSpecImpl<u128> for Uf64E11M52 {
    open spec fn obeys_try_from_spec() -> bool {
        true
    }

    open spec fn try_from_spec(v: u128) -> Result<Self, ConversionError> {
        Self::checked_from_f64(int_to_f64(v as nat))
    }
}

impl TryFrom<usize> for Uf64E11M52 {
    type Error = ConversionError;

    fn try_from(value: usize) -> (r: Result<Self, ConversionError>) {
        Self::try_from_f64_bits(u128_to_f64(value as u128))
    }
}

impl TryFromSpecImpl<usize> for Uf64E11M52 {
    open spec fn obeys_try_from_spec() -> bool {
        true
    }

    open spec fn try_from_spec(v: usize) -> Result<Self, ConversionError> {
        Self::checked_from_f64(int_to_f64(v as nat))
    }
}

impl TryFrom<i8> for Uf64E11M52 {
    type Error = ConversionError;

    fn try_from(value: i8) -> (r: Result<Self, ConversionError>) {
        if value < 0 {
            Err(ConversionError::Negative)
        } else {
            Self::try_from_f64_bits(u128_to_f64(value as u128))
        }
    }
}

impl TryFromSpecImpl<i8> for Uf64E11M52 {
    open spec fn obeys_try_from_spec() -> bool {
        true
    }

    open spec fn try_from_spec(v: i8) -> Result<Self, ConversionError> {
        if v < 0 {
            Err(ConversionError::Negative)
        } else {
            Self::checked_from_f64(int_to_f64(v as nat))
        }
    }
}

impl TryFrom<i16> for Uf64E11M52 {
    type Error = ConversionError;

    fn try_from(value: i16) -> (r: Result<Self, ConversionError>) {
        if value < 0 {
            Err(ConversionError::Negative)
        } else {
            Self::try_from_f64_bits(u128_to_f64(value as u128))
        }
    }
}

impl TryFromSpecImpl<i16> for Uf64E11M52 {
    open spec fn obeys_try_from_spec() -> bool {
        true
    }

    open spec fn try_from_spec(v: i16) -> Result<Self, ConversionError> {
        if v < 0 {
            Err(ConversionError::Negative)
        } else {
            Self::checked_from_f64(int_to_f64(v as nat))
        }
    }
}

impl TryFrom<i32> for Uf64E11M52 {
    type Error = ConversionError;

    fn try_from(value: i32) -> (r: Result<Self, ConversionError>) {
        if value < 0 {
            Err(ConversionError::Negative)
        } else {
            Self::try_from_f64_bits(u128_to_f64(value as u128))
        }
    }
}

impl TryFromSpecImpl<i32> for Uf64E11M52 {
    open spec fn obeys_try_from_spec() -> bool {
        true
    }

    open spec fn try_from_spec(v: i32) -> Result<Self, ConversionError> {
        if v < 0 {
            Err(ConversionError::Negative)
        } else {
            Self::checked_from_f64(int_to_f64(v as nat))
        }
    }
}

impl TryFrom<i64> for Uf64E11M52 {
    type Error = ConversionError;

    fn try_from(value: i64) -> (r: Result<Self, ConversionError>) {
        if value < 0 {
            Err(ConversionError::Negative)
        } else {
            Self::try_from_f64_bits(u128_to_f64(value as u128))
        }
    }
}

impl TryFromSpecImpl<i64> for Uf64E11M52 {
    open spec fn obeys_try_from_spec() -> bool {
        true
    }

    open spec fn try_from_spec(v: i64) -> Result<Self, ConversionError> {
        if v < 0 {
            Err(ConversionError::Negative)
        } else {
            Self::checked_from_f64(int_to_f64(v as nat))
        }
    }
}

impl TryFrom<i128> for Uf64E11M52 {
    type Error = ConversionError;

    fn try_from(value: i128) -> (r: Result<Self, ConversionError>) {
        if value < 0 {
            Err(ConversionError::Negative)
        } else {
            Self::try_from_f64_bits(u128_to_f64(value as u128))
        }
    }
}

impl TryFromSpecImpl<i128> for Uf64E11M52 {
    open spec fn obeys_try_from_spec() -> bool {
        true
    }

    open spec fn try_from_spec(v: i128) -> Result<Self, ConversionError> {
        if v < 0 {
            Err(ConversionError::Negative)
        } else {
            Self::checked_from_f64(int_to_f64(v as nat))
        }
    }
}

impl TryFrom<isize> for Uf64E11M52 {
    type Error = ConversionError;

    fn try_from(value: isize) -> (r: Result<Self, ConversionError>) {
        if value < 0 {
            Err(ConversionError::Negative)
        } else {
            Self::try_from_f64_bits(u128_to_f64(value as u128))
        }
    }
}

impl TryFromSpecImpl<isize> for Uf64E11M52 {
    open spec fn obeys_try_from_spec() -> bool {
        true
    }

    open spec fn try_from_spec(v: isize) -> Result<Self, ConversionError> {
        if v < 0 {
            Err(ConversionError::Negative)
        } else {
            Self::checked_from_f64(int_to_f64(v as nat))
        }
    }
}

impl Uf8E4M4 {
    /// Converting an integer depends only on its value, not on the integer type it
    /// comes in: a value below zero is refused as negative, any other value converts as
    /// the same value does from `u128`, and a value that the layout holds exactly
    /// converts to that very number.
    pub proof fn lemma_try_from_integers(v: int, x: Self)
        ensures
            (0 <= v <= u8::MAX && in_width(x@ as nat, 4, 4) && is_finite_bits(x@ as nat, 4, 4) && units(x@ as nat, 4, 4, 7) == v * pow2(1074)) ==> <Self as TryFromSpec<u8>>::try_from_spec(v as u8) == Ok::<Self, ConversionError>(x),
            0 <= v <= u8::MAX ==> <Self as TryFromSpec<u8>>::try_from_spec(v as u8) == <Self as TryFromSpec<u128>>::try_from_spec(v as u128),
            (0 <= v <= u16::MAX && in_width(x@ as nat, 4, 4) && is_finite_bits(x@ as nat, 4, 4) && units(x@ as nat, 4, 4, 7) == v * pow2(1074)) ==> <Self as TryFromSpec<u16>>::try_from_spec(v as u16) == Ok::<Self, ConversionError>(x),
            0 <= v <= u16::MAX ==> <Self as TryFromSpec<u16>>::try_from_spec(v as u16) == <Self as TryFromSpec<u128>>::try_from_spec(v as u128),
            (0 <= v <= u32::MAX && in_width(x@ as nat, 4, 4) && is_finite_bits(x@ as nat, 4, 4) && units(x@ as nat, 4, 4, 7) == v * pow2(1074)) ==> <Self as TryFromSpec<u32>>::try_from_spec(v as u32) == Ok::<Self, ConversionError>(x),
            0 <= v <= u32::MAX ==> <Self as TryFromSpec<u32>>::try_from_spec(v as u32) == <Self as TryFromSpec<u128>>::try_from_spec(v as u128),
            (0 <= v <= u64::MAX && in_width(x@ as nat, 4, 4) && is_finite_bits(x@ as nat, 4, 4) && units(x@ as nat, 4, 4, 7) == v * pow2(1074)) ==> <Self as TryFromSpec<u64>>::try_from_spec(v as u64) == Ok::<Self, ConversionError>(x),
            0 <= v <= u64::MAX ==> <Self as TryFromSpec<u64>>::try_from_spec(v as u64) == <Self as TryFromSpec<u128>>::try_from_spec(v as u128),
            (0 <= v <= u128::MAX && in_width(x@ as nat, 4, 4) && is_finite_bits(x@ as nat, 4, 4) && units(x@ as nat, 4, 4, 7) == v * pow2(1074)) ==> <Self as TryFromSpec<u128>>::try_from_spec(v as u128) == Ok::<Self, ConversionError>(x),
            (0 <= v <= usize::MAX && in_width(x@ as nat, 4, 4) && is_finite_bits(x@ as nat, 4, 4) && units(x@ as nat, 4, 4, 7) == v * pow2(1074)) ==> <Self as TryFromSpec<usize>>::try_from_spec(v as usize) == Ok::<Self, ConversionError>(x),
            0 <= v <= usize::MAX ==> <Self as TryFromSpec<usize>>::try_from_spec(v as usize) == <Self as TryFromSpec<u128>>::try_from_spec(v as u128),
            i8::MIN <= v < 0 ==> <Self as TryFromSpec<i8>>::try_from_spec(v as i8) == Err::<Self, ConversionError>(ConversionError::Negative),
            0 <= v <= i8::MAX ==> <Self as TryFromSpec<i8>>::try_from_spec(v as i8) == <Self as TryFromSpec<u128>>::try_from_spec(v as u128),
            i16::MIN <= v < 0 ==> <Self as TryFromSpec<i16>>::try_from_spec(v as i16) == Err::<Self, ConversionError>(ConversionError::Negative),
            0 <= v <= i16::MAX ==> <Self as TryFromSpec<i16>>::try_from_spec(v as i16) == <Self as TryFromSpec<u128>>::try_from_spec(v as u128),
            i32::MIN <= v < 0 ==> <Self as TryFromSpec<i32>>::try_from_spec(v as i32) == Err::<Self, ConversionError>(ConversionError::Negative),
            0 <= v <= i32::MAX ==> <Self as TryFromSpec<i32>>::try_from_spec(v as i32) == <Self as TryFromSpec<u128>>::try_from_spec(v as u128),
            i64::MIN <= v < 0 ==> <Self as TryFromSpec<i64>>::try_from_spec(v as i64) == Err::<Self, ConversionError>(ConversionError::Negative),
            0 <= v <= i64::MAX ==> <Self as TryFromSpec<i64>>::try_from_spec(v as i64) == <Self as TryFromSpec<u128>>::try_from_spec(v as u128),
            i128::MIN <= v < 0 ==> <Self as TryFromSpec<i128>>::try_from_spec(v as i128) == Err::<Self, ConversionError>(ConversionError::Negative),
            0 <= v <= i128::MAX ==> <Self as TryFromSpec<i128>>::try_from_spec(v as i128) == <Self as TryFromSpec<u128>>::try_from_spec(v as u128),
            isize::MIN <= v < 0 ==> <Self as TryFromSpec<isize>>::try_from_spec(v as isize) == Err::<Self, ConversionError>(ConversionError::Negative),
            0 <= v <= isize::MAX ==> <Self as TryFromSpec<isize>>::try_from_spec(v as isize) == <Self as TryFromSpec<u128>>::try_from_spec(v as u128),
    {
        if 0 <= v && in_width(x@ as nat, 4, 4) && is_finite_bits(x@ as nat, 4, 4) && units(x@ as nat, 4, 4, 7) == v * pow2(1074) {
            lemma2_to64();
            lemma_pow2_adds(4, 4);
            Self::lemma_checked_accepts_values(x);
        }
    }
}

impl Uf8E5M3 {
    /// Converting an integer depends only on its value, not on the integer type it
    /// comes in: a value below zero is refused as negative, any other value converts as
    /// the same value does from `u128`, and a value that the layout holds exactly
    /// converts to that very number.
    pub proof fn lemma_try_from_integers(v: int, x: Self)
        ensures
            (0 <= v <= u8::MAX && in_width(x@ as nat, 5, 3) && is_finite_bits(x@ as nat, 5, 3) && units(x@ as nat, 5, 3, 15) == v * pow2(1074)) ==> <Self as TryFromSpec<u8>>::try_from_spec(v as u8) == Ok::<Self, ConversionError>(x),
            0 <= v <= u8::MAX ==> <Self as TryFromSpec<u8>>::try_from_spec(v as u8) == <Self as TryFromSpec<u128>>::try_from_spec(v as u128),
            (0 <= v <= u16::MAX && in_width(x@ as nat, 5, 3) && is_finite_bits(x@ as nat, 5, 3) && units(x@ as nat, 5, 3, 15) == v * pow2(1074)) ==> <Self as TryFromSpec<u16>>::try_from_spec(v as u16) == Ok::<Self, ConversionError>(x),
            0 <= v <= u16::MAX ==> <Self as TryFromSpec<u16>>::try_from_spec(v as u16) == <Self as TryFromSpec<u128>>::try_from_spec(v as u128),
            (0 <= v <= u32::MAX && in_width(x@ as nat, 5, 3) && is_finite_bits(x@ as nat, 5, 3) && units(x@ as nat, 5, 3, 15) == v * pow2(1074)) ==> <Self as TryFromSpec<u32>>::try_from_spec(v as u32) == Ok::<Self, ConversionError>(x),
            0 <= v <= u32::MAX ==> <Self as TryFromSpec<u32>>::try_from_spec(v as u32) == <Self as TryFromSpec<u128>>::try_from_spec(v as u128),
            (0 <= v <= u64::MAX && in_width(x@ as nat, 5, 3) && is_finite_bits(x@ as nat, 5, 3) && units(x@ as nat, 5, 3, 15) == v * pow2(1074)) ==> <Self as TryFromSpec<u64>>::try_from_spec(v as u64) == Ok::<Self, ConversionError>(x),
            0 <= v <= u64::MAX ==> <Self as TryFromSpec<u64>>::try_from_spec(v as u64) == <Self as TryFromSpec<u128>>::try_from_spec(v as u128),
            (0 <= v <= u128::MAX && in_width(x@ as nat, 5, 3) && is_finite_bits(x@ as nat, 5, 3) && units(x@ as nat, 5, 3, 15) == v * pow2(1074)) ==> <Self as TryFromSpec<u128>>::try_from_spec(v as u128) == Ok::<Self, ConversionError>(x),
            (0 <= v <= usize::MAX && in_width(x@ as nat, 5, 3) && is_finite_bits(x@ as nat, 5, 3) && units(x@ as nat, 5, 3, 15) == v * pow2(1074)) ==> <Self as TryFromSpec<usize>>::try_from_spec(v as usize) == Ok::<Self, ConversionError>(x),
            0 <= v <= usize::MAX ==> <Self as TryFromSpec<usize>>::try_from_spec(v as usize) == <Self as TryFromSpec<u128>>::try_from_spec(v as u128),
            i8::MIN <= v < 0 ==> <Self as TryFromSpec<i8>>::try_from_spec(v as i8) == Err::<Self, ConversionError>(ConversionError::Negative),
            0 <= v <= i8::MAX ==> <Self as TryFromSpec<i8>>::try_from_spec(v as i8) == <Self as TryFromSpec<u128>>::try_from_spec(v as u128),
            i16::MIN <= v < 0 ==> <Self as TryFromSpec<i16>>::try_from_spec(v as i16) == Err::<Self, ConversionError>(ConversionError::Negative),
            0 <= v <= i16::MAX ==> <Self as TryFromSpec<i16>>::try_from_spec(v as i16) == <Self as TryFromSpec<u128>>::try_from_spec(v as u128),
            i32::MIN <= v < 0 ==> <Self as TryFromSpec<i32>>::try_from_spec(v as i32) == Err::<Self, ConversionError>(ConversionError::Negative),
            0 <= v <= i32::MAX ==> <Self as TryFromSpec<i32>>::try_from_spec(v as i32) == <Self as TryFromSpec<u128>>::try_from_spec(v as u128),
            i64::MIN <= v < 0 ==> <Self as TryFromSpec<i64>>::try_from_spec(v as i64) == Err::<Self, ConversionError>(ConversionError::Negative),
            0 <= v <= i64::MAX ==> <Self as TryFromSpec<i64>>::try_from_spec(v as i64) == <Self as TryFromSpec<u128>>::try_from_spec(v as u128),
            i128::MIN <= v < 0 ==> <Self as TryFromSpec<i128>>::try_from_spec(v as i128) == Err::<Self, ConversionError>(ConversionError::Negative),
            0 <= v <= i128::MAX ==> <Self as TryFromSpec<i128>>::try_from_spec(v as i128) == <Self as TryFromSpec<u128>>::try_from_spec(v as u128),
            isize::MIN <= v < 0 ==> <Self as TryFromSpec<isize>>::try_from_spec(v as isize) == Err::<Self, ConversionError>(ConversionError::Negative),
            0 <= v <= isize::MAX ==> <Self as TryFromSpec<isize>>::try_from_spec(v as isize) == <Self as TryFromSpec<u128>>::try_from_spec(v as u128),
    {
        if 0 <= v && in_width(x@ as nat, 5, 3) && is_finite_bits(x@ as nat, 5, 3) && units(x@ as nat, 5, 3, 15) == v * pow2(1074) {
            lemma2_to64();
            lemma_pow2_adds(5, 3);
            Self::lemma_checked_accepts_values(x);
        }
    }
}

impl Uf16 {
    /// Converting an integer depends only on its value, not on the integer type it
    /// comes in: a value below zero is refused as negative, any other value converts as
    /// the same value does from `u128`, and a value that the layout holds exactly
    /// converts to that very number.
    pub proof fn lemma_try_from_integers(v: int, x: Self)
        ensures
            (0 <= v <= u8::MAX && in_width(x@ as nat, 5, 11) && is_finite_bits(x@ as nat, 5, 11) && units(x@ as nat, 5, 11, 15) == v * pow2(1074)) ==> <Self as TryFromSpec<u8>>::try_from_spec(v as u8) == Ok::<Self, ConversionError>(x),
            0 <= v <= u8::MAX ==> <Self as TryFromSpec<u8>>::try_from_spec(v as u8) == <Self as TryFromSpec<u128>>::try_from_spec(v as u128),
            (0 <= v <= u16::MAX && in_width(x@ as nat, 5, 11) && is_finite_bits(x@ as nat, 5, 11) && units(x@ as nat, 5, 11, 15) == v * pow2(1074)) ==> <Self as TryFromSpec<u16>>::try_from_spec(v as u16) == Ok::<Self, ConversionError>(x),
            0 <= v <= u16::MAX ==> <Self as TryFromSpec<u16>>::try_from_spec(v as u16) == <Self as TryFromSpec<u128>>::try_from_spec(v as u128),
            (0 <= v <= u32::MAX && in_width(x@ as nat, 5, 11) && is_finite_bits(x@ as nat, 5, 11) && units(x@ as nat, 5, 11, 15) == v * pow2(1074)) ==> <Self as TryFromSpec<u32>>::try_from_spec(v as u32) == Ok::<Self, ConversionError>(x),
            0 <= v <= u32::MAX ==> <Self as TryFromSpec<u32>>::try_from_spec(v as u32) == <Self as TryFromSpec<u128>>::try_from_spec(v as u128),
            (0 <= v <= u64::MAX && in_width(x@ as nat, 5, 11) && is_finite_bits(x@ as nat, 5, 11) && units(x@ as nat, 5, 11, 15) == v * pow2(1074)) ==> <Self as TryFromSpec<u64>>::try_from_spec(v as u64) == Ok::<Self, ConversionError>(x),
            0 <= v <= u64::MAX ==> <Self as TryFromSpec<u64>>::try_from_spec(v as u64) == <Self as TryFromSpec<u128>>::try_from_spec(v as u128),
            (0 <= v <= u128::MAX && in_width(x@ as nat, 5, 11) && is_finite_bits(x@ as nat, 5, 11) && units(x@ as nat, 5, 11, 15) == v * pow2(1074)) ==> <Self as TryFromSpec<u128>>::try_from_spec(v as u128) == Ok::<Self, ConversionError>(x),
            (0 <= v <= usize::MAX && in_width(x@ as nat, 5, 11) && is_finite_bits(x@ as nat, 5, 11) && units(x@ as nat, 5, 11, 15) == v * pow2(1074)) ==> <Self as TryFromSpec<usize>>::try_from_spec(v as usize) == Ok::<Self, ConversionError>(x),
            0 <= v <= usize::MAX ==> <Self as TryFromSpec<usize>>::try_from_spec(v as usize) == <Self as TryFromSpec<u128>>::try_from_spec(v as u128),
            i8::MIN <= v < 0 ==> <Self as TryFromSpec<i8>>::try_from_spec(v as i8) == Err::<Self, ConversionError>(ConversionError::Negative),
            0 <= v <= i8::MAX ==> <Self as TryFromSpec<i8>>::try_from_spec(v as i8) == <Self as TryFromSpec<u128>>::try_from_spec(v as u128),
            i16::MIN <= v < 0 ==> <Self as TryFromSpec<i16>>::try_from_spec(v as i16) == Err::<Self, ConversionError>(ConversionError::Negative),
            0 <= v <= i16::MAX ==> <Self as TryFromSpec<i16>>::try_from_spec(v as i16) == <Self as TryFromSpec<u128>>::try_from_spec(v as u128),
            i32::MIN <= v < 0 ==> <Self as TryFromSpec<i32>>::try_from_spec(v as i32) == Err::<Self, ConversionError>(ConversionError::Negative),
            0 <= v <= i32::MAX ==> <Self as TryFromSpec<i32>>::try_from_spec(v as i32) == <Self as TryFromSpec<u128>>::try_from_spec(v as u128),
            i64::MIN <= v < 0 ==> <Self as TryFromSpec<i64>>::try_from_spec(v as i64) == Err::<Self, ConversionError>(ConversionError::Negative),
            0 <= v <= i64::MAX ==> <Self as TryFromSpec<i64>>::try_from_spec(v as i64) == <Self as TryFromSpec<u128>>::try_from_spec(v as u128),
            i128::MIN <= v < 0 ==> <Self as TryFromSpec<i128>>::try_from_spec(v as i128) == Err::<Self, ConversionError>(ConversionError::Negative),
            0 <= v <= i128::MAX ==> <Self as TryFromSpec<i128>>::try_from_spec(v as i128) == <Self as TryFromSpec<u128>>::try_from_spec(v as u128),
            isize::MIN <= v < 0 ==> <Self as TryFromSpec<isize>>::try_from_spec(v as isize) == Err::<Self, ConversionError>(ConversionError::Negative),
            0 <= v <= isize::MAX ==> <Self as TryFromSpec<isize>>::try_from_spec(v as isize) == <Self as TryFromSpec<u128>>::try_from_spec(v as u128),
    {
        if 0 <= v && in_width(x@ as nat, 5, 11) && is_finite_bits(x@ as nat, 5, 11) && units(x@ as nat, 5, 11, 15) == v * pow2(1074) {
            lemma2_to64();
            lemma_pow2_adds(5, 11);
            Self::lemma_checked_accepts_values(x);
        }
    }
}

impl Uf16E6M10 {
    /// Converting an integer depends only on its value, not on the integer type it
    /// comes in: a value below zero is refused as negative, any other value converts as
    /// the same value does from `u128`, and a value that the layout holds exactly
    /// converts to that very number.
    pub proof fn lemma_try_from_integers(v: int, x: Self)
        ensures
            (0 <= v <= u8::MAX && in_width(x@ as nat, 6, 10) && is_finite_bits(x@ as nat, 6, 10) && units(x@ as nat, 6, 10, 31) == v * pow2(1074)) ==> <Self as TryFromSpec<u8>>::try_from_spec(v as u8) == Ok::<Self, ConversionError>(x),
            0 <= v <= u8::MAX ==> <Self as TryFromSpec<u8>>::try_from_spec(v as u8) == <Self as TryFromSpec<u128>>::try_from_spec(v as u128),
            (0 <= v <= u16::MAX && in_width(x@ as nat, 6, 10) && is_finite_bits(x@ as nat, 6, 10) && units(x@ as nat, 6, 10, 31) == v * pow2(1074)) ==> <Self as TryFromSpec<u16>>::try_from_spec(v as u16) == Ok::<Self, ConversionError>(x),
            0 <= v <= u16::MAX ==> <Self as TryFromSpec<u16>>::try_from_spec(v as u16) == <Self as TryFromSpec<u128>>::try_from_spec(v as u128),
            (0 <= v <= u32::MAX && in_width(x@ as nat, 6, 10) && is_finite_bits(x@ as nat, 6, 10) && units(x@ as nat, 6, 10, 31) == v * pow2(1074)) ==> <Self as TryFromSpec<u32>>::try_from_spec(v as u32) == Ok::<Self, ConversionError>(x),
            0 <= v <= u32::MAX ==> <Self as TryFromSpec<u32>>::try_from_spec(v as u32) == <Self as TryFromSpec<u128>>::try_from_spec(v as u128),
            (0 <= v <= u64::MAX && in_width(x@ as nat, 6, 10) && is_finite_bits(x@ as nat, 6, 10) && units(x@ as nat, 6, 10, 31) == v * pow2(1074)) ==> <Self as TryFromSpec<u64>>::try_from_spec(v as u64) == Ok::<Self, ConversionError>(x),
            0 <= v <= u64::MAX ==> <Self as TryFromSpec<u64>>::try_from_spec(v as u64) == <Self as TryFromSpec<u128>>::try_from_spec(v as u128),
            (0 <= v <= u128::MAX && in_width(x@ as nat, 6, 10) && is_finite_bits(x@ as nat, 6, 10) && units(x@ as nat, 6, 10, 31) == v * pow2(1074)) ==> <Self as TryFromSpec<u128>>::try_from_spec(v as u128) == Ok::<Self, ConversionError>(x),
            (0 <= v <= usize::MAX && in_width(x@ as nat, 6, 10) && is_finite_bits(x@ as nat, 6, 10) && units(x@ as nat, 6, 10, 31) == v * pow2(1074)) ==> <Self as TryFromSpec<usize>>::try_from_spec(v as usize) == Ok::<Self, ConversionError>(x),
            0 <= v <= usize::MAX ==> <Self as TryFromSpec<usize>>::try_from_spec(v as usize) == <Self as TryFromSpec<u128>>::try_from_spec(v as u128),
            i8::MIN <= v < 0 ==> <Self as TryFromSpec<i8>>::try_from_spec(v as i8) == Err::<Self, ConversionError>(ConversionError::Negative),
            0 <= v <= i8::MAX ==> <Self as TryFromSpec<i8>>::try_from_spec(v as i8) == <Self as TryFromSpec<u128>>::try_from_spec(v as u128),
            i16::MIN <= v < 0 ==> <Self as TryFromSpec<i16>>::try_from_spec(v as i16) == Err::<Self, ConversionError>(ConversionError::Negative),
            0 <= v <= i16::MAX ==> <Self as TryFromSpec<i16>>::try_from_spec(v as i16) == <Self as TryFromSpec<u128>>::try_from_spec(v as u128),
            i32::MIN <= v < 0 ==> <Self as TryFromSpec<i32>>::try_from_spec(v as i32) == Err::<Self, ConversionError>(ConversionError::Negative),
            0 <= v <= i32::MAX ==> <Self as TryFromSpec<i32>>::try_from_spec(v as i32) == <Self as TryFromSpec<u128>>::try_from_spec(v as u128),
            i64::MIN <= v < 0 ==> <Self as TryFromSpec<i64>>::try_from_spec(v as i64) == Err::<Self, ConversionError>(ConversionError::Negative),
            0 <= v <= i64::MAX ==> <Self as TryFromSpec<i64>>::try_from_spec(v as i64) == <Self as TryFromSpec<u128>>::try_from_spec(v as u128),
            i128::MIN <= v < 0 ==> <Self as TryFromSpec<i128>>::try_from_spec(v as i128) == Err::<Self, ConversionError>(ConversionError::Negative),
            0 <= v <= i128::MAX ==> <Self as TryFromSpec<i128>>::try_from_spec(v as i128) == <Self as TryFromSpec<u128>>::try_from_spec(v as u128),
            isize::MIN <= v < 0 ==> <Self as TryFromSpec<isize>>::try_from_spec(v as isize) == Err::<Self, ConversionError>(ConversionError::Negative),
            0 <= v <= isize::MAX ==> <Self as TryFromSpec<isize>>::try_from_spec(v as isize) == <Self as TryFromSpec<u128>>::try_from_spec(v as u128),
    {
        if 0 <= v && in_width(x@ as nat, 6, 10) && is_finite_bits(x@ as nat, 6, 10) && units(x@ as nat, 6, 10, 31) == v * pow2(1074) {
            lemma2_to64();
            lemma_pow2_adds(6, 10);
            Self::lemma_checked_accepts_values(x);
        }
    }
}

impl Uf32E8M24 {
    /// Converting an integer depends only on its value, not on the integer type it
    /// comes in: a value below zero is refused as negative, any other value converts as
    /// the same value does from `u128`, and a value that the layout holds exactly
    /// converts to that very number.
    pub proof fn lemma_try_from_integers(v: int, x: Self)
        ensures
            (0 <= v <= u8::MAX && in_width(x@ as nat, 8, 24) && is_finite_bits(x@ as nat, 8, 24) && units(x@ as nat, 8, 24, 127) == v * pow2(1074)) ==> <Self as TryFromSpec<u8>>::try_from_spec(v as u8) == Ok::<Self, ConversionError>(x),
            0 <= v <= u8::MAX ==> <Self as TryFromSpec<u8>>::try_from_spec(v as u8) == <Self as TryFromSpec<u128>>::try_from_spec(v as u128),
            (0 <= v <= u16::MAX && in_width(x@ as nat, 8, 24) && is_finite_bits(x@ as nat, 8, 24) && units(x@ as nat, 8, 24, 127) == v * pow2(1074)) ==> <Self as TryFromSpec<u16>>::try_from_spec(v as u16) == Ok::<Self, ConversionError>(x),
            0 <= v <= u16::MAX ==> <Self as TryFromSpec<u16>>::try_from_spec(v as u16) == <Self as TryFromSpec<u128>>::try_from_spec(v as u128),
            (0 <= v <= u32::MAX && in_width(x@ as nat, 8, 24) && is_finite_bits(x@ as nat, 8, 24) && units(x@ as nat, 8, 24, 127) == v * pow2(1074)) ==> <Self as TryFromSpec<u32>>::try_from_spec(v as u32) == Ok::<Self, ConversionError>(x),
            0 <= v <= u32::MAX ==> <Self as TryFromSpec<u32>>::try_from_spec(v as u32) == <Self as TryFromSpec<u128>>::try_from_spec(v as u128),
            (0 <= v <= u64::MAX && in_width(x@ as nat, 8, 24) && is_finite_bits(x@ as nat, 8, 24) && units(x@ as nat, 8, 24, 127) == v * pow2(1074)) ==> <Self as TryFromSpec<u64>>::try_from_spec(v as u64) == Ok::<Self, ConversionError>(x),
            0 <= v <= u64::MAX ==> <Self as TryFromSpec<u64>>::try_from_spec(v as u64) == <Self as TryFromSpec<u128>>::try_from_spec(v as u128),
            (0 <= v <= u128::MAX && in_width(x@ as nat, 8, 24) && is_finite_bits(x@ as nat, 8, 24) && units(x@ as nat, 8, 24, 127) == v * pow2(1074)) ==> <Self as TryFromSpec<u128>>::try_from_spec(v as u128) == Ok::<Self, ConversionError>(x),
            (0 <= v <= usize::MAX && in_width(x@ as nat, 8, 24) && is_finite_bits(x@ as nat, 8, 24) && units(x@ as nat, 8, 24, 127) == v * pow2(1074)) ==> <Self as TryFromSpec<usize>>::try_from_spec(v as usize) == Ok::<Self, ConversionError>(x),
            0 <= v <= usize::MAX ==> <Self as TryFromSpec<usize>>::try_from_spec(v as usize) == <Self as TryFromSpec<u128>>::try_from_spec(v as u128),
            i8::MIN <= v < 0 ==> <Self as TryFromSpec<i8>>::try_from_spec(v as i8) == Err::<Self, ConversionError>(ConversionError::Negative),
            0 <= v <= i8::MAX ==> <Self as TryFromSpec<i8>>::try_from_spec(v as i8) == <Self as TryFromSpec<u128>>::try_from_spec(v as u128),
            i16::MIN <= v < 0 ==> <Self as TryFromSpec<i16>>::try_from_spec(v as i16) == Err::<Self, ConversionError>(ConversionError::Negative),
            0 <= v <= i16::MAX ==> <Self as TryFromSpec<i16>>::try_from_spec(v as i16) == <Self as TryFromSpec<u128>>::try_from_spec(v as u128),
            i32::MIN <= v < 0 ==> <Self as TryFromSpec<i32>>::try_from_spec(v as i32) == Err::<Self, ConversionError>(ConversionError::Negative),
            0 <= v <= i32::MAX ==> <Self as TryFromSpec<i32>>::try_from_spec(v as i32) == <Self as TryFromSpec<u128>>::try_from_spec(v as u128),
            i64::MIN <= v < 0 ==> <Self as TryFromSpec<i64>>::try_from_spec(v as i64) == Err::<Self, ConversionError>(ConversionError::Negative),
            0 <= v <= i64::MAX ==> <Self as TryFromSpec<i64>>::try_from_spec(v as i64) == <Self as TryFromSpec<u128>>::try_from_spec(v as u128),
            i128::MIN <= v < 0 ==> <Self as TryFromSpec<i128>>::try_from_spec(v as i128) == Err::<Self, ConversionError>(ConversionError::Negative),
            0 <= v <= i128::MAX ==> <Self as TryFromSpec<i128>>::try_from_spec(v as i128) == <Self as TryFromSpec<u128>>::try_from_spec(v as u128),
            isize::MIN <= v < 0 ==> <Self as TryFromSpec<isize>>::try_from_spec(v as isize) == Err::<Self, ConversionError>(ConversionError::Negative),
            0 <= v <= isize::MAX ==> <Self as TryFromSpec<isize>>::try_from_spec(v as isize) == <Self as TryFromSpec<u128>>::try_from_spec(v as u128),
    {
        if 0 <= v && in_width(x@ as nat, 8, 24) && is_finite_bits(x@ as nat, 8, 24) && units(x@ as nat, 8, 24, 127) == v * pow2(1074) {
            lemma2_to64();
            lemma_pow2_adds(8, 24);
            Self::lemma_checked_accepts_values(x);
        }
    }
}

impl Uf64E11M52 {
    /// Converting an integer depends only on its value, not on the integer type it
    /// comes in: a value below zero is refused as negative, any other value converts as
    /// the same value does from `u128`, and a value that the layout holds exactly
    /// converts to that very number.
    pub proof fn lemma_try_from_integers(v: int, x: Self)
        ensures
            (0 <= v <= u8::MAX && in_width(x@ as nat, 11, 52) && is_finite_bits(x@ as nat, 11, 52) && units(x@ as nat, 11, 52, 1023) == v * pow2(1074)) ==> <Self as TryFromSpec<u8>>::try_from_spec(v as u8) == Ok::<Self, ConversionError>(x),
            0 <= v <= u8::MAX ==> <Self as TryFromSpec<u8>>::try_from_spec(v as u8) == <Self as TryFromSpec<u128>>::try_from_spec(v as u128),
            (0 <= v <= u16::MAX && in_width(x@ as nat, 11, 52) && is_finite_bits(x@ as nat, 11, 52) && units(x@ as nat, 11, 52, 1023) == v * pow2(1074)) ==> <Self as TryFromSpec<u16>>::try_from_spec(v as u16) == Ok::<Self, ConversionError>(x),
            0 <= v <= u16::MAX ==> <Self as TryFromSpec<u16>>::try_from_spec(v as u16) == <Self as TryFromSpec<u128>>::try_from_spec(v as u128),
            (0 <= v <= u32::MAX && in_width(x@ as nat, 11, 52) && is_finite_bits(x@ as nat, 11, 52) && units(x@ as nat, 11, 52, 1023) == v * pow2(1074)) ==> <Self as TryFromSpec<u32>>::try_from_spec(v as u32) == Ok::<Self, ConversionError>(x),
            0 <= v <= u32::MAX ==> <Self as TryFromSpec<u32>>::try_from_spec(v as u32) == <Self as TryFromSpec<u128>>::try_from_spec(v as u128),
            (0 <= v <= u64::MAX && in_width(x@ as nat, 11, 52) && is_finite_bits(x@ as nat, 11, 52) && units(x@ as nat, 11, 52, 1023) == v * pow2(1074)) ==> <Self as TryFromSpec<u64>>::try_from_spec(v as u64) == Ok::<Self, ConversionError>(x),
            0 <= v <= u64::MAX ==> <Self as TryFromSpec<u64>>::try_from_spec(v as u64) == <Self as TryFromSpec<u128>>::try_from_spec(v as u128),
            (0 <= v <= u128::MAX && in_width(x@ as nat, 11, 52) && is_finite_bits(x@ as nat, 11, 52) && units(x@ as nat, 11, 52, 1023) == v * pow2(1074)) ==> <Self as TryFromSpec<u128>>::try_from_spec(v as u128) == Ok::<Self, ConversionError>(x),
            (0 <= v <= usize::MAX && in_width(x@ as nat, 11, 52) && is_finite_bits(x@ as nat, 11, 52) && units(x@ as nat, 11, 52, 1023) == v * pow2(1074)) ==> <Self as TryFromSpec<usize>>::try_from_spec(v as usize) == Ok::<Self, ConversionError>(x),
            0 <= v <= usize::MAX ==> <Self as TryFromSpec<usize>>::try_from_spec(v as usize) == <Self as TryFromSpec<u128>>::try_from_spec(v as u128),
            i8::MIN <= v < 0 ==> <Self as TryFromSpec<i8>>::try_from_spec(v as i8) == Err::<Self, ConversionError>(ConversionError::Negative),
            0 <= v <= i8::MAX ==> <Self as TryFromSpec<i8>>::try_from_spec(v as i8) == <Self as TryFromSpec<u128>>::try_from_spec(v as u128),
            i16::MIN <= v < 0 ==> <Self as TryFromSpec<i16>>::try_from_spec(v as i16) == Err::<Self, ConversionError>(ConversionError::Negative),
            0 <= v <= i16::MAX ==> <Self as TryFromSpec<i16>>::try_from_spec(v as i16) == <Self as TryFromSpec<u128>>::try_from_spec(v as u128),
            i32::MIN <= v < 0 ==> <Self as TryFromSpec<i32>>::try_from_spec(v as i32) == Err::<Self, ConversionError>(ConversionError::Negative),
            0 <= v <= i32::MAX ==> <Self as TryFromSpec<i32>>::try_from_spec(v as i32) == <Self as TryFromSpec<u128>>::try_from_spec(v as u128),
            i64::MIN <= v < 0 ==> <Self as TryFromSpec<i64>>::try_from_spec(v as i64) == Err::<Self, ConversionError>(ConversionError::Negative),
            0 <= v <= i64::MAX ==> <Self as TryFromSpec<i64>>::try_from_spec(v as i64) == <Self as TryFromSpec<u128>>::try_from_spec(v as u128),
            i128::MIN <= v < 0 ==> <Self as TryFromSpec<i128>>::try_from_spec(v as i128) == Err::<Self, ConversionError>(ConversionError::Negative),
            0 <= v <= i128::MAX ==> <Self as TryFromSpec<i128>>::try_from_spec(v as i128) == <Self as TryFromSpec<u128>>::try_from_spec(v as u128),
            isize::MIN <= v < 0 ==> <Self as TryFromSpec<isize>>::try_from_spec(v as isize) == Err::<Self, ConversionError>(ConversionError::Negative),
            0 <= v <= isize::MAX ==> <Self as TryFromSpec<isize>>::try_from_spec(v as isize) == <Self as TryFromSpec<u128>>::try_from_spec(v as u128),
    {
        if 0 <= v && in_width(x@ as nat, 11, 52) && is_finite_bits(x@ as nat, 11, 52) && units(x@ as nat, 11, 52, 1023) == v * pow2(1074) {
            lemma2_to64();
            lemma_pow2_adds(11, 52);
            lemma2_to64_rest();
            assert(x@ < 0x8000_0000_0000_0000);
            Self::lemma_checked_accepts_values(x);
        }
    }
}

} // verus!
