//! Checked conversion from native floats: why a value is refused.
use vstd::prelude::*;
use vstd::arithmetic::power2::{lemma2_to64, lemma2_to64_rest};
use crate::model::{exp_field, man_field, f64_sign, inf_bits};
use crate::bitfacts::{lemma_u64_shr, lemma_u64_mask, lemma_u64_one_shl};

verus! {

/// Why a value has no faithful unsigned-float encoding.
#[derive(Clone, Copy, Debug, PartialEq, Eq, Structural)]
pub enum ConversionError {
    Negative,
    Nan,
    Infinite,
    Overflow,
    Underflow,
}

impl ConversionError {
    /// A short description of the error.
    pub fn message(self) -> (r: &'static str)
        ensures
            self == ConversionError::Negative ==> r@ == "value is negative"@,
            self == ConversionError::Nan ==> r@ == "value is NaN"@,
            self == ConversionError::Infinite ==> r@ == "value is infinite"@,
            self == ConversionError::Overflow ==> r@ == "value is too large"@,
            self == ConversionError::Underflow ==> r@ == "positive value is too small"@,
    {
        match self {
            ConversionError::Negative => "value is negative",
            ConversionError::Nan => "value is NaN",
            ConversionError::Infinite => "value is infinite",
            ConversionError::Overflow => "value is too large",
            ConversionError::Underflow => "positive value is too small",
        }
    }
}

/// The binary64 bits are a NaN.
pub open spec fn f64_is_nan(x: nat) -> bool {
    exp_field(x, 11, 52) == 2047 && man_field(x, 52) != 0
}

/// The binary64 bits are an infinity of either sign.
pub open spec fn f64_is_infinite(x: nat) -> bool {
    exp_field(x, 11, 52) == 2047 && man_field(x, 52) == 0
}

/// The binary64 bits are a zero of either sign.
pub open spec fn f64_is_zero(x: nat) -> bool {
    exp_field(x, 11, 52) == 0 && man_field(x, 52) == 0
}

/// The binary64 bits are a number below zero.
pub open spec fn f64_is_negative(x: nat) -> bool {
    f64_sign(x) == 1 && !f64_is_zero(x) && !f64_is_nan(x)
}

/// What a checked conversion of the binary64 value `value` refuses, given the pattern
/// `encoded` that it encodes to in a layout with `eb` exponent and `mb` mantissa bits:
/// NaN, an infinity, a negative number, a value that encodes to infinity, and a
/// non-zero value that encodes to zero.
pub open spec fn conversion_outcome(value: nat, encoded: nat, eb: nat, mb: nat) -> Option<ConversionError> {
    if f64_is_nan(value) {
        Some(ConversionError::Nan)
    } else if f64_is_infinite(value) {
        Some(ConversionError::Infinite)
    } else if f64_is_negative(value) {
        Some(ConversionError::Negative)
    } else if encoded == inf_bits(eb, mb) {
        Some(ConversionError::Overflow)
    } else if !f64_is_zero(value) && encoded == 0 {
        Some(ConversionError::Underflow)
    } else {
        None
    }
}

/// Shifting out the sign bit leaves zero exactly for the two zeros.
proof fn lemma_f64_zero_test(value: u64)
    ensures
        (((1u64 << 11u32) - 1) as u64) == 0x7ffu64,
        ((value << 1u32) != 0) == !(((value >> 52u32) & 0x7ff) == 0 && (value & (((1u64 << 52u32) - 1) as u64)) == 0),
{
    assert((((1u64 << 11u32) - 1) as u64) == 0x7ffu64 && ((value << 1u32) != 0) == !(((value >> 52u32) & 0x7ff) == 0 && (value & (((1u64 << 52u32) - 1) as u64)) == 0)) by (bit_vector);
}

/// Refuses NaN, infinities and negative numbers (negative zero passes).
pub fn check_finite_non_negative(value: u64) -> (r: Result<(), ConversionError>)
    ensures
        r == (if f64_is_nan(value as nat) {
            Err(ConversionError::Nan)
        } else if f64_is_infinite(value as nat) {
            Err(ConversionError::Infinite)
        } else if f64_is_negative(value as nat) {
            Err(ConversionError::Negative)
        } else {
            Ok(())
        }),
{
    proof {
        lemma2_to64();
        lemma2_to64_rest();
        lemma_u64_shr(value, 52);
        lemma_u64_shr(value, 63);
        lemma_u64_mask(value >> 52u32, 11);
        lemma_u64_mask(value, 52);
        lemma_u64_one_shl(52);
        lemma_f64_zero_test(value);
    }
    let exp = (value >> 52u32) & 0x7ff;
    let fraction = value & ((1u64 << 52u32) - 1);
    if exp == 0x7ff && fraction != 0 {
        Err(ConversionError::Nan)
    } else if exp == 0x7ff {
        Err(ConversionError::Infinite)
    } else if (value >> 63u32) == 1 && (value << 1u32) != 0 {
        Err(ConversionError::Negative)
    } else {
        Ok(())
    }
}

/// Refuses an encoding that overflowed to infinity, and a non-zero value that
/// underflowed to zero.
pub fn check_encoded(value: u64, is_zero: bool, is_infinite: bool) -> (r: Result<(), ConversionError>)
    ensures
        r == (if is_infinite {
            Err(ConversionError::Overflow)
        } else if !f64_is_zero(value as nat) && is_zero {
            Err(ConversionError::Underflow)
        } else {
            Ok(())
        }),
{
    proof {
        lemma2_to64();
        lemma2_to64_rest();
        lemma_u64_shr(value, 52);
        lemma_u64_mask(value >> 52u32, 11);
        lemma_u64_mask(value, 52);
        lemma_u64_one_shl(52);
        lemma_f64_zero_test(value);
    }
    if is_infinite {
        Err(ConversionError::Overflow)
    } else if (value << 1u32) != 0 && is_zero {
        Err(ConversionError::Underflow)
    } else {
        Ok(())
    }
}

} // verus!
