//! The 64-bit unsigned float layout.
use vstd::prelude::*;
use vstd::arithmetic::power2::{pow2, lemma2_to64, lemma2_to64_rest, lemma_pow2_adds};
use crate::model::{units, exp_field, man_field, max_exp, sub_shift, inf_bits, is_nan_bits, is_inf_bits, is_finite_bits, in_width, encodable, decode_f64, encode_f64, encode_float, narrow_f64, lemma_layouts, lemma_fields, lemma_split, lemma_encode_float_in_width};
use crate::codec::encode_from_f64;
use crate::widths::{f16_to_f64, f32_to_f64, f64_to_f16, f64_to_f32, lemma_widen_then_encode};
use crate::convert::{ConversionError, conversion_outcome, check_finite_non_negative, check_encoded, f64_is_nan, f64_is_infinite, f64_is_negative, f64_is_zero};

verus! {

/// A 64-bit unsigned float with 11 exponent bits and 52 mantissa bits (bias 1023); the top bit is unused.
#[derive(Clone, Copy, Debug, PartialEq, Eq, Structural, Hash, Ord)]
pub struct Uf64E11M52(u64);

/// The default 64-bit layout.
pub type Uf64 = Uf64E11M52;

impl View for Uf64E11M52 {
    type V = u64;

    closed spec fn view(&self) -> u64 {
        self.0
    }
}

impl Default for Uf64E11M52 {
    /// Zero.
    fn default() -> (r: Self)
        ensures
            r@ == 0,
    {
        Self(0)
    }
}

impl Uf64E11M52 {
    pub const EXPONENT_BITS: u32 = 11;
    pub const MANTISSA_BITS: u32 = 52;
    pub const EXPONENT_BIAS: i32 = 1023;
    pub const EXPONENT_MASK: u64 = 0x7ff0_0000_0000_0000;
    pub const MANTISSA_MASK: u64 = 0x000f_ffff_ffff_ffff;

    /// Zero.
    #[allow(non_snake_case)]
    pub fn ZERO() -> (r: Self)
        ensures
            r@ == 0,
    {
        Self(0)
    }

    /// One.
    #[allow(non_snake_case)]
    pub fn ONE() -> (r: Self)
        ensures
            r@ == 0x3ff0_0000_0000_0000,
            units(r@ as nat, 11, 52, 1023) == pow2(1074),
    {
        proof {
            lemma_e11m52_facts();
        }
        Self(0x3ff0_0000_0000_0000)
    }

    /// Positive infinity.
    #[allow(non_snake_case)]
    pub fn INFINITY() -> (r: Self)
        ensures
            r@ == 0x7ff0_0000_0000_0000,
            is_inf_bits(r@ as nat, 11, 52),
    {
        proof {
            lemma_e11m52_facts();
        }
        Self(0x7ff0_0000_0000_0000)
    }

    /// The canonical quiet NaN.
    #[allow(non_snake_case)]
    pub fn NAN() -> (r: Self)
        ensures
            r@ == 0x7ff8_0000_0000_0000,
            is_nan_bits(r@ as nat, 11, 52),
    {
        proof {
            lemma_e11m52_facts();
        }
        Self(0x7ff8_0000_0000_0000)
    }

    /// The largest finite value.
    #[allow(non_snake_case)]
    pub fn MAX() -> (r: Self)
        ensures
            r@ == 0x7fef_ffff_ffff_ffff,
            is_finite_bits(r@ as nat, 11, 52),
            forall|b: nat| #[trigger] is_finite_bits(b, 11, 52) && in_width(b, 11, 52) ==> b <= r@,
    {
        proof {
            lemma_e11m52_facts();
            assert forall|b: nat| #[trigger] is_finite_bits(b, 11, 52) && in_width(b, 11, 52) implies b <= 0x7fef_ffff_ffff_ffff by {
                lemma_split(b, 11, 52);
            }
        }
        Self(0x7fef_ffff_ffff_ffff)
    }

    /// The smallest positive (subnormal) value.
    #[allow(non_snake_case)]
    pub fn MIN_POSITIVE() -> (r: Self)
        ensures
            r@ == 0x0000_0000_0000_0001,
            units(r@ as nat, 11, 52, 1023) == pow2(sub_shift(52, 1023)),
    {
        proof {
            lemma_e11m52_facts();
        }
        Self(0x0000_0000_0000_0001)
    }

    /// The smallest normal value.
    #[allow(non_snake_case)]
    pub fn MIN_NORMAL() -> (r: Self)
        ensures
            r@ == 0x0010_0000_0000_0000,
            exp_field(r@ as nat, 11, 52) == 1 && man_field(r@ as nat, 52) == 0,
    {
        proof {
            lemma_e11m52_facts();
        }
        Self(0x0010_0000_0000_0000)
    }

    /// Wraps a raw bit pattern.
    pub fn from_bits(bits: u64) -> (r: Self)
        ensures
            r@ == bits,
    {
        Self(bits)
    }

    /// The raw bit pattern.
    pub fn to_bits(self) -> (r: u64)
        ensures
            r == self@,
    {
        self.0
    }

    /// The value with the raw bit pattern `bits`.
    pub closed spec fn with_bits(bits: u64) -> Self {
        Self(bits)
    }

    /// `with_bits` keeps its pattern, and every value is `with_bits` of its own pattern.
    pub proof fn lemma_with_bits(bits: u64, x: Self)
        ensures
            Self::with_bits(bits)@ == bits,
            x == Self::with_bits(x@),
    {
    }

    /// What a checked conversion of the binary64 value with bits `value` gives: the
    /// encoded value, or why it is refused.
    pub open spec fn checked_from_f64(value: nat) -> Result<Self, ConversionError> {
        match conversion_outcome(value, encode_f64(value, 11, 52, 1023), 11, 52) {
            Some(e) => Err(e),
            None => Ok(Self::with_bits((encode_f64(value, 11, 52, 1023)) as u64)),
        }
    }

    /// The binary64 bits of the value: the same bits without the unused top bit, and
    /// the canonical NaN for a NaN.
    pub fn to_f64_bits(self) -> (r: u64)
        ensures
            r == decode_f64(self@ as nat, 11, 52, 1023),
    {
        proof {
            lemma_f64_value_bits(self.0);
        }
        if self.is_nan() {
            0x7ff8_0000_0000_0000
        } else {
            self.0 & 0x7fff_ffff_ffff_ffff
        }
    }

    /// Encodes the binary64 value with bits `value`.
    pub fn from_f64_bits(value: u64) -> (r: Self)
        ensures
            r@ == encode_f64(value as nat, 11, 52, 1023),
    {
        proof {
            lemma_layouts();
        }
        Self(encode_from_f64(value, 11, 52, 1023))
    }

    /// Encodes the binary64 value with bits `value`, refusing NaN, infinities, negative
    /// numbers, values that overflow to infinity and non-zero values that underflow to
    /// zero.
    pub fn try_from_f64_bits(value: u64) -> (r: Result<Self, ConversionError>)
        ensures
            r == Self::checked_from_f64(value as nat),
    {
        proof {
            lemma_e11m52_facts();
        }
        match check_finite_non_negative(value) {
            Err(e) => {
                return Err(e);
            },
            Ok(()) => {},
        }
        let encoded = Self::from_f64_bits(value);
        proof {
            Self::lemma_with_bits(encoded@, encoded);
        }
        match check_encoded(value, encoded.is_zero(), encoded.is_infinite()) {
            Err(e) => Err(e),
            Ok(()) => Ok(encoded),
        }
    }

    /// Encodes the binary32 value with bits `value`.
    pub fn from_f32_bits(value: u32) -> (r: Self)
        ensures
            r@ == encode_float(value as nat, 8, 23, 127, 11, 52, 1023),
    {
        proof {
            lemma_layouts();
            lemma2_to64();
            lemma_widen_then_encode(value as nat, 8, 23, 127, 11, 52, 1023);
        }
        Self::from_f64_bits(f32_to_f64(value))
    }

    /// The binary32 bits of the value, rounded to nearest with ties to even.
    pub fn to_f32_bits(self) -> (r: u32)
        ensures
            r == narrow_f64(decode_f64(self@ as nat, 11, 52, 1023), 8, 23, 127),
    {
        f64_to_f32(self.to_f64_bits())
    }

    /// Encodes the binary16 value with bits `value`.
    pub fn from_f16_bits(value: u16) -> (r: Self)
        ensures
            r@ == encode_float(value as nat, 5, 10, 15, 11, 52, 1023),
    {
        proof {
            lemma_layouts();
            lemma2_to64();
            lemma_widen_then_encode(value as nat, 5, 10, 15, 11, 52, 1023);
        }
        Self::from_f64_bits(f16_to_f64(value))
    }

    /// The binary16 bits of the value, rounded to nearest with ties to even.
    pub fn to_f16_bits(self) -> (r: u16)
        ensures
            r == narrow_f64(decode_f64(self@ as nat, 11, 52, 1023), 5, 10, 15),
    {
        f64_to_f16(self.to_f64_bits())
    }

    /// The biased exponent field.
    pub fn exponent(self) -> (r: u64)
        ensures
            r == exp_field(self@ as nat, 11, 52),
    {
        proof {
            lemma_e11m52_facts();
            lemma_e11m52_fields(self.0);
        }
        (self.0 & Self::EXPONENT_MASK) >> Self::MANTISSA_BITS
    }

    /// The stored mantissa field, without the implicit leading bit.
    pub fn mantissa(self) -> (r: u64)
        ensures
            r == man_field(self@ as nat, 52),
    {
        proof {
            lemma_e11m52_facts();
            lemma_e11m52_fields(self.0);
        }
        self.0 & Self::MANTISSA_MASK
    }

    /// The value is zero.
    pub fn is_zero(self) -> (r: bool)
        ensures
            r == (self@ == 0),
    {
        self.0 == 0
    }

    /// The value is a NaN.
    pub fn is_nan(self) -> (r: bool)
        ensures
            r == is_nan_bits(self@ as nat, 11, 52),
    {
        proof {
            lemma_e11m52_facts();
        }
        self.exponent() == 0x7ff && self.mantissa() != 0
    }

    /// The value is positive infinity.
    pub fn is_infinite(self) -> (r: bool)
        ensures
            r == (self@ == inf_bits(11, 52)),
    {
        proof {
            lemma_e11m52_facts();
        }
        self.0 == Self::INFINITY().0
    }

    /// The value is neither infinite nor NaN.
    pub fn is_finite(self) -> (r: bool)
        ensures
            r == is_finite_bits(self@ as nat, 11, 52),
    {
        proof {
            lemma_e11m52_facts();
        }
        self.exponent() != 0x7ff
    }

    /// The value is subnormal: zero exponent field, non-zero mantissa.
    pub fn is_subnormal(self) -> (r: bool)
        ensures
            r == (exp_field(self@ as nat, 11, 52) == 0 && man_field(self@ as nat, 52) != 0),
    {
        self.exponent() == 0 && self.mantissa() != 0
    }
}

impl Uf64E11M52 {
    /// Raw-bit order is value order: a finite pattern above another has the larger value.
    pub proof fn lemma_bits_order_is_value_order(a: Self, b: Self)
        requires
            a@ < b@,
            is_finite_bits(b@ as nat, 11, 52),
            b@ < 0x8000_0000_0000_0000,
        ensures
            units(a@ as nat, 11, 52, 1023) < units(b@ as nat, 11, 52, 1023),
    {
        lemma_e11m52_facts();
        crate::model::lemma_units_strictly_increasing(a@ as nat, b@ as nat, 11, 52, 1023);
    }

    /// Converting a non-NaN value with a clear top bit to binary64 and back gives it
    /// unchanged.
    pub proof fn lemma_f64_roundtrip(x: Self)
        requires
            !is_nan_bits(x@ as nat, 11, 52),
            x@ < 0x8000_0000_0000_0000,
        ensures
            encode_f64(decode_f64(x@ as nat, 11, 52, 1023), 11, 52, 1023) == x@,
    {
        lemma_e11m52_facts();
        lemma_f64_value_bits(x@);
        crate::bitfacts::lemma_u64_mask(x@, 63);
        lemma2_to64_rest();
        vstd::arithmetic::div_mod::lemma_small_mod(x@ as nat, pow2(63));
        let v = x@;
        assert((((1u64 << 63u32) - 1) as u64) == 0x7fff_ffff_ffff_ffffu64 && (v & 0x7fff_ffff_ffff_ffff) == v) by (bit_vector)
            requires
                v < 0x8000_0000_0000_0000,
        ;
        crate::laws::lemma_self_encode(x@ as nat);
    }

    /// A checked conversion accepts every finite value with a clear top bit: its
    /// binary64 value converts back to it without error.
    pub proof fn lemma_checked_accepts_values(x: Self)
        requires
            is_finite_bits(x@ as nat, 11, 52),
            x@ < 0x8000_0000_0000_0000,
        ensures
            Self::checked_from_f64(decode_f64(x@ as nat, 11, 52, 1023)) == Ok::<Self, ConversionError>(x),
    {
        lemma_e11m52_facts();
        lemma2_to64_rest();
        crate::model::lemma_classes(x@ as nat, 11, 52);
        Self::lemma_f64_roundtrip(x);
        crate::model::lemma_encode_units_roundtrip(x@ as nat, 11, 52, 1023);
        crate::laws::lemma_checked_accepts(x@ as nat, 11, 52, 1023, x@ as nat);
        Self::lemma_with_bits(x@, x);
    }

    /// A checked conversion gives a finite number or a refusal, never infinity or NaN.
    /// A finite value not below zero converts to its encoding when that is a finite
    /// number, to zero only when it is a zero, and is refused as too large when it
    /// encodes to infinity and as too small when it is not zero but encodes to zero;
    /// NaN, the infinities and numbers below zero are refused as such.
    pub proof fn lemma_checked_outcomes(value: nat)
        requires
            value < pow2(64),
        ensures
            Self::checked_from_f64(value) matches Ok(x) ==> ({
                &&& is_finite_bits(x@ as nat, 11, 52)
                &&& x@ == encode_f64(value, 11, 52, 1023)
                &&& (x@ == 0 ==> f64_is_zero(value))
                &&& !f64_is_nan(value) && !f64_is_infinite(value) && !f64_is_negative(value)
            }),
            f64_is_nan(value) ==> Self::checked_from_f64(value) == Err::<Self, ConversionError>(ConversionError::Nan),
            (f64_is_infinite(value) && !f64_is_nan(value)) ==> Self::checked_from_f64(value) == Err::<Self, ConversionError>(ConversionError::Infinite),
            (f64_is_negative(value) && !f64_is_infinite(value)) ==> Self::checked_from_f64(value) == Err::<Self, ConversionError>(ConversionError::Negative),
            (!f64_is_nan(value) && !f64_is_infinite(value) && !f64_is_negative(value) && encode_f64(value, 11, 52, 1023) == inf_bits(11, 52))
                ==> Self::checked_from_f64(value) == Err::<Self, ConversionError>(ConversionError::Overflow),
            (!f64_is_nan(value) && !f64_is_infinite(value) && !f64_is_negative(value) && !f64_is_zero(value) && encode_f64(value, 11, 52, 1023) == 0)
                ==> Self::checked_from_f64(value) == Err::<Self, ConversionError>(ConversionError::Underflow),
            (!f64_is_nan(value) && !f64_is_infinite(value) && !f64_is_negative(value) && encode_f64(value, 11, 52, 1023) != inf_bits(11, 52)
                && (encode_f64(value, 11, 52, 1023) != 0 || f64_is_zero(value))) ==> Self::checked_from_f64(value) is Ok,
    {
        lemma_e11m52_facts();
        lemma2_to64();
        lemma2_to64_rest();
        lemma_pow2_adds(63, 1);
        lemma_pow2_adds(11, 52);
        lemma_encode_float_in_width(value, 11, 52, 1023, 11, 52, 1023);
        if !f64_is_nan(value) && !f64_is_infinite(value) && !f64_is_negative(value) {
            vstd::arithmetic::div_mod::lemma_fundamental_div_mod(value as int, pow2(63) as int);
            vstd::arithmetic::div_mod::lemma_mod_pos_bound(value as int, pow2(63) as int);
            crate::laws::lemma_encode_float_bounded(value, 11, 52, 1023, 11, 52, 1023);
            if encode_f64(value, 11, 52, 1023) < inf_bits(11, 52) {
                crate::laws::lemma_below_infinity(encode_f64(value, 11, 52, 1023), 11, 52);
            }
            Self::lemma_with_bits((encode_f64(value, 11, 52, 1023)) as u64, Self::with_bits((encode_f64(value, 11, 52, 1023)) as u64));
        }
    }

}

/// The constants of the Uf64E11M52 layout, in terms of the model.
proof fn lemma_e11m52_facts()
    ensures
        pow2(52) == 4503599627370496,
        pow2(11) == 2048,
        pow2(63) == 9223372036854775808,
        max_exp(11) == 2047,
        inf_bits(11, 52) == 0x7ff0_0000_0000_0000,
        encodable(11, 52, 1023),
        exp_field(0x3ff0_0000_0000_0000, 11, 52) == 1023,
        man_field(0x3ff0_0000_0000_0000, 52) == 0,
        exp_field(0x7ff0_0000_0000_0000, 11, 52) == 2047,
        man_field(0x7ff0_0000_0000_0000, 52) == 0,
        exp_field(0x7ff8_0000_0000_0000, 11, 52) == 2047,
        man_field(0x7ff8_0000_0000_0000, 52) == 2251799813685248,
        exp_field(0x7fef_ffff_ffff_ffff, 11, 52) == 2046,
        man_field(0x7fef_ffff_ffff_ffff, 52) == 4503599627370495,
        exp_field(0x0000_0000_0000_0001, 11, 52) == 0,
        man_field(0x0000_0000_0000_0001, 52) == 1,
        exp_field(0x0010_0000_0000_0000, 11, 52) == 1,
        man_field(0x0010_0000_0000_0000, 52) == 0,
        units(0x3ff0_0000_0000_0000, 11, 52, 1023) == pow2(1074),
        units(0x0000_0000_0000_0001, 11, 52, 1023) == pow2(sub_shift(52, 1023)),
{
    lemma2_to64();
    lemma2_to64_rest();
    lemma_layouts();
    lemma_pow2_adds(11, 52);
    lemma_fields(1023, 0, 11, 52);
    assert(0x3ff0_0000_0000_0000 == 1023 * pow2(52) + 0);
    lemma_fields(2047, 0, 11, 52);
    assert(0x7ff0_0000_0000_0000 == 2047 * pow2(52) + 0);
    lemma_fields(2047, 2251799813685248, 11, 52);
    assert(0x7ff8_0000_0000_0000 == 2047 * pow2(52) + 2251799813685248);
    lemma_fields(2046, 4503599627370495, 11, 52);
    assert(0x7fef_ffff_ffff_ffff == 2046 * pow2(52) + 4503599627370495);
    lemma_fields(0, 1, 11, 52);
    assert(0x0000_0000_0000_0001 == 0 * pow2(52) + 1);
    lemma_fields(1, 0, 11, 52);
    assert(0x0010_0000_0000_0000 == 1 * pow2(52) + 0);
    lemma_pow2_adds(52, 1022);
    assert(52 + 1022 == 1074);
    assert(units(0x0000_0000_0000_0001, 11, 52, 1023) == 1 * pow2(sub_shift(52, 1023)));
}

/// Masks and shifts that read the fields of a Uf64E11M52 pattern.
proof fn lemma_e11m52_fields(x: u64)
    ensures
        ((x & 0x7ff0_0000_0000_0000) >> 52u32) == (x / 4503599627370496) % 2048,
        (x & 0x000f_ffff_ffff_ffff) == x % 4503599627370496,
{
    assert(((x & 0x7ff0_0000_0000_0000) >> 52u32) == (x / 4503599627370496) % 2048 && (x & 0x000f_ffff_ffff_ffff) == x % 4503599627370496) by (bit_vector);
}


/// Clearing the unused top bit of a non-NaN pattern gives the binary64 bits of its value.
proof fn lemma_f64_value_bits(x: u64)
    ensures
        !is_nan_bits(x as nat, 11, 52) ==> (x & 0x7fff_ffff_ffff_ffff) == decode_f64(x as nat, 11, 52, 1023),
{
    lemma2_to64();
    lemma2_to64_rest();
    lemma_pow2_adds(11, 52);
    crate::bitfacts::lemma_u64_mask(x, 63);
    assert((((1u64 << 63u32) - 1) as u64) == 0x7fff_ffff_ffff_ffffu64) by (bit_vector);
    let y = (x & 0x7fff_ffff_ffff_ffff) as nat;
    let sgn = x as nat / pow2(63);
    vstd::arithmetic::div_mod::lemma_fundamental_div_mod(x as int, pow2(63) as int);
    vstd::arithmetic::div_mod::lemma_mod_pos_bound(x as int, pow2(63) as int);
    assert(sgn <= 1) by {
        vstd::arithmetic::div_mod::lemma_div_is_ordered(x as int, 0xffff_ffff_ffff_ffff, pow2(63) as int);
    }
    assert(x == sgn * pow2(63) + y) by {
        vstd::arithmetic::mul::lemma_mul_is_commutative(sgn as int, pow2(63) as int);
    }
    crate::model::lemma_signed_fields(sgn, y, 11, 52, 1023);
    lemma_split(y, 11, 52);
    if !is_nan_bits(x as nat, 11, 52) && is_finite_bits(x as nat, 11, 52) {
        crate::model::lemma_encode_units_roundtrip(y, 11, 52, 1023);
    }
}

impl Uf64E11M52 {
    /// Encodes the binary128 value with bits `value`: rounded to nearest with ties to
    /// even, infinity on overflow, zero for either zero, NaN for NaN and negatives.
    pub fn from_f128_bits(value: u128) -> (r: Self)
        ensures
            r@ == crate::quad::encode_f128(value as nat),
    {
        Self(crate::quad::encode_from_f128(value))
    }

    /// The binary128 bits of the value; every value is a binary128 number, so this is
    /// exact.
    pub fn to_f128_bits(self) -> (r: u128)
        ensures
            crate::quad::is_f128_of(self@ as nat, r as nat),
    {
        crate::quad::decode_to_f128(self.0)
    }

    /// What a checked conversion of the binary128 value with bits `value` gives: the
    /// encoded value, or why it is refused.
    pub open spec fn checked_from_f128(value: nat) -> Result<Self, ConversionError> {
        match crate::quad::quad_outcome(value, crate::quad::encode_f128(value)) {
            Some(e) => Err(e),
            None => Ok(Self::with_bits((crate::quad::encode_f128(value)) as u64)),
        }
    }

    /// Encodes the binary128 value with bits `value`, refusing NaN, infinities,
    /// negative numbers, values that overflow to infinity and non-zero values that
    /// underflow to zero.
    pub fn try_from_f128_bits(value: u128) -> (r: Result<Self, ConversionError>)
        ensures
            r == Self::checked_from_f128(value as nat),
    {
        proof {
            lemma_e11m52_facts();
        }
        match crate::quad::check_f128_input(value) {
            Err(e) => {
                return Err(e);
            },
            Ok(()) => {},
        }
        let encoded = Self::from_f128_bits(value);
        proof {
            Self::lemma_with_bits(encoded@, encoded);
        }
        if encoded.is_infinite() {
            Err(ConversionError::Overflow)
        } else if !crate::quad::is_zero_f128(value) && encoded.is_zero() {
            Err(ConversionError::Underflow)
        } else {
            Ok(encoded)
        }
    }

    /// Converting a non-NaN value with a clear top bit to binary128 and back gives it
    /// unchanged.
    pub proof fn lemma_f128_roundtrip(x: Self, r: u128)
        requires
            !is_nan_bits(x@ as nat, 11, 52),
            x@ < 0x8000_0000_0000_0000,
            crate::quad::is_f128_of(x@ as nat, r as nat),
        ensures
            crate::quad::encode_f128(r as nat) == x@,
    {
        lemma2_to64_rest();
        crate::quad::lemma_f128_roundtrip(x@ as nat, r as nat);
    }
}

} // verus!
