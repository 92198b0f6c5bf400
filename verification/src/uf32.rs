//! The 32-bit unsigned float layout.
use vstd::prelude::*;
use vstd::arithmetic::power2::{pow2, lemma2_to64, lemma2_to64_rest, lemma_pow2_adds};
use crate::model::{units, exp_field, man_field, max_exp, sub_shift, inf_bits, is_nan_bits, is_inf_bits, is_finite_bits, in_width, encodable, decodable, decode_f64, encode_f64, encode_float, narrow_f64, lemma_layouts, lemma_fields, lemma_split, lemma_encode_float_in_width};
use crate::widths::{f16_to_f64, f32_to_f64, f64_to_f16, f64_to_f32, lemma_widen_then_encode};
use crate::convert::{ConversionError, conversion_outcome, check_finite_non_negative, check_encoded, f64_is_nan, f64_is_infinite, f64_is_negative, f64_is_zero};
use crate::dispatch;

verus! {

/// A 32-bit unsigned float with 8 exponent bits and 24 mantissa bits (bias 127).
#[derive(Clone, Copy, Debug, PartialEq, Eq, Structural, Hash, Ord)]
pub struct Uf32E8M24(u32);

/// The default 32-bit layout.
pub type Uf32 = Uf32E8M24;

impl View for Uf32E8M24 {
    type V = u32;

    closed spec fn view(&self) -> u32 {
        self.0
    }
}

impl Default for Uf32E8M24 {
    /// Zero.
    fn default() -> (r: Self)
        ensures
            r@ == 0,
    {
        Self(0)
    }
}

impl Uf32E8M24 {
    pub const EXPONENT_BITS: u32 = 8;
    pub const MANTISSA_BITS: u32 = 24;
    pub const EXPONENT_BIAS: i32 = 127;
    pub const EXPONENT_MASK: u32 = 0xff00_0000;
    pub const MANTISSA_MASK: u32 = 0x00ff_ffff;

    /// Zero.
    #[allow(non_snake_case)]
    pub fn ZERO() -> (r: Self)
        ensures
            r@ == 0,
    {
        Self(0)
    }

    /// One.
    #[allow(non_snake_case)]
    pub fn ONE() -> (r: Self)
        ensures
            r@ == 0x7f00_0000,
            units(r@ as nat, 8, 24, 127) == pow2(1074),
    {
        proof {
            lemma_e8m24_facts();
        }
        Self(0x7f00_0000)
    }

    /// Positive infinity.
    #[allow(non_snake_case)]
    pub fn INFINITY() -> (r: Self)
        ensures
            r@ == 0xff00_0000,
            is_inf_bits(r@ as nat, 8, 24),
    {
        proof {
            lemma_e8m24_facts();
        }
        Self(0xff00_0000)
    }

    /// The canonical quiet NaN.
    #[allow(non_snake_case)]
    pub fn NAN() -> (r: Self)
        ensures
            r@ == 0xff80_0000,
            is_nan_bits(r@ as nat, 8, 24),
    {
        proof {
            lemma_e8m24_facts();
        }
        Self(0xff80_0000)
    }

    /// The largest finite value.
    #[allow(non_snake_case)]
    pub fn MAX() -> (r: Self)
        ensures
            r@ == 0xfeff_ffff,
            is_finite_bits(r@ as nat, 8, 24),
            forall|b: nat| #[trigger] is_finite_bits(b, 8, 24) && in_width(b, 8, 24) ==> b <= r@,
    {
        proof {
            lemma_e8m24_facts();
            assert forall|b: nat| #[trigger] is_finite_bits(b, 8, 24) && in_width(b, 8, 24) implies b <= 0xfeff_ffff by {
                lemma_split(b, 8, 24);
            }
        }
        Self(0xfeff_ffff)
    }

    /// The smallest positive (subnormal) value.
    #[allow(non_snake_case)]
    pub fn MIN_POSITIVE() -> (r: Self)
        ensures
            r@ == 0x0000_0001,
            units(r@ as nat, 8, 24, 127) == pow2(sub_shift(24, 127)),
    {
        proof {
            lemma_e8m24_facts();
        }
        Self(0x0000_0001)
    }

    /// The smallest normal value.
    #[allow(non_snake_case)]
    pub fn MIN_NORMAL() -> (r: Self)
        ensures
            r@ == 0x0100_0000,
            exp_field(r@ as nat, 8, 24) == 1 && man_field(r@ as nat, 24) == 0,
    {
        proof {
            lemma_e8m24_facts();
        }
        Self(0x0100_0000)
    }

    /// Wraps a raw bit pattern.
    pub fn from_bits(bits: u32) -> (r: Self)
        ensures
            r@ == bits,
    {
        Self(bits)
    }

    /// The raw bit pattern.
    pub fn to_bits(self) -> (r: u32)
        ensures
            r == self@,
    {
        self.0
    }

    /// The value with the raw bit pattern `bits`.
    pub closed spec fn with_bits(bits: u32) -> Self {
        Self(bits)
    }

    /// `with_bits` keeps its pattern, and every value is `with_bits` of its own pattern.
    pub proof fn lemma_with_bits(bits: u32, x: Self)
        ensures
            Self::with_bits(bits)@ == bits,
            x == Self::with_bits(x@),
    {
    }

    /// What a checked conversion of the binary64 value with bits `value` gives: the
    /// encoded value, or why it is refused.
    pub open spec fn checked_from_f64(value: nat) -> Result<Self, ConversionError> {
        match conversion_outcome(value, encode_f64(value, 8, 24, 127), 8, 24) {
            Some(e) => Err(e),
            None => Ok(Self::with_bits((encode_f64(value, 8, 24, 127)) as u32)),
        }
    }

    /// The binary64 bits of the value.
    pub fn to_f64_bits(self) -> (r: u64)
        ensures
            r == decode_f64(self@ as nat, 8, 24, 127),
    {
        dispatch::uf32_to_f64(self.0)
    }

    /// Encodes the binary64 value with bits `value`.
    pub fn from_f64_bits(value: u64) -> (r: Self)
        ensures
            r@ == encode_f64(value as nat, 8, 24, 127),
    {
        Self(dispatch::f64_to_uf32(value))
    }

    /// Encodes the binary64 value with bits `value`, refusing NaN, infinities, negative
    /// numbers, values that overflow to infinity and non-zero values that underflow to
    /// zero.
    pub fn try_from_f64_bits(value: u64) -> (r: Result<Self, ConversionError>)
        ensures
            r == Self::checked_from_f64(value as nat),
    {
        proof {
            lemma_e8m24_facts();
        }
        match check_finite_non_negative(value) {
            Err(e) => {
                return Err(e);
            },
            Ok(()) => {},
        }
        let encoded = Self::from_f64_bits(value);
        proof {
            Self::lemma_with_bits(encoded@, encoded);
        }
        match check_encoded(value, encoded.is_zero(), encoded.is_infinite()) {
            Err(e) => Err(e),
            Ok(()) => Ok(encoded),
        }
    }

    /// Encodes the binary32 value with bits `value`.
    pub fn from_f32_bits(value: u32) -> (r: Self)
        ensures
            r@ == encode_float(value as nat, 8, 23, 127, 8, 24, 127),
    {
        proof {
            lemma_layouts();
            lemma2_to64();
            lemma_widen_then_encode(value as nat, 8, 23, 127, 8, 24, 127);
        }
        Self::from_f64_bits(f32_to_f64(value))
    }

    /// The binary32 bits of the value, rounded to nearest with ties to even.
    pub fn to_f32_bits(self) -> (r: u32)
        ensures
            r == narrow_f64(decode_f64(self@ as nat, 8, 24, 127), 8, 23, 127),
    {
        f64_to_f32(self.to_f64_bits())
    }

    /// Encodes the binary16 value with bits `value`.
    pub fn from_f16_bits(value: u16) -> (r: Self)
        ensures
            r@ == encode_float(value as nat, 5, 10, 15, 8, 24, 127),
    {
        proof {
            lemma_layouts();
            lemma2_to64();
            lemma_widen_then_encode(value as nat, 5, 10, 15, 8, 24, 127);
        }
        Self::from_f64_bits(f16_to_f64(value))
    }

    /// The binary16 bits of the value, rounded to nearest with ties to even.
    pub fn to_f16_bits(self) -> (r: u16)
        ensures
            r == narrow_f64(decode_f64(self@ as nat, 8, 24, 127), 5, 10, 15),
    {
        f64_to_f16(self.to_f64_bits())
    }

    /// The biased exponent field.
    pub fn exponent(self) -> (r: u32)
        ensures
            r == exp_field(self@ as nat, 8, 24),
    {
        proof {
            lemma_e8m24_facts();
            lemma_e8m24_fields(self.0);
        }
        (self.0 & Self::EXPONENT_MASK) >> Self::MANTISSA_BITS
    }

    /// The stored mantissa field, without the implicit leading bit.
    pub fn mantissa(self) -> (r: u32)
        ensures
            r == man_field(self@ as nat, 24),
    {
        proof {
            lemma_e8m24_facts();
            lemma_e8m24_fields(self.0);
        }
        self.0 & Self::MANTISSA_MASK
    }

    /// The value is zero.
    pub fn is_zero(self) -> (r: bool)
        ensures
            r == (self@ == 0),
    {
        self.0 == 0
    }

    /// The value is a NaN.
    pub fn is_nan(self) -> (r: bool)
        ensures
            r == is_nan_bits(self@ as nat, 8, 24),
    {
        proof {
            lemma_e8m24_facts();
        }
        self.exponent() == 0xff && self.mantissa() != 0
    }

    /// The value is positive infinity.
    pub fn is_infinite(self) -> (r: bool)
        ensures
            r == (self@ == inf_bits(8, 24)),
    {
        proof {
            lemma_e8m24_facts();
        }
        self.0 == Self::INFINITY().0
    }

    /// The value is neither infinite nor NaN.
    pub fn is_finite(self) -> (r: bool)
        ensures
            r == is_finite_bits(self@ as nat, 8, 24),
    {
        proof {
            lemma_e8m24_facts();
        }
        self.exponent() != 0xff
    }

    /// The value is subnormal: zero exponent field, non-zero mantissa.
    pub fn is_subnormal(self) -> (r: bool)
        ensures
            r == (exp_field(self@ as nat, 8, 24) == 0 && man_field(self@ as nat, 24) != 0),
    {
        self.exponent() == 0 && self.mantissa() != 0
    }
}

impl Uf32E8M24 {
    /// Raw-bit order is value order: a finite pattern above another has the larger value.
    pub proof fn lemma_bits_order_is_value_order(a: Self, b: Self)
        requires
            a@ < b@,
            is_finite_bits(b@ as nat, 8, 24),
        ensures
            units(a@ as nat, 8, 24, 127) < units(b@ as nat, 8, 24, 127),
    {
        lemma_e8m24_facts();
        crate::model::lemma_units_strictly_increasing(a@ as nat, b@ as nat, 8, 24, 127);
    }

    /// Converting a non-NaN value to binary64 and back gives it unchanged.
    pub proof fn lemma_f64_roundtrip(x: Self)
        requires
            !is_nan_bits(x@ as nat, 8, 24),
        ensures
            encode_f64(decode_f64(x@ as nat, 8, 24, 127), 8, 24, 127) == x@,
    {
        lemma_e8m24_facts();
        crate::laws::lemma_decode_encode_roundtrip(x@ as nat, 8, 24, 127);
    }

    /// A checked conversion accepts every finite value: the binary64 value of a
    /// finite pattern converts back to that pattern without error.
    pub proof fn lemma_checked_accepts_values(x: Self)
        requires
            is_finite_bits(x@ as nat, 8, 24),
        ensures
            Self::checked_from_f64(decode_f64(x@ as nat, 8, 24, 127)) == Ok::<Self, ConversionError>(x),
    {
        lemma_e8m24_facts();
        lemma2_to64_rest();
        crate::model::lemma_classes(x@ as nat, 8, 24);
        Self::lemma_f64_roundtrip(x);
        crate::laws::lemma_decode_f64_exact(x@ as nat, 8, 24, 127);
        crate::laws::lemma_checked_accepts(x@ as nat, 8, 24, 127, decode_f64(x@ as nat, 8, 24, 127));
        Self::lemma_with_bits(x@, x);
    }

    /// A checked conversion gives a finite number or a refusal, never infinity or NaN.
    /// A finite value not below zero converts to its encoding when that is a finite
    /// number, to zero only when it is a zero, and is refused as too large when it
    /// encodes to infinity and as too small when it is not zero but encodes to zero;
    /// NaN, the infinities and numbers below zero are refused as such.
    pub proof fn lemma_checked_outcomes(value: nat)
        requires
            value < pow2(64),
        ensures
            Self::checked_from_f64(value) matches Ok(x) ==> ({
                &&& is_finite_bits(x@ as nat, 8, 24)
                &&& x@ == encode_f64(value, 8, 24, 127)
                &&& (x@ == 0 ==> f64_is_zero(value))
                &&& !f64_is_nan(value) && !f64_is_infinite(value) && !f64_is_negative(value)
            }),
            f64_is_nan(value) ==> Self::checked_from_f64(value) == Err::<Self, ConversionError>(ConversionError::Nan),
            (f64_is_infinite(value) && !f64_is_nan(value)) ==> Self::checked_from_f64(value) == Err::<Self, ConversionError>(ConversionError::Infinite),
            (f64_is_negative(value) && !f64_is_infinite(value)) ==> Self::checked_from_f64(value) == Err::<Self, ConversionError>(ConversionError::Negative),
            (!f64_is_nan(value) && !f64_is_infinite(value) && !f64_is_negative(value) && encode_f64(value, 8, 24, 127) == inf_bits(8, 24))
                ==> Self::checked_from_f64(value) == Err::<Self, ConversionError>(ConversionError::Overflow),
            (!f64_is_nan(value) && !f64_is_infinite(value) && !f64_is_negative(value) && !f64_is_zero(value) && encode_f64(value, 8, 24, 127) == 0)
                ==> Self::checked_from_f64(value) == Err::<Self, ConversionError>(ConversionError::Underflow),
            (!f64_is_nan(value) && !f64_is_infinite(value) && !f64_is_negative(value) && encode_f64(value, 8, 24, 127) != inf_bits(8, 24)
                && (encode_f64(value, 8, 24, 127) != 0 || f64_is_zero(value))) ==> Self::checked_from_f64(value) is Ok,
    {
        lemma_e8m24_facts();
        lemma2_to64();
        lemma2_to64_rest();
        lemma_pow2_adds(63, 1);
        lemma_pow2_adds(8, 24);
        lemma_encode_float_in_width(value, 11, 52, 1023, 8, 24, 127);
        if !f64_is_nan(value) && !f64_is_infinite(value) && !f64_is_negative(value) {
            vstd::arithmetic::div_mod::lemma_fundamental_div_mod(value as int, pow2(63) as int);
            vstd::arithmetic::div_mod::lemma_mod_pos_bound(value as int, pow2(63) as int);
            crate::laws::lemma_encode_float_bounded(value, 11, 52, 1023, 8, 24, 127);
            if encode_f64(value, 8, 24, 127) < inf_bits(8, 24) {
                crate::laws::lemma_below_infinity(encode_f64(value, 8, 24, 127), 8, 24);
            }
            Self::lemma_with_bits((encode_f64(value, 8, 24, 127)) as u32, Self::with_bits((encode_f64(value, 8, 24, 127)) as u32));
        }
    }

}

/// The constants of the Uf32E8M24 layout, in terms of the model.
proof fn lemma_e8m24_facts()
    ensures
        pow2(24) == 16777216,
        pow2(8) == 256,
        pow2(32) == 4294967296,
        max_exp(8) == 255,
        inf_bits(8, 24) == 0xff00_0000,
        encodable(8, 24, 127),
        decodable(8, 24, 127),
        exp_field(0x7f00_0000, 8, 24) == 127,
        man_field(0x7f00_0000, 24) == 0,
        exp_field(0xff00_0000, 8, 24) == 255,
        man_field(0xff00_0000, 24) == 0,
        exp_field(0xff80_0000, 8, 24) == 255,
        man_field(0xff80_0000, 24) == 8388608,
        exp_field(0xfeff_ffff, 8, 24) == 254,
        man_field(0xfeff_ffff, 24) == 16777215,
        exp_field(0x0000_0001, 8, 24) == 0,
        man_field(0x0000_0001, 24) == 1,
        exp_field(0x0100_0000, 8, 24) == 1,
        man_field(0x0100_0000, 24) == 0,
        units(0x7f00_0000, 8, 24, 127) == pow2(1074),
        units(0x0000_0001, 8, 24, 127) == pow2(sub_shift(24, 127)),
{
    lemma2_to64();
    lemma2_to64_rest();
    lemma_layouts();
    lemma_pow2_adds(8, 24);
    lemma_fields(127, 0, 8, 24);
    assert(0x7f00_0000 == 127 * pow2(24) + 0);
    lemma_fields(255, 0, 8, 24);
    assert(0xff00_0000 == 255 * pow2(24) + 0);
    lemma_fields(255, 8388608, 8, 24);
    assert(0xff80_0000 == 255 * pow2(24) + 8388608);
    lemma_fields(254, 16777215, 8, 24);
    assert(0xfeff_ffff == 254 * pow2(24) + 16777215);
    lemma_fields(0, 1, 8, 24);
    assert(0x0000_0001 == 0 * pow2(24) + 1);
    lemma_fields(1, 0, 8, 24);
    assert(0x0100_0000 == 1 * pow2(24) + 0);
    lemma_pow2_adds(24, 1050);
    assert(24 + 1050 == 1074);
    assert(units(0x0000_0001, 8, 24, 127) == 1 * pow2(sub_shift(24, 127)));
}

/// Masks and shifts that read the fields of a Uf32E8M24 pattern.
proof fn lemma_e8m24_fields(x: u32)
    ensures
        ((x & 0xff00_0000) >> 24u32) == (x / 16777216) % 256,
        (x & 0x00ff_ffff) == x % 16777216,
{
    assert(((x & 0xff00_0000) >> 24u32) == (x / 16777216) % 256 && (x & 0x00ff_ffff) == x % 16777216) by (bit_vector);
}


} // verus!
