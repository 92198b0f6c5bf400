//! Eight-bit unsigned float layouts.
use vstd::prelude::*;
use vstd::arithmetic::power2::{pow2, lemma2_to64, lemma2_to64_rest, lemma_pow2_adds};
use crate::model::{units, exp_field, man_field, max_exp, sub_shift, inf_bits, is_nan_bits, is_inf_bits, is_finite_bits, in_width, encodable, decodable, decode_f64, encode_float, narrow_f64, lemma_layouts, lemma_fields, lemma_split, lemma_encode_float_in_width};
use crate::codec::{decode_to_f64, encode_from_f64};
use crate::widths::{f16_to_f64, f64_to_f16, f64_to_f32, lemma_widen_then_encode};
use crate::convert::{ConversionError, conversion_outcome, check_finite_non_negative, check_encoded, f64_is_nan, f64_is_infinite, f64_is_negative, f64_is_zero};
use crate::dispatch;

verus! {

/// An 8-bit unsigned float with 4 exponent bits and 4 mantissa bits (bias 7).
#[derive(Clone, Copy, Debug, PartialEq, Eq, Structural, Hash, Ord)]
pub struct Uf8E4M4(u8);

/// The default 8-bit layout.
pub type Uf8 = Uf8E4M4;

impl View for Uf8E4M4 {
    type V = u8;

    closed spec fn view(&self) -> u8 {
        self.0
    }
}

impl Default for Uf8E4M4 {
    /// Zero.
    fn default() -> (r: Self)
        ensures
            r@ == 0,
    {
        Self(0)
    }
}

impl Uf8E4M4 {
    pub const EXPONENT_BITS: u32 = 4;
    pub const MANTISSA_BITS: u32 = 4;
    pub const EXPONENT_BIAS: i32 = 7;
    pub const EXPONENT_MASK: u8 = 0xf0;
    pub const MANTISSA_MASK: u8 = 0x0f;

    /// Zero.
    #[allow(non_snake_case)]
    pub fn ZERO() -> (r: Self)
        ensures
            r@ == 0,
    {
        Self(0)
    }

    /// One.
    #[allow(non_snake_case)]
    pub fn ONE() -> (r: Self)
        ensures
            r@ == 0x70,
            units(r@ as nat, 4, 4, 7) == pow2(1074),
    {
        proof {
            lemma_e4m4_facts();
        }
        Self(0x70)
    }

    /// Positive infinity.
    #[allow(non_snake_case)]
    pub fn INFINITY() -> (r: Self)
        ensures
            r@ == 0xf0,
            is_inf_bits(r@ as nat, 4, 4),
    {
        proof {
            lemma_e4m4_facts();
        }
        Self(0xf0)
    }

    /// The canonical quiet NaN.
    #[allow(non_snake_case)]
    pub fn NAN() -> (r: Self)
        ensures
            r@ == 0xf8,
            is_nan_bits(r@ as nat, 4, 4),
    {
        proof {
            lemma_e4m4_facts();
        }
        Self(0xf8)
    }

    /// The largest finite value.
    #[allow(non_snake_case)]
    pub fn MAX() -> (r: Self)
        ensures
            r@ == 0xef,
            is_finite_bits(r@ as nat, 4, 4),
            forall|b: nat| #[trigger] is_finite_bits(b, 4, 4) && in_width(b, 4, 4) ==> b <= r@,
    {
        proof {
            lemma_e4m4_facts();
            assert forall|b: nat| #[trigger] is_finite_bits(b, 4, 4) && in_width(b, 4, 4) implies b <= 0xef by {
                lemma_split(b, 4, 4);
            }
        }
        Self(0xef)
    }

    /// The smallest positive (subnormal) value.
    #[allow(non_snake_case)]
    pub fn MIN_POSITIVE() -> (r: Self)
        ensures
            r@ == 0x01,
            units(r@ as nat, 4, 4, 7) == pow2(sub_shift(4, 7)),
    {
        proof {
            lemma_e4m4_facts();
        }
        Self(0x01)
    }

    /// The smallest normal value.
    #[allow(non_snake_case)]
    pub fn MIN_NORMAL() -> (r: Self)
        ensures
            r@ == 0x10,
            exp_field(r@ as nat, 4, 4) == 1 && man_field(r@ as nat, 4) == 0,
    {
        proof {
            lemma_e4m4_facts();
        }
        Self(0x10)
    }

    /// Wraps a raw bit pattern.
    pub fn from_bits(bits: u8) -> (r: Self)
        ensures
            r@ == bits,
    {
        Self(bits)
    }

    /// The raw bit pattern.
    pub fn to_bits(self) -> (r: u8)
        ensures
            r == self@,
    {
        self.0
    }

    /// The value with the raw bit pattern `bits`.
    pub closed spec fn with_bits(bits: u8) -> Self {
        Self(bits)
    }

    /// `with_bits` keeps its pattern, and every value is `with_bits` of its own pattern.
    pub proof fn lemma_with_bits(bits: u8, x: Self)
        ensures
            Self::with_bits(bits)@ == bits,
            x == Self::with_bits(x@),
    {
    }

    /// What a checked conversion of the binary64 value with bits `value` gives: the
    /// encoded value, or why it is refused.
    pub open spec fn checked_from_f64(value: nat) -> Result<Self, ConversionError> {
        match conversion_outcome(value, encode_float(narrow_f64(value, 8, 23, 127), 8, 23, 127, 4, 4, 7), 4, 4) {
            Some(e) => Err(e),
            None => Ok(Self::with_bits((encode_float(narrow_f64(value, 8, 23, 127), 8, 23, 127, 4, 4, 7)) as u8)),
        }
    }

    /// The binary32 bits of the value (exact: every value of the layout is a binary32
    /// number).
    pub fn to_f32_bits(self) -> (r: u32)
        ensures
            r == narrow_f64(decode_f64(self@ as nat, 4, 4, 7), 8, 23, 127),
    {
        dispatch::uf8_to_f32(self.0)
    }

    /// Encodes the binary32 value with bits `value`.
    pub fn from_f32_bits(value: u32) -> (r: Self)
        ensures
            r@ == encode_float(value as nat, 8, 23, 127, 4, 4, 7),
    {
        Self(dispatch::f32_to_uf8(value))
    }

    /// The binary64 bits of the value.
    pub fn to_f64_bits(self) -> (r: u64)
        ensures
            r == decode_f64(self@ as nat, 4, 4, 7),
    {
        proof {
            lemma_layouts();
        }
        decode_to_f64(self.0 as u64, 4, 4, 7)
    }

    /// Encodes the binary64 value with bits `value`: it is first rounded to binary32,
    /// then encoded.
    pub fn from_f64_bits(value: u64) -> (r: Self)
        ensures
            r@ == encode_float(narrow_f64(value as nat, 8, 23, 127), 8, 23, 127, 4, 4, 7),
    {
        Self(dispatch::f32_to_uf8(f64_to_f32(value)))
    }

    /// Encodes the binary64 value with bits `value`, refusing NaN, infinities, negative
    /// numbers, values that overflow to infinity and non-zero values that underflow to
    /// zero.
    pub fn try_from_f64_bits(value: u64) -> (r: Result<Self, ConversionError>)
        ensures
            r == Self::checked_from_f64(value as nat),
    {
        proof {
            lemma_e4m4_facts();
        }
        match check_finite_non_negative(value) {
            Err(e) => {
                return Err(e);
            },
            Ok(()) => {},
        }
        let encoded = Self::from_f64_bits(value);
        proof {
            Self::lemma_with_bits(encoded@, encoded);
        }
        match check_encoded(value, encoded.is_zero(), encoded.is_infinite()) {
            Err(e) => Err(e),
            Ok(()) => Ok(encoded),
        }
    }

    /// Encodes the binary16 value with bits `value`.
    pub fn from_f16_bits(value: u16) -> (r: Self)
        ensures
            r@ == encode_float(value as nat, 5, 10, 15, 4, 4, 7),
    {
        proof {
            lemma_layouts();
            lemma2_to64();
            lemma_widen_then_encode(value as nat, 5, 10, 15, 4, 4, 7);
            lemma_encode_float_in_width(value as nat, 5, 10, 15, 4, 4, 7);
        }
        Self(encode_from_f64(f16_to_f64(value), 4, 4, 7) as u8)
    }

    /// The binary16 bits of the value, rounded to nearest with ties to even.
    pub fn to_f16_bits(self) -> (r: u16)
        ensures
            r == narrow_f64(decode_f64(self@ as nat, 4, 4, 7), 5, 10, 15),
    {
        f64_to_f16(self.to_f64_bits())
    }

    /// The biased exponent field.
    pub fn exponent(self) -> (r: u8)
        ensures
            r == exp_field(self@ as nat, 4, 4),
    {
        proof {
            lemma_e4m4_facts();
            lemma_e4m4_fields(self.0);
        }
        (self.0 & Self::EXPONENT_MASK) >> Self::MANTISSA_BITS
    }

    /// The stored mantissa field, without the implicit leading bit.
    pub fn mantissa(self) -> (r: u8)
        ensures
            r == man_field(self@ as nat, 4),
    {
        proof {
            lemma_e4m4_facts();
            lemma_e4m4_fields(self.0);
        }
        self.0 & Self::MANTISSA_MASK
    }

    /// The value is zero.
    pub fn is_zero(self) -> (r: bool)
        ensures
            r == (self@ == 0),
    {
        self.0 == 0
    }

    /// The value is a NaN.
    pub fn is_nan(self) -> (r: bool)
        ensures
            r == is_nan_bits(self@ as nat, 4, 4),
    {
        proof {
            lemma_e4m4_facts();
        }
        self.exponent() == 0xf && self.mantissa() != 0
    }

    /// The value is positive infinity.
    pub fn is_infinite(self) -> (r: bool)
        ensures
            r == (self@ == inf_bits(4, 4)),
    {
        proof {
            lemma_e4m4_facts();
        }
        self.0 == Self::INFINITY().0
    }

    /// The value is neither infinite nor NaN.
    pub fn is_finite(self) -> (r: bool)
        ensures
            r == is_finite_bits(self@ as nat, 4, 4),
    {
        proof {
            lemma_e4m4_facts();
        }
        self.exponent() != 0xf
    }

    /// The value is subnormal: zero exponent field, non-zero mantissa.
    pub fn is_subnormal(self) -> (r: bool)
        ensures
            r == (exp_field(self@ as nat, 4, 4) == 0 && man_field(self@ as nat, 4) != 0),
    {
        self.exponent() == 0 && self.mantissa() != 0
    }
}

impl Uf8E4M4 {
    /// Raw-bit order is value order: a finite pattern above another has the larger value.
    pub proof fn lemma_bits_order_is_value_order(a: Self, b: Self)
        requires
            a@ < b@,
            is_finite_bits(b@ as nat, 4, 4),
        ensures
            units(a@ as nat, 4, 4, 7) < units(b@ as nat, 4, 4, 7),
    {
        lemma_e4m4_facts();
        crate::model::lemma_units_strictly_increasing(a@ as nat, b@ as nat, 4, 4, 7);
    }

    /// Converting a non-NaN value to binary64 and back gives it unchanged.
    pub proof fn lemma_f64_roundtrip(x: Self)
        requires
            !is_nan_bits(x@ as nat, 4, 4),
        ensures
            encode_float(narrow_f64(decode_f64(x@ as nat, 4, 4, 7), 8, 23, 127), 8, 23, 127, 4, 4, 7) == x@,
    {
        Self::lemma_f32_roundtrip(x);
    }

    /// A checked conversion accepts every finite value: the binary64 value of a
    /// finite pattern converts back to that pattern without error.
    pub proof fn lemma_checked_accepts_values(x: Self)
        requires
            is_finite_bits(x@ as nat, 4, 4),
        ensures
            Self::checked_from_f64(decode_f64(x@ as nat, 4, 4, 7)) == Ok::<Self, ConversionError>(x),
    {
        lemma_e4m4_facts();
        lemma2_to64_rest();
        crate::model::lemma_classes(x@ as nat, 4, 4);
        Self::lemma_f64_roundtrip(x);
        crate::laws::lemma_decode_f64_exact(x@ as nat, 4, 4, 7);
        crate::laws::lemma_checked_accepts(x@ as nat, 4, 4, 7, decode_f64(x@ as nat, 4, 4, 7));
        Self::lemma_with_bits(x@, x);
    }

    /// Every value is a f32 number, so converting a non-NaN value to f32 and
    /// back gives it unchanged.
    pub proof fn lemma_f32_roundtrip(x: Self)
        requires
            !is_nan_bits(x@ as nat, 4, 4),
        ensures
            encode_float(narrow_f64(decode_f64(x@ as nat, 4, 4, 7), 8, 23, 127), 8, 23, 127, 4, 4, 7) == x@,
    {
        lemma_e4m4_facts();
        lemma2_to64();
        crate::laws::lemma_roundtrip_through(x@ as nat, 4, 4, 7, 8, 23, 127);
    }

    /// Every value is a f16 number, so converting a non-NaN value to f16 and
    /// back gives it unchanged.
    pub proof fn lemma_f16_roundtrip(x: Self)
        requires
            !is_nan_bits(x@ as nat, 4, 4),
        ensures
            encode_float(narrow_f64(decode_f64(x@ as nat, 4, 4, 7), 5, 10, 15), 5, 10, 15, 4, 4, 7) == x@,
    {
        lemma_e4m4_facts();
        lemma2_to64();
        crate::laws::lemma_roundtrip_through(x@ as nat, 4, 4, 7, 5, 10, 15);
    }

    /// A checked conversion gives a finite number or a refusal, never infinity or NaN.
    /// A finite value not below zero converts to its encoding when that is a finite
    /// number, to zero only when it is a zero, and is refused as too large when it
    /// encodes to infinity and as too small when it is not zero but encodes to zero;
    /// NaN, the infinities and numbers below zero are refused as such.
    pub proof fn lemma_checked_outcomes(value: nat)
        requires
            value < pow2(64),
        ensures
            Self::checked_from_f64(value) matches Ok(x) ==> ({
                &&& is_finite_bits(x@ as nat, 4, 4)
                &&& x@ == encode_float(narrow_f64(value, 8, 23, 127), 8, 23, 127, 4, 4, 7)
                &&& (x@ == 0 ==> f64_is_zero(value))
                &&& !f64_is_nan(value) && !f64_is_infinite(value) && !f64_is_negative(value)
            }),
            f64_is_nan(value) ==> Self::checked_from_f64(value) == Err::<Self, ConversionError>(ConversionError::Nan),
            (f64_is_infinite(value) && !f64_is_nan(value)) ==> Self::checked_from_f64(value) == Err::<Self, ConversionError>(ConversionError::Infinite),
            (f64_is_negative(value) && !f64_is_infinite(value)) ==> Self::checked_from_f64(value) == Err::<Self, ConversionError>(ConversionError::Negative),
            (!f64_is_nan(value) && !f64_is_infinite(value) && !f64_is_negative(value) && encode_float(narrow_f64(value, 8, 23, 127), 8, 23, 127, 4, 4, 7) == inf_bits(4, 4))
                ==> Self::checked_from_f64(value) == Err::<Self, ConversionError>(ConversionError::Overflow),
            (!f64_is_nan(value) && !f64_is_infinite(value) && !f64_is_negative(value) && !f64_is_zero(value) && encode_float(narrow_f64(value, 8, 23, 127), 8, 23, 127, 4, 4, 7) == 0)
                ==> Self::checked_from_f64(value) == Err::<Self, ConversionError>(ConversionError::Underflow),
            (!f64_is_nan(value) && !f64_is_infinite(value) && !f64_is_negative(value) && encode_float(narrow_f64(value, 8, 23, 127), 8, 23, 127, 4, 4, 7) != inf_bits(4, 4)
                && (encode_float(narrow_f64(value, 8, 23, 127), 8, 23, 127, 4, 4, 7) != 0 || f64_is_zero(value))) ==> Self::checked_from_f64(value) is Ok,
    {
        lemma_e4m4_facts();
        lemma2_to64();
        lemma2_to64_rest();
        lemma_pow2_adds(63, 1);
        lemma_pow2_adds(4, 4);
        lemma_encode_float_in_width(narrow_f64(value, 8, 23, 127), 8, 23, 127, 4, 4, 7);
        if !f64_is_nan(value) && !f64_is_infinite(value) && !f64_is_negative(value) {
            vstd::arithmetic::div_mod::lemma_fundamental_div_mod(value as int, pow2(63) as int);
            vstd::arithmetic::div_mod::lemma_mod_pos_bound(value as int, pow2(63) as int);
            crate::laws::lemma_narrow_not_below_zero(value);
            crate::laws::lemma_encode_float_bounded(narrow_f64(value, 8, 23, 127), 8, 23, 127, 4, 4, 7);
            if encode_float(narrow_f64(value, 8, 23, 127), 8, 23, 127, 4, 4, 7) < inf_bits(4, 4) {
                crate::laws::lemma_below_infinity(encode_float(narrow_f64(value, 8, 23, 127), 8, 23, 127, 4, 4, 7), 4, 4);
            }
            Self::lemma_with_bits((encode_float(narrow_f64(value, 8, 23, 127), 8, 23, 127, 4, 4, 7)) as u8, Self::with_bits((encode_float(narrow_f64(value, 8, 23, 127), 8, 23, 127, 4, 4, 7)) as u8));
        }
    }

}

/// The constants of the Uf8E4M4 layout, in terms of the model.
proof fn lemma_e4m4_facts()
    ensures
        pow2(4) == 16,
        pow2(4) == 16,
        pow2(8) == 256,
        max_exp(4) == 15,
        inf_bits(4, 4) == 0xf0,
        encodable(4, 4, 7),
        decodable(4, 4, 7),
        exp_field(0x70, 4, 4) == 7,
        man_field(0x70, 4) == 0,
        exp_field(0xf0, 4, 4) == 15,
        man_field(0xf0, 4) == 0,
        exp_field(0xf8, 4, 4) == 15,
        man_field(0xf8, 4) == 8,
        exp_field(0xef, 4, 4) == 14,
        man_field(0xef, 4) == 15,
        exp_field(0x01, 4, 4) == 0,
        man_field(0x01, 4) == 1,
        exp_field(0x10, 4, 4) == 1,
        man_field(0x10, 4) == 0,
        units(0x70, 4, 4, 7) == pow2(1074),
        units(0x01, 4, 4, 7) == pow2(sub_shift(4, 7)),
{
    lemma2_to64();
    lemma2_to64_rest();
    lemma_layouts();
    lemma_pow2_adds(4, 4);
    lemma_fields(7, 0, 4, 4);
    assert(0x70 == 7 * pow2(4) + 0);
    lemma_fields(15, 0, 4, 4);
    assert(0xf0 == 15 * pow2(4) + 0);
    lemma_fields(15, 8, 4, 4);
    assert(0xf8 == 15 * pow2(4) + 8);
    lemma_fields(14, 15, 4, 4);
    assert(0xef == 14 * pow2(4) + 15);
    lemma_fields(0, 1, 4, 4);
    assert(0x01 == 0 * pow2(4) + 1);
    lemma_fields(1, 0, 4, 4);
    assert(0x10 == 1 * pow2(4) + 0);
    lemma_pow2_adds(4, 1070);
    assert(4 + 1070 == 1074);
    assert(units(0x01, 4, 4, 7) == 1 * pow2(sub_shift(4, 7)));
}

/// Masks and shifts that read the fields of a Uf8E4M4 pattern.
proof fn lemma_e4m4_fields(x: u8)
    ensures
        ((x & 0xf0) >> 4u32) == (x / 16) % 16,
        (x & 0x0f) == x % 16,
{
    assert(((x & 0xf0) >> 4u32) == (x / 16) % 16 && (x & 0x0f) == x % 16) by (bit_vector);
}

/// An 8-bit unsigned float with 5 exponent bits and 3 mantissa bits (bias 15).
#[derive(Clone, Copy, Debug, PartialEq, Eq, Structural, Hash, Ord)]
pub struct Uf8E5M3(u8);

impl View for Uf8E5M3 {
    type V = u8;

    closed spec fn view(&self) -> u8 {
        self.0
    }
}

impl Default for Uf8E5M3 {
    /// Zero.
    fn default() -> (r: Self)
        ensures
            r@ == 0,
    {
        Self(0)
    }
}

impl Uf8E5M3 {
    pub const EXPONENT_BITS: u32 = 5;
    pub const MANTISSA_BITS: u32 = 3;
    pub const EXPONENT_BIAS: i32 = 15;
    pub const EXPONENT_MASK: u8 = 0xf8;
    pub const MANTISSA_MASK: u8 = 0x07;

    /// Zero.
    #[allow(non_snake_case)]
    pub fn ZERO() -> (r: Self)
        ensures
            r@ == 0,
    {
        Self(0)
    }

    /// One.
    #[allow(non_snake_case)]
    pub fn ONE() -> (r: Self)
        ensures
            r@ == 0x78,
            units(r@ as nat, 5, 3, 15) == pow2(1074),
    {
        proof {
            lemma_e5m3_facts();
        }
        Self(0x78)
    }

    /// Positive infinity.
    #[allow(non_snake_case)]
    pub fn INFINITY() -> (r: Self)
        ensures
            r@ == 0xf8,
            is_inf_bits(r@ as nat, 5, 3),
    {
        proof {
            lemma_e5m3_facts();
        }
        Self(0xf8)
    }

    /// The canonical quiet NaN.
    #[allow(non_snake_case)]
    pub fn NAN() -> (r: Self)
        ensures
            r@ == 0xfc,
            is_nan_bits(r@ as nat, 5, 3),
    {
        proof {
            lemma_e5m3_facts();
        }
        Self(0xfc)
    }

    /// The largest finite value.
    #[allow(non_snake_case)]
    pub fn MAX() -> (r: Self)
        ensures
            r@ == 0xf7,
            is_finite_bits(r@ as nat, 5, 3),
            forall|b: nat| #[trigger] is_finite_bits(b, 5, 3) && in_width(b, 5, 3) ==> b <= r@,
    {
        proof {
            lemma_e5m3_facts();
            assert forall|b: nat| #[trigger] is_finite_bits(b, 5, 3) && in_width(b, 5, 3) implies b <= 0xf7 by {
                lemma_split(b, 5, 3);
            }
        }
        Self(0xf7)
    }

    /// The smallest positive (subnormal) value.
    #[allow(non_snake_case)]
    pub fn MIN_POSITIVE() -> (r: Self)
        ensures
            r@ == 0x01,
            units(r@ as nat, 5, 3, 15) == pow2(sub_shift(3, 15)),
    {
        proof {
            lemma_e5m3_facts();
        }
        Self(0x01)
    }

    /// The smallest normal value.
    #[allow(non_snake_case)]
    pub fn MIN_NORMAL() -> (r: Self)
        ensures
            r@ == 0x08,
            exp_field(r@ as nat, 5, 3) == 1 && man_field(r@ as nat, 3) == 0,
    {
        proof {
            lemma_e5m3_facts();
        }
        Self(0x08)
    }

    /// Wraps a raw bit pattern.
    pub fn from_bits(bits: u8) -> (r: Self)
        ensures
            r@ == bits,
    {
        Self(bits)
    }

    /// The raw bit pattern.
    pub fn to_bits(self) -> (r: u8)
        ensures
            r == self@,
    {
        self.0
    }

    /// The value with the raw bit pattern `bits`.
    pub closed spec fn with_bits(bits: u8) -> Self {
        Self(bits)
    }

    /// `with_bits` keeps its pattern, and every value is `with_bits` of its own pattern.
    pub proof fn lemma_with_bits(bits: u8, x: Self)
        ensures
            Self::with_bits(bits)@ == bits,
            x == Self::with_bits(x@),
    {
    }

    /// What a checked conversion of the binary64 value with bits `value` gives: the
    /// encoded value, or why it is refused.
    pub open spec fn checked_from_f64(value: nat) -> Result<Self, ConversionError> {
        match conversion_outcome(value, encode_float(narrow_f64(value, 8, 23, 127), 8, 23, 127, 5, 3, 15), 5, 3) {
            Some(e) => Err(e),
            None => Ok(Self::with_bits((encode_float(narrow_f64(value, 8, 23, 127), 8, 23, 127, 5, 3, 15)) as u8)),
        }
    }

    /// The binary32 bits of the value (exact: every value of the layout is a binary32
    /// number).
    pub fn to_f32_bits(self) -> (r: u32)
        ensures
            r == narrow_f64(decode_f64(self@ as nat, 5, 3, 15), 8, 23, 127),
    {
        dispatch::uf8_e5m3_to_f32(self.0)
    }

    /// Encodes the binary32 value with bits `value`.
    pub fn from_f32_bits(value: u32) -> (r: Self)
        ensures
            r@ == encode_float(value as nat, 8, 23, 127, 5, 3, 15),
    {
        Self(dispatch::f32_to_uf8_e5m3(value))
    }

    /// The binary64 bits of the value.
    pub fn to_f64_bits(self) -> (r: u64)
        ensures
            r == decode_f64(self@ as nat, 5, 3, 15),
    {
        proof {
            lemma_layouts();
        }
        decode_to_f64(self.0 as u64, 5, 3, 15)
    }

    /// Encodes the binary64 value with bits `value`: it is first rounded to binary32,
    /// then encoded.
    pub fn from_f64_bits(value: u64) -> (r: Self)
        ensures
            r@ == encode_float(narrow_f64(value as nat, 8, 23, 127), 8, 23, 127, 5, 3, 15),
    {
        Self(dispatch::f32_to_uf8_e5m3(f64_to_f32(value)))
    }

    /// Encodes the binary64 value with bits `value`, refusing NaN, infinities, negative
    /// numbers, values that overflow to infinity and non-zero values that underflow to
    /// zero.
    pub fn try_from_f64_bits(value: u64) -> (r: Result<Self, ConversionError>)
        ensures
            r == Self::checked_from_f64(value as nat),
    {
        proof {
            lemma_e5m3_facts();
        }
        match check_finite_non_negative(value) {
            Err(e) => {
                return Err(e);
            },
            Ok(()) => {},
        }
        let encoded = Self::from_f64_bits(value);
        proof {
            Self::lemma_with_bits(encoded@, encoded);
        }
        match check_encoded(value, encoded.is_zero(), encoded.is_infinite()) {
            Err(e) => Err(e),
            Ok(()) => Ok(encoded),
        }
    }

    /// Encodes the binary16 value with bits `value`.
    pub fn from_f16_bits(value: u16) -> (r: Self)
        ensures
            r@ == encode_float(value as nat, 5, 10, 15, 5, 3, 15),
    {
        proof {
            lemma_layouts();
            lemma2_to64();
            lemma_widen_then_encode(value as nat, 5, 10, 15, 5, 3, 15);
            lemma_encode_float_in_width(value as nat, 5, 10, 15, 5, 3, 15);
        }
        Self(encode_from_f64(f16_to_f64(value), 5, 3, 15) as u8)
    }

    /// The binary16 bits of the value, rounded to nearest with ties to even.
    pub fn to_f16_bits(self) -> (r: u16)
        ensures
            r == narrow_f64(decode_f64(self@ as nat, 5, 3, 15), 5, 10, 15),
    {
        f64_to_f16(self.to_f64_bits())
    }

    /// The biased exponent field.
    pub fn exponent(self) -> (r: u8)
        ensures
            r == exp_field(self@ as nat, 5, 3),
    {
        proof {
            lemma_e5m3_facts();
            lemma_e5m3_fields(self.0);
        }
        (self.0 & Self::EXPONENT_MASK) >> Self::MANTISSA_BITS
    }

    /// The stored mantissa field, without the implicit leading bit.
    pub fn mantissa(self) -> (r: u8)
        ensures
            r == man_field(self@ as nat, 3),
    {
        proof {
            lemma_e5m3_facts();
            lemma_e5m3_fields(self.0);
        }
        self.0 & Self::MANTISSA_MASK
    }

    /// The value is zero.
    pub fn is_zero(self) -> (r: bool)
        ensures
            r == (self@ == 0),
    {
        self.0 == 0
    }

    /// The value is a NaN.
    pub fn is_nan(self) -> (r: bool)
        ensures
            r == is_nan_bits(self@ as nat, 5, 3),
    {
        proof {
            lemma_e5m3_facts();
        }
        self.exponent() == 0x1f && self.mantissa() != 0
    }

    /// The value is positive infinity.
    pub fn is_infinite(self) -> (r: bool)
        ensures
            r == (self@ == inf_bits(5, 3)),
    {
        proof {
            lemma_e5m3_facts();
        }
        self.0 == Self::INFINITY().0
    }

    /// The value is neither infinite nor NaN.
    pub fn is_finite(self) -> (r: bool)
        ensures
            r == is_finite_bits(self@ as nat, 5, 3),
    {
        proof {
            lemma_e5m3_facts();
        }
        self.exponent() != 0x1f
    }

    /// The value is subnormal: zero exponent field, non-zero mantissa.
    pub fn is_subnormal(self) -> (r: bool)
        ensures
            r == (exp_field(self@ as nat, 5, 3) == 0 && man_field(self@ as nat, 3) != 0),
    {
        self.exponent() == 0 && self.mantissa() != 0
    }
}

impl Uf8E5M3 {
    /// Raw-bit order is value order: a finite pattern above another has the larger value.
    pub proof fn lemma_bits_order_is_value_order(a: Self, b: Self)
        requires
            a@ < b@,
            is_finite_bits(b@ as nat, 5, 3),
        ensures
            units(a@ as nat, 5, 3, 15) < units(b@ as nat, 5, 3, 15),
    {
        lemma_e5m3_facts();
        crate::model::lemma_units_strictly_increasing(a@ as nat, b@ as nat, 5, 3, 15);
    }

    /// Converting a non-NaN value to binary64 and back gives it unchanged.
    pub proof fn lemma_f64_roundtrip(x: Self)
        requires
            !is_nan_bits(x@ as nat, 5, 3),
        ensures
            encode_float(narrow_f64(decode_f64(x@ as nat, 5, 3, 15), 8, 23, 127), 8, 23, 127, 5, 3, 15) == x@,
    {
        Self::lemma_f32_roundtrip(x);
    }

    /// A checked conversion accepts every finite value: the binary64 value of a
    /// finite pattern converts back to that pattern without error.
    pub proof fn lemma_checked_accepts_values(x: Self)
        requires
            is_finite_bits(x@ as nat, 5, 3),
        ensures
            Self::checked_from_f64(decode_f64(x@ as nat, 5, 3, 15)) == Ok::<Self, ConversionError>(x),
    {
        lemma_e5m3_facts();
        lemma2_to64_rest();
        crate::model::lemma_classes(x@ as nat, 5, 3);
        Self::lemma_f64_roundtrip(x);
        crate::laws::lemma_decode_f64_exact(x@ as nat, 5, 3, 15);
        crate::laws::lemma_checked_accepts(x@ as nat, 5, 3, 15, decode_f64(x@ as nat, 5, 3, 15));
        Self::lemma_with_bits(x@, x);
    }

    /// Every value is a f32 number, so converting a non-NaN value to f32 and
    /// back gives it unchanged.
    pub proof fn lemma_f32_roundtrip(x: Self)
        requires
            !is_nan_bits(x@ as nat, 5, 3),
        ensures
            encode_float(narrow_f64(decode_f64(x@ as nat, 5, 3, 15), 8, 23, 127), 8, 23, 127, 5, 3, 15) == x@,
    {
        lemma_e5m3_facts();
        lemma2_to64();
        crate::laws::lemma_roundtrip_through(x@ as nat, 5, 3, 15, 8, 23, 127);
    }

    /// Every value is a f16 number, so converting a non-NaN value to f16 and
    /// back gives it unchanged.
    pub proof fn lemma_f16_roundtrip(x: Self)
        requires
            !is_nan_bits(x@ as nat, 5, 3),
        ensures
            encode_float(narrow_f64(decode_f64(x@ as nat, 5, 3, 15), 5, 10, 15), 5, 10, 15, 5, 3, 15) == x@,
    {
        lemma_e5m3_facts();
        lemma2_to64();
        crate::laws::lemma_roundtrip_through(x@ as nat, 5, 3, 15, 5, 10, 15);
    }

    /// A checked conversion gives a finite number or a refusal, never infinity or NaN.
    /// A finite value not below zero converts to its encoding when that is a finite
    /// number, to zero only when it is a zero, and is refused as too large when it
    /// encodes to infinity and as too small when it is not zero but encodes to zero;
    /// NaN, the infinities and numbers below zero are refused as such.
    pub proof fn lemma_checked_outcomes(value: nat)
        requires
            value < pow2(64),
        ensures
            Self::checked_from_f64(value) matches Ok(x) ==> ({
                &&& is_finite_bits(x@ as nat, 5, 3)
                &&& x@ == encode_float(narrow_f64(value, 8, 23, 127), 8, 23, 127, 5, 3, 15)
                &&& (x@ == 0 ==> f64_is_zero(value))
                &&& !f64_is_nan(value) && !f64_is_infinite(value) && !f64_is_negative(value)
            }),
            f64_is_nan(value) ==> Self::checked_from_f64(value) == Err::<Self, ConversionError>(ConversionError::Nan),
            (f64_is_infinite(value) && !f64_is_nan(value)) ==> Self::checked_from_f64(value) == Err::<Self, ConversionError>(ConversionError::Infinite),
            (f64_is_negative(value) && !f64_is_infinite(value)) ==> Self::checked_from_f64(value) == Err::<Self, ConversionError>(ConversionError::Negative),
            (!f64_is_nan(value) && !f64_is_infinite(value) && !f64_is_negative(value) && encode_float(narrow_f64(value, 8, 23, 127), 8, 23, 127, 5, 3, 15) == inf_bits(5, 3))
                ==> Self::checked_from_f64(value) == Err::<Self, ConversionError>(ConversionError::Overflow),
            (!f64_is_nan(value) && !f64_is_infinite(value) && !f64_is_negative(value) && !f64_is_zero(value) && encode_float(narrow_f64(value, 8, 23, 127), 8, 23, 127, 5, 3, 15) == 0)
                ==> Self::checked_from_f64(value) == Err::<Self, ConversionError>(ConversionError::Underflow),
            (!f64_is_nan(value) && !f64_is_infinite(value) && !f64_is_negative(value) && encode_float(narrow_f64(value, 8, 23, 127), 8, 23, 127, 5, 3, 15) != inf_bits(5, 3)
                && (encode_float(narrow_f64(value, 8, 23, 127), 8, 23, 127, 5, 3, 15) != 0 || f64_is_zero(value))) ==> Self::checked_from_f64(value) is Ok,
    {
        lemma_e5m3_facts();
        lemma2_to64();
        lemma2_to64_rest();
        lemma_pow2_adds(63, 1);
        lemma_pow2_adds(5, 3);
        lemma_encode_float_in_width(narrow_f64(value, 8, 23, 127), 8, 23, 127, 5, 3, 15);
        if !f64_is_nan(value) && !f64_is_infinite(value) && !f64_is_negative(value) {
            vstd::arithmetic::div_mod::lemma_fundamental_div_mod(value as int, pow2(63) as int);
            vstd::arithmetic::div_mod::lemma_mod_pos_bound(value as int, pow2(63) as int);
            crate::laws::lemma_narrow_not_below_zero(value);
            crate::laws::lemma_encode_float_bounded(narrow_f64(value, 8, 23, 127), 8, 23, 127, 5, 3, 15);
            if encode_float(narrow_f64(value, 8, 23, 127), 8, 23, 127, 5, 3, 15) < inf_bits(5, 3) {
                crate::laws::lemma_below_infinity(encode_float(narrow_f64(value, 8, 23, 127), 8, 23, 127, 5, 3, 15), 5, 3);
            }
            Self::lemma_with_bits((encode_float(narrow_f64(value, 8, 23, 127), 8, 23, 127, 5, 3, 15)) as u8, Self::with_bits((encode_float(narrow_f64(value, 8, 23, 127), 8, 23, 127, 5, 3, 15)) as u8));
        }
    }

}

/// The constants of the Uf8E5M3 layout, in terms of the model.
proof fn lemma_e5m3_facts()
    ensures
        pow2(3) == 8,
        pow2(5) == 32,
        pow2(8) == 256,
        max_exp(5) == 31,
        inf_bits(5, 3) == 0xf8,
        encodable(5, 3, 15),
        decodable(5, 3, 15),
        exp_field(0x78, 5, 3) == 15,
        man_field(0x78, 3) == 0,
        exp_field(0xf8, 5, 3) == 31,
        man_field(0xf8, 3) == 0,
        exp_field(0xfc, 5, 3) == 31,
        man_field(0xfc, 3) == 4,
        exp_field(0xf7, 5, 3) == 30,
        man_field(0xf7, 3) == 7,
        exp_field(0x01, 5, 3) == 0,
        man_field(0x01, 3) == 1,
        exp_field(0x08, 5, 3) == 1,
        man_field(0x08, 3) == 0,
        units(0x78, 5, 3, 15) == pow2(1074),
        units(0x01, 5, 3, 15) == pow2(sub_shift(3, 15)),
{
    lemma2_to64();
    lemma2_to64_rest();
    lemma_layouts();
    lemma_pow2_adds(5, 3);
    lemma_fields(15, 0, 5, 3);
    assert(0x78 == 15 * pow2(3) + 0);
    lemma_fields(31, 0, 5, 3);
    assert(0xf8 == 31 * pow2(3) + 0);
    lemma_fields(31, 4, 5, 3);
    assert(0xfc == 31 * pow2(3) + 4);
    lemma_fields(30, 7, 5, 3);
    assert(0xf7 == 30 * pow2(3) + 7);
    lemma_fields(0, 1, 5, 3);
    assert(0x01 == 0 * pow2(3) + 1);
    lemma_fields(1, 0, 5, 3);
    assert(0x08 == 1 * pow2(3) + 0);
    lemma_pow2_adds(3, 1071);
    assert(3 + 1071 == 1074);
    assert(units(0x01, 5, 3, 15) == 1 * pow2(sub_shift(3, 15)));
}

/// Masks and shifts that read the fields of a Uf8E5M3 pattern.
proof fn lemma_e5m3_fields(x: u8)
    ensures
        ((x & 0xf8) >> 3u32) == (x / 8) % 32,
        (x & 0x07) == x % 8,
{
    assert(((x & 0xf8) >> 3u32) == (x / 8) % 32 && (x & 0x07) == x % 8) by (bit_vector);
}


} // verus!
