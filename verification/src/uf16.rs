//! Sixteen-bit unsigned float layouts.
use vstd::prelude::*;
use vstd::arithmetic::power2::{pow2, lemma2_to64, lemma2_to64_rest, lemma_pow2_adds};
use crate::model::{units, exp_field, man_field, max_exp, sub_shift, inf_bits, is_nan_bits, is_inf_bits, is_finite_bits, in_width, encodable, decodable, decode_f64, encode_f64, encode_float, narrow_f64, lemma_layouts, lemma_fields, lemma_split, lemma_encode_float_in_width};
use crate::codec::{decode_to_f64, encode_from_f64};
use crate::widths::{f16_to_f64, f64_to_f16, lemma_widen_then_encode};
use crate::convert::{ConversionError, conversion_outcome, check_finite_non_negative, check_encoded, f64_is_nan, f64_is_infinite, f64_is_negative, f64_is_zero};
use crate::dispatch;

verus! {

/// A 16-bit unsigned float with 5 exponent bits and 11 mantissa bits (bias 15).
#[derive(Clone, Copy, Debug, PartialEq, Eq, Structural, Hash, Ord)]
pub struct Uf16(u16);

/// The 16-bit layout with 5 exponent bits and 11 mantissa bits.
pub type Uf16E5M11 = Uf16;

impl View for Uf16 {
    type V = u16;

    closed spec fn view(&self) -> u16 {
        self.0
    }
}

impl Default for Uf16 {
    /// Zero.
    fn default() -> (r: Self)
        ensures
            r@ == 0,
    {
        Self(0)
    }
}

impl Uf16 {
    pub const EXPONENT_BITS: u32 = 5;
    pub const MANTISSA_BITS: u32 = 11;
    pub const EXPONENT_BIAS: i32 = 15;
    pub const EXPONENT_MASK: u16 = 0xf800;
    pub const MANTISSA_MASK: u16 = 0x07ff;

    /// Zero.
    #[allow(non_snake_case)]
    pub fn ZERO() -> (r: Self)
        ensures
            r@ == 0,
    {
        Self(0)
    }

    /// One.
    #[allow(non_snake_case)]
    pub fn ONE() -> (r: Self)
        ensures
            r@ == 0x7800,
            units(r@ as nat, 5, 11, 15) == pow2(1074),
    {
        proof {
            lemma_e5m11_facts();
        }
        Self(0x7800)
    }

    /// Positive infinity.
    #[allow(non_snake_case)]
    pub fn INFINITY() -> (r: Self)
        ensures
            r@ == 0xf800,
            is_inf_bits(r@ as nat, 5, 11),
    {
        proof {
            lemma_e5m11_facts();
        }
        Self(0xf800)
    }

    /// The canonical quiet NaN.
    #[allow(non_snake_case)]
    pub fn NAN() -> (r: Self)
        ensures
            r@ == 0xfc00,
            is_nan_bits(r@ as nat, 5, 11),
    {
        proof {
            lemma_e5m11_facts();
        }
        Self(0xfc00)
    }

    /// The largest finite value.
    #[allow(non_snake_case)]
    pub fn MAX() -> (r: Self)
        ensures
            r@ == 0xf7ff,
            is_finite_bits(r@ as nat, 5, 11),
            forall|b: nat| #[trigger] is_finite_bits(b, 5, 11) && in_width(b, 5, 11) ==> b <= r@,
    {
        proof {
            lemma_e5m11_facts();
            assert forall|b: nat| #[trigger] is_finite_bits(b, 5, 11) && in_width(b, 5, 11) implies b <= 0xf7ff by {
                lemma_split(b, 5, 11);
            }
        }
        Self(0xf7ff)
    }

    /// The smallest positive (subnormal) value.
    #[allow(non_snake_case)]
    pub fn MIN_POSITIVE() -> (r: Self)
        ensures
            r@ == 0x0001,
            units(r@ as nat, 5, 11, 15) == pow2(sub_shift(11, 15)),
    {
        proof {
            lemma_e5m11_facts();
        }
        Self(0x0001)
    }

    /// The smallest normal value.
    #[allow(non_snake_case)]
    pub fn MIN_NORMAL() -> (r: Self)
        ensures
            r@ == 0x0800,
            exp_field(r@ as nat, 5, 11) == 1 && man_field(r@ as nat, 11) == 0,
    {
        proof {
            lemma_e5m11_facts();
        }
        Self(0x0800)
    }

    /// Wraps a raw bit pattern.
    pub fn from_bits(bits: u16) -> (r: Self)
        ensures
            r@ == bits,
    {
        Self(bits)
    }

    /// The raw bit pattern.
    pub fn to_bits(self) -> (r: u16)
        ensures
            r == self@,
    {
        self.0
    }

    /// The value with the raw bit pattern `bits`.
    pub closed spec fn with_bits(bits: u16) -> Self {
        Self(bits)
    }

    /// `with_bits` keeps its pattern, and every value is `with_bits` of its own pattern.
    pub proof fn lemma_with_bits(bits: u16, x: Self)
        ensures
            Self::with_bits(bits)@ == bits,
            x == Self::with_bits(x@),
    {
    }

    /// What a checked conversion of the binary64 value with bits `value` gives: the
    /// encoded value, or why it is refused.
    pub open spec fn checked_from_f64(value: nat) -> Result<Self, ConversionError> {
        match conversion_outcome(value, encode_f64(value, 5, 11, 15), 5, 11) {
            Some(e) => Err(e),
            None => Ok(Self::with_bits((encode_f64(value, 5, 11, 15)) as u16)),
        }
    }

    /// The binary32 bits of the value (exact: every value of the layout is a binary32
    /// number).
    pub fn to_f32_bits(self) -> (r: u32)
        ensures
            r == narrow_f64(decode_f64(self@ as nat, 5, 11, 15), 8, 23, 127),
    {
        dispatch::uf16_to_f32(self.0)
    }

    /// Encodes the binary32 value with bits `value`.
    pub fn from_f32_bits(value: u32) -> (r: Self)
        ensures
            r@ == encode_float(value as nat, 8, 23, 127, 5, 11, 15),
    {
        Self(dispatch::f32_to_uf16(value))
    }

    /// The binary64 bits of the value.
    pub fn to_f64_bits(self) -> (r: u64)
        ensures
            r == decode_f64(self@ as nat, 5, 11, 15),
    {
        proof {
            lemma_layouts();
        }
        decode_to_f64(self.0 as u64, 5, 11, 15)
    }

    /// Encodes the binary64 value with bits `value`.
    pub fn from_f64_bits(value: u64) -> (r: Self)
        ensures
            r@ == encode_f64(value as nat, 5, 11, 15),
    {
        proof {
            lemma_layouts();
            lemma2_to64();
            lemma_encode_float_in_width(value as nat, 11, 52, 1023, 5, 11, 15);
        }
        Self(encode_from_f64(value, 5, 11, 15) as u16)
    }

    /// Encodes the binary64 value with bits `value`, refusing NaN, infinities, negative
    /// numbers, values that overflow to infinity and non-zero values that underflow to
    /// zero.
    pub fn try_from_f64_bits(value: u64) -> (r: Result<Self, ConversionError>)
        ensures
            r == Self::checked_from_f64(value as nat),
    {
        proof {
            lemma_e5m11_facts();
        }
        match check_finite_non_negative(value) {
            Err(e) => {
                return Err(e);
            },
            Ok(()) => {},
        }
        let encoded = Self::from_f64_bits(value);
        proof {
            Self::lemma_with_bits(encoded@, encoded);
        }
        match check_encoded(value, encoded.is_zero(), encoded.is_infinite()) {
            Err(e) => Err(e),
            Ok(()) => Ok(encoded),
        }
    }

    /// Encodes the binary16 value with bits `value`.
    pub fn from_f16_bits(value: u16) -> (r: Self)
        ensures
            r@ == encode_float(value as nat, 5, 10, 15, 5, 11, 15),
    {
        proof {
            lemma_layouts();
            lemma2_to64();
            lemma_widen_then_encode(value as nat, 5, 10, 15, 5, 11, 15);
            lemma_encode_float_in_width(value as nat, 5, 10, 15, 5, 11, 15);
        }
        Self(encode_from_f64(f16_to_f64(value), 5, 11, 15) as u16)
    }

    /// The binary16 bits of the value, rounded to nearest with ties to even.
    pub fn to_f16_bits(self) -> (r: u16)
        ensures
            r == narrow_f64(decode_f64(self@ as nat, 5, 11, 15), 5, 10, 15),
    {
        f64_to_f16(self.to_f64_bits())
    }

    /// The biased exponent field.
    pub fn exponent(self) -> (r: u16)
        ensures
            r == exp_field(self@ as nat, 5, 11),
    {
        proof {
            lemma_e5m11_facts();
            lemma_e5m11_fields(self.0);
        }
        (self.0 & Self::EXPONENT_MASK) >> Self::MANTISSA_BITS
    }

    /// The stored mantissa field, without the implicit leading bit.
    pub fn mantissa(self) -> (r: u16)
        ensures
            r == man_field(self@ as nat, 11),
    {
        proof {
            lemma_e5m11_facts();
            lemma_e5m11_fields(self.0);
        }
        self.0 & Self::MANTISSA_MASK
    }

    /// The value is zero.
    pub fn is_zero(self) -> (r: bool)
        ensures
            r == (self@ == 0),
    {
        self.0 == 0
    }

    /// The value is a NaN.
    pub fn is_nan(self) -> (r: bool)
        ensures
            r == is_nan_bits(self@ as nat, 5, 11),
    {
        proof {
            lemma_e5m11_facts();
        }
        self.exponent() == 0x1f && self.mantissa() != 0
    }

    /// The value is positive infinity.
    pub fn is_infinite(self) -> (r: bool)
        ensures
            r == (self@ == inf_bits(5, 11)),
    {
        proof {
            lemma_e5m11_facts();
        }
        self.0 == Self::INFINITY().0
    }

    /// The value is neither infinite nor NaN.
    pub fn is_finite(self) -> (r: bool)
        ensures
            r == is_finite_bits(self@ as nat, 5, 11),
    {
        proof {
            lemma_e5m11_facts();
        }
        self.exponent() != 0x1f
    }

    /// The value is subnormal: zero exponent field, non-zero mantissa.
    pub fn is_subnormal(self) -> (r: bool)
        ensures
            r == (exp_field(self@ as nat, 5, 11) == 0 && man_field(self@ as nat, 11) != 0),
    {
        self.exponent() == 0 && self.mantissa() != 0
    }
}

impl Uf16 {
    /// Raw-bit order is value order: a finite pattern above another has the larger value.
    pub proof fn lemma_bits_order_is_value_order(a: Self, b: Self)
        requires
            a@ < b@,
            is_finite_bits(b@ as nat, 5, 11),
        ensures
            units(a@ as nat, 5, 11, 15) < units(b@ as nat, 5, 11, 15),
    {
        lemma_e5m11_facts();
        crate::model::lemma_units_strictly_increasing(a@ as nat, b@ as nat, 5, 11, 15);
    }

    /// Converting a non-NaN value to binary64 and back gives it unchanged.
    pub proof fn lemma_f64_roundtrip(x: Self)
        requires
            !is_nan_bits(x@ as nat, 5, 11),
        ensures
            encode_f64(decode_f64(x@ as nat, 5, 11, 15), 5, 11, 15) == x@,
    {
        lemma_e5m11_facts();
        crate::laws::lemma_decode_encode_roundtrip(x@ as nat, 5, 11, 15);
    }

    /// A checked conversion accepts every finite value: the binary64 value of a
    /// finite pattern converts back to that pattern without error.
    pub proof fn lemma_checked_accepts_values(x: Self)
        requires
            is_finite_bits(x@ as nat, 5, 11),
        ensures
            Self::checked_from_f64(decode_f64(x@ as nat, 5, 11, 15)) == Ok::<Self, ConversionError>(x),
    {
        lemma_e5m11_facts();
        lemma2_to64_rest();
        crate::model::lemma_classes(x@ as nat, 5, 11);
        Self::lemma_f64_roundtrip(x);
        crate::laws::lemma_decode_f64_exact(x@ as nat, 5, 11, 15);
        crate::laws::lemma_checked_accepts(x@ as nat, 5, 11, 15, decode_f64(x@ as nat, 5, 11, 15));
        Self::lemma_with_bits(x@, x);
    }

    /// Every value is a f32 number, so converting a non-NaN value to f32 and
    /// back gives it unchanged.
    pub proof fn lemma_f32_roundtrip(x: Self)
        requires
            !is_nan_bits(x@ as nat, 5, 11),
        ensures
            encode_float(narrow_f64(decode_f64(x@ as nat, 5, 11, 15), 8, 23, 127), 8, 23, 127, 5, 11, 15) == x@,
    {
        lemma_e5m11_facts();
        lemma2_to64();
        crate::laws::lemma_roundtrip_through(x@ as nat, 5, 11, 15, 8, 23, 127);
    }

    /// A checked conversion gives a finite number or a refusal, never infinity or NaN.
    /// A finite value not below zero converts to its encoding when that is a finite
    /// number, to zero only when it is a zero, and is refused as too large when it
    /// encodes to infinity and as too small when it is not zero but encodes to zero;
    /// NaN, the infinities and numbers below zero are refused as such.
    pub proof fn lemma_checked_outcomes(value: nat)
        requires
            value < pow2(64),
        ensures
            Self::checked_from_f64(value) matches Ok(x) ==> ({
                &&& is_finite_bits(x@ as nat, 5, 11)
                &&& x@ == encode_f64(value, 5, 11, 15)
                &&& (x@ == 0 ==> f64_is_zero(value))
                &&& !f64_is_nan(value) && !f64_is_infinite(value) && !f64_is_negative(value)
            }),
            f64_is_nan(value) ==> Self::checked_from_f64(value) == Err::<Self, ConversionError>(ConversionError::Nan),
            (f64_is_infinite(value) && !f64_is_nan(value)) ==> Self::checked_from_f64(value) == Err::<Self, ConversionError>(ConversionError::Infinite),
            (f64_is_negative(value) && !f64_is_infinite(value)) ==> Self::checked_from_f64(value) == Err::<Self, ConversionError>(ConversionError::Negative),
            (!f64_is_nan(value) && !f64_is_infinite(value) && !f64_is_negative(value) && encode_f64(value, 5, 11, 15) == inf_bits(5, 11))
                ==> Self::checked_from_f64(value) == Err::<Self, ConversionError>(ConversionError::Overflow),
            (!f64_is_nan(value) && !f64_is_infinite(value) && !f64_is_negative(value) && !f64_is_zero(value) && encode_f64(value, 5, 11, 15) == 0)
                ==> Self::checked_from_f64(value) == Err::<Self, ConversionError>(ConversionError::Underflow),
            (!f64_is_nan(value) && !f64_is_infinite(value) && !f64_is_negative(value) && encode_f64(value, 5, 11, 15) != inf_bits(5, 11)
                && (encode_f64(value, 5, 11, 15) != 0 || f64_is_zero(value))) ==> Self::checked_from_f64(value) is Ok,
    {
        lemma_e5m11_facts();
        lemma2_to64();
        lemma2_to64_rest();
        lemma_pow2_adds(63, 1);
        lemma_pow2_adds(5, 11);
        lemma_encode_float_in_width(value, 11, 52, 1023, 5, 11, 15);
        if !f64_is_nan(value) && !f64_is_infinite(value) && !f64_is_negative(value) {
            vstd::arithmetic::div_mod::lemma_fundamental_div_mod(value as int, pow2(63) as int);
            vstd::arithmetic::div_mod::lemma_mod_pos_bound(value as int, pow2(63) as int);
            crate::laws::lemma_encode_float_bounded(value, 11, 52, 1023, 5, 11, 15);
            if encode_f64(value, 5, 11, 15) < inf_bits(5, 11) {
                crate::laws::lemma_below_infinity(encode_f64(value, 5, 11, 15), 5, 11);
            }
            Self::lemma_with_bits((encode_f64(value, 5, 11, 15)) as u16, Self::with_bits((encode_f64(value, 5, 11, 15)) as u16));
        }
    }

}

/// The constants of the Uf16 layout, in terms of the model.
proof fn lemma_e5m11_facts()
    ensures
        pow2(11) == 2048,
        pow2(5) == 32,
        pow2(16) == 65536,
        max_exp(5) == 31,
        inf_bits(5, 11) == 0xf800,
        encodable(5, 11, 15),
        decodable(5, 11, 15),
        exp_field(0x7800, 5, 11) == 15,
        man_field(0x7800, 11) == 0,
        exp_field(0xf800, 5, 11) == 31,
        man_field(0xf800, 11) == 0,
        exp_field(0xfc00, 5, 11) == 31,
        man_field(0xfc00, 11) == 1024,
        exp_field(0xf7ff, 5, 11) == 30,
        man_field(0xf7ff, 11) == 2047,
        exp_field(0x0001, 5, 11) == 0,
        man_field(0x0001, 11) == 1,
        exp_field(0x0800, 5, 11) == 1,
        man_field(0x0800, 11) == 0,
        units(0x7800, 5, 11, 15) == pow2(1074),
        units(0x0001, 5, 11, 15) == pow2(sub_shift(11, 15)),
{
    lemma2_to64();
    lemma2_to64_rest();
    lemma_layouts();
    lemma_pow2_adds(5, 11);
    lemma_fields(15, 0, 5, 11);
    assert(0x7800 == 15 * pow2(11) + 0);
    lemma_fields(31, 0, 5, 11);
    assert(0xf800 == 31 * pow2(11) + 0);
    lemma_fields(31, 1024, 5, 11);
    assert(0xfc00 == 31 * pow2(11) + 1024);
    lemma_fields(30, 2047, 5, 11);
    assert(0xf7ff == 30 * pow2(11) + 2047);
    lemma_fields(0, 1, 5, 11);
    assert(0x0001 == 0 * pow2(11) + 1);
    lemma_fields(1, 0, 5, 11);
    assert(0x0800 == 1 * pow2(11) + 0);
    lemma_pow2_adds(11, 1063);
    assert(11 + 1063 == 1074);
    assert(units(0x0001, 5, 11, 15) == 1 * pow2(sub_shift(11, 15)));
}

/// Masks and shifts that read the fields of a Uf16 pattern.
proof fn lemma_e5m11_fields(x: u16)
    ensures
        ((x & 0xf800) >> 11u32) == (x / 2048) % 32,
        (x & 0x07ff) == x % 2048,
{
    assert(((x & 0xf800) >> 11u32) == (x / 2048) % 32 && (x & 0x07ff) == x % 2048) by (bit_vector);
}

/// A 16-bit unsigned float with 6 exponent bits and 10 mantissa bits (bias 31).
#[derive(Clone, Copy, Debug, PartialEq, Eq, Structural, Hash, Ord)]
pub struct Uf16E6M10(u16);

impl View for Uf16E6M10 {
    type V = u16;

    closed spec fn view(&self) -> u16 {
        self.0
    }
}

impl Default for Uf16E6M10 {
    /// Zero.
    fn default() -> (r: Self)
        ensures
            r@ == 0,
    {
        Self(0)
    }
}

impl Uf16E6M10 {
    pub const EXPONENT_BITS: u32 = 6;
    pub const MANTISSA_BITS: u32 = 10;
    pub const EXPONENT_BIAS: i32 = 31;
    pub const EXPONENT_MASK: u16 = 0xfc00;
    pub const MANTISSA_MASK: u16 = 0x03ff;

    /// Zero.
    #[allow(non_snake_case)]
    pub fn ZERO() -> (r: Self)
        ensures
            r@ == 0,
    {
        Self(0)
    }

    /// One.
    #[allow(non_snake_case)]
    pub fn ONE() -> (r: Self)
        ensures
            r@ == 0x7c00,
            units(r@ as nat, 6, 10, 31) == pow2(1074),
    {
        proof {
            lemma_e6m10_facts();
        }
        Self(0x7c00)
    }

    /// Positive infinity.
    #[allow(non_snake_case)]
    pub fn INFINITY() -> (r: Self)
        ensures
            r@ == 0xfc00,
            is_inf_bits(r@ as nat, 6, 10),
    {
        proof {
            lemma_e6m10_facts();
        }
        Self(0xfc00)
    }

    /// The canonical quiet NaN.
    #[allow(non_snake_case)]
    pub fn NAN() -> (r: Self)
        ensures
            r@ == 0xfe00,
            is_nan_bits(r@ as nat, 6, 10),
    {
        proof {
            lemma_e6m10_facts();
        }
        Self(0xfe00)
    }

    /// The largest finite value.
    #[allow(non_snake_case)]
    pub fn MAX() -> (r: Self)
        ensures
            r@ == 0xfbff,
            is_finite_bits(r@ as nat, 6, 10),
            forall|b: nat| #[trigger] is_finite_bits(b, 6, 10) && in_width(b, 6, 10) ==> b <= r@,
    {
        proof {
            lemma_e6m10_facts();
            assert forall|b: nat| #[trigger] is_finite_bits(b, 6, 10) && in_width(b, 6, 10) implies b <= 0xfbff by {
                lemma_split(b, 6, 10);
            }
        }
        Self(0xfbff)
    }

    /// The smallest positive (subnormal) value.
    #[allow(non_snake_case)]
    pub fn MIN_POSITIVE() -> (r: Self)
        ensures
            r@ == 0x0001,
            units(r@ as nat, 6, 10, 31) == pow2(sub_shift(10, 31)),
    {
        proof {
            lemma_e6m10_facts();
        }
        Self(0x0001)
    }

    /// The smallest normal value.
    #[allow(non_snake_case)]
    pub fn MIN_NORMAL() -> (r: Self)
        ensures
            r@ == 0x0400,
            exp_field(r@ as nat, 6, 10) == 1 && man_field(r@ as nat, 10) == 0,
    {
        proof {
            lemma_e6m10_facts();
        }
        Self(0x0400)
    }

    /// Wraps a raw bit pattern.
    pub fn from_bits(bits: u16) -> (r: Self)
        ensures
            r@ == bits,
    {
        Self(bits)
    }

    /// The raw bit pattern.
    pub fn to_bits(self) -> (r: u16)
        ensures
            r == self@,
    {
        self.0
    }

    /// The value with the raw bit pattern `bits`.
    pub closed spec fn with_bits(bits: u16) -> Self {
        Self(bits)
    }

    /// `with_bits` keeps its pattern, and every value is `with_bits` of its own pattern.
    pub proof fn lemma_with_bits(bits: u16, x: Self)
        ensures
            Self::with_bits(bits)@ == bits,
            x == Self::with_bits(x@),
    {
    }

    /// What a checked conversion of the binary64 value with bits `value` gives: the
    /// encoded value, or why it is refused.
    pub open spec fn checked_from_f64(value: nat) -> Result<Self, ConversionError> {
        match conversion_outcome(value, encode_f64(value, 6, 10, 31), 6, 10) {
            Some(e) => Err(e),
            None => Ok(Self::with_bits((encode_f64(value, 6, 10, 31)) as u16)),
        }
    }

    /// The binary32 bits of the value (exact: every value of the layout is a binary32
    /// number).
    pub fn to_f32_bits(self) -> (r: u32)
        ensures
            r == narrow_f64(decode_f64(self@ as nat, 6, 10, 31), 8, 23, 127),
    {
        dispatch::uf16_e6m10_to_f32(self.0)
    }

    /// Encodes the binary32 value with bits `value`.
    pub fn from_f32_bits(value: u32) -> (r: Self)
        ensures
            r@ == encode_float(value as nat, 8, 23, 127, 6, 10, 31),
    {
        Self(dispatch::f32_to_uf16_e6m10(value))
    }

    /// The binary64 bits of the value.
    pub fn to_f64_bits(self) -> (r: u64)
        ensures
            r == decode_f64(self@ as nat, 6, 10, 31),
    {
        proof {
            lemma_layouts();
        }
        decode_to_f64(self.0 as u64, 6, 10, 31)
    }

    /// Encodes the binary64 value with bits `value`.
    pub fn from_f64_bits(value: u64) -> (r: Self)
        ensures
            r@ == encode_f64(value as nat, 6, 10, 31),
    {
        proof {
            lemma_layouts();
            lemma2_to64();
            lemma_encode_float_in_width(value as nat, 11, 52, 1023, 6, 10, 31);
        }
        Self(encode_from_f64(value, 6, 10, 31) as u16)
    }

    /// Encodes the binary64 value with bits `value`, refusing NaN, infinities, negative
    /// numbers, values that overflow to infinity and non-zero values that underflow to
    /// zero.
    pub fn try_from_f64_bits(value: u64) -> (r: Result<Self, ConversionError>)
        ensures
            r == Self::checked_from_f64(value as nat),
    {
        proof {
            lemma_e6m10_facts();
        }
        match check_finite_non_negative(value) {
            Err(e) => {
                return Err(e);
            },
            Ok(()) => {},
        }
        let encoded = Self::from_f64_bits(value);
        proof {
            Self::lemma_with_bits(encoded@, encoded);
        }
        match check_encoded(value, encoded.is_zero(), encoded.is_infinite()) {
            Err(e) => Err(e),
            Ok(()) => Ok(encoded),
        }
    }

    /// Encodes the binary16 value with bits `value`.
    pub fn from_f16_bits(value: u16) -> (r: Self)
        ensures
            r@ == encode_float(value as nat, 5, 10, 15, 6, 10, 31),
    {
        proof {
            lemma_layouts();
            lemma2_to64();
            lemma_widen_then_encode(value as nat, 5, 10, 15, 6, 10, 31);
            lemma_encode_float_in_width(value as nat, 5, 10, 15, 6, 10, 31);
        }
        Self(encode_from_f64(f16_to_f64(value), 6, 10, 31) as u16)
    }

    /// The binary16 bits of the value, rounded to nearest with ties to even.
    pub fn to_f16_bits(self) -> (r: u16)
        ensures
            r == narrow_f64(decode_f64(self@ as nat, 6, 10, 31), 5, 10, 15),
    {
        f64_to_f16(self.to_f64_bits())
    }

    /// The biased exponent field.
    pub fn exponent(self) -> (r: u16)
        ensures
            r == exp_field(self@ as nat, 6, 10),
    {
        proof {
            lemma_e6m10_facts();
            lemma_e6m10_fields(self.0);
        }
        (self.0 & Self::EXPONENT_MASK) >> Self::MANTISSA_BITS
    }

    /// The stored mantissa field, without the implicit leading bit.
    pub fn mantissa(self) -> (r: u16)
        ensures
            r == man_field(self@ as nat, 10),
    {
        proof {
            lemma_e6m10_facts();
            lemma_e6m10_fields(self.0);
        }
        self.0 & Self::MANTISSA_MASK
    }

    /// The value is zero.
    pub fn is_zero(self) -> (r: bool)
        ensures
            r == (self@ == 0),
    {
        self.0 == 0
    }

    /// The value is a NaN.
    pub fn is_nan(self) -> (r: bool)
        ensures
            r == is_nan_bits(self@ as nat, 6, 10),
    {
        proof {
            lemma_e6m10_facts();
        }
        self.exponent() == 0x3f && self.mantissa() != 0
    }

    /// The value is positive infinity.
    pub fn is_infinite(self) -> (r: bool)
        ensures
            r == (self@ == inf_bits(6, 10)),
    {
        proof {
            lemma_e6m10_facts();
        }
        self.0 == Self::INFINITY().0
    }

    /// The value is neither infinite nor NaN.
    pub fn is_finite(self) -> (r: bool)
        ensures
            r == is_finite_bits(self@ as nat, 6, 10),
    {
        proof {
            lemma_e6m10_facts();
        }
        self.exponent() != 0x3f
    }

    /// The value is subnormal: zero exponent field, non-zero mantissa.
    pub fn is_subnormal(self) -> (r: bool)
        ensures
            r == (exp_field(self@ as nat, 6, 10) == 0 && man_field(self@ as nat, 10) != 0),
    {
        self.exponent() == 0 && self.mantissa() != 0
    }
}

impl Uf16E6M10 {
    /// Raw-bit order is value order: a finite pattern above another has the larger value.
    pub proof fn lemma_bits_order_is_value_order(a: Self, b: Self)
        requires
            a@ < b@,
            is_finite_bits(b@ as nat, 6, 10),
        ensures
            units(a@ as nat, 6, 10, 31) < units(b@ as nat, 6, 10, 31),
    {
        lemma_e6m10_facts();
        crate::model::lemma_units_strictly_increasing(a@ as nat, b@ as nat, 6, 10, 31);
    }

    /// Converting a non-NaN value to binary64 and back gives it unchanged.
    pub proof fn lemma_f64_roundtrip(x: Self)
        requires
            !is_nan_bits(x@ as nat, 6, 10),
        ensures
            encode_f64(decode_f64(x@ as nat, 6, 10, 31), 6, 10, 31) == x@,
    {
        lemma_e6m10_facts();
        crate::laws::lemma_decode_encode_roundtrip(x@ as nat, 6, 10, 31);
    }

    /// A checked conversion accepts every finite value: the binary64 value of a
    /// finite pattern converts back to that pattern without error.
    pub proof fn lemma_checked_accepts_values(x: Self)
        requires
            is_finite_bits(x@ as nat, 6, 10),
        ensures
            Self::checked_from_f64(decode_f64(x@ as nat, 6, 10, 31)) == Ok::<Self, ConversionError>(x),
    {
        lemma_e6m10_facts();
        lemma2_to64_rest();
        crate::model::lemma_classes(x@ as nat, 6, 10);
        Self::lemma_f64_roundtrip(x);
        crate::laws::lemma_decode_f64_exact(x@ as nat, 6, 10, 31);
        crate::laws::lemma_checked_accepts(x@ as nat, 6, 10, 31, decode_f64(x@ as nat, 6, 10, 31));
        Self::lemma_with_bits(x@, x);
    }

    /// Every value is a f32 number, so converting a non-NaN value to f32 and
    /// back gives it unchanged.
    pub proof fn lemma_f32_roundtrip(x: Self)
        requires
            !is_nan_bits(x@ as nat, 6, 10),
        ensures
            encode_float(narrow_f64(decode_f64(x@ as nat, 6, 10, 31), 8, 23, 127), 8, 23, 127, 6, 10, 31) == x@,
    {
        lemma_e6m10_facts();
        lemma2_to64();
        crate::laws::lemma_roundtrip_through(x@ as nat, 6, 10, 31, 8, 23, 127);
    }

    /// A checked conversion gives a finite number or a refusal, never infinity or NaN.
    /// A finite value not below zero converts to its encoding when that is a finite
    /// number, to zero only when it is a zero, and is refused as too large when it
    /// encodes to infinity and as too small when it is not zero but encodes to zero;
    /// NaN, the infinities and numbers below zero are refused as such.
    pub proof fn lemma_checked_outcomes(value: nat)
        requires
            value < pow2(64),
        ensures
            Self::checked_from_f64(value) matches Ok(x) ==> ({
                &&& is_finite_bits(x@ as nat, 6, 10)
                &&& x@ == encode_f64(value, 6, 10, 31)
                &&& (x@ == 0 ==> f64_is_zero(value))
                &&& !f64_is_nan(value) && !f64_is_infinite(value) && !f64_is_negative(value)
            }),
            f64_is_nan(value) ==> Self::checked_from_f64(value) == Err::<Self, ConversionError>(ConversionError::Nan),
            (f64_is_infinite(value) && !f64_is_nan(value)) ==> Self::checked_from_f64(value) == Err::<Self, ConversionError>(ConversionError::Infinite),
            (f64_is_negative(value) && !f64_is_infinite(value)) ==> Self::checked_from_f64(value) == Err::<Self, ConversionError>(ConversionError::Negative),
            (!f64_is_nan(value) && !f64_is_infinite(value) && !f64_is_negative(value) && encode_f64(value, 6, 10, 31) == inf_bits(6, 10))
                ==> Self::checked_from_f64(value) == Err::<Self, ConversionError>(ConversionError::Overflow),
            (!f64_is_nan(value) && !f64_is_infinite(value) && !f64_is_negative(value) && !f64_is_zero(value) && encode_f64(value, 6, 10, 31) == 0)
                ==> Self::checked_from_f64(value) == Err::<Self, ConversionError>(ConversionError::Underflow),
            (!f64_is_nan(value) && !f64_is_infinite(value) && !f64_is_negative(value) && encode_f64(value, 6, 10, 31) != inf_bits(6, 10)
                && (encode_f64(value, 6, 10, 31) != 0 || f64_is_zero(value))) ==> Self::checked_from_f64(value) is Ok,
    {
        lemma_e6m10_facts();
        lemma2_to64();
        lemma2_to64_rest();
        lemma_pow2_adds(63, 1);
        lemma_pow2_adds(6, 10);
        lemma_encode_float_in_width(value, 11, 52, 1023, 6, 10, 31);
        if !f64_is_nan(value) && !f64_is_infinite(value) && !f64_is_negative(value) {
            vstd::arithmetic::div_mod::lemma_fundamental_div_mod(value as int, pow2(63) as int);
            vstd::arithmetic::div_mod::lemma_mod_pos_bound(value as int, pow2(63) as int);
            crate::laws::lemma_encode_float_bounded(value, 11, 52, 1023, 6, 10, 31);
            if encode_f64(value, 6, 10, 31) < inf_bits(6, 10) {
                crate::laws::lemma_below_infinity(encode_f64(value, 6, 10, 31), 6, 10);
            }
            Self::lemma_with_bits((encode_f64(value, 6, 10, 31)) as u16, Self::with_bits((encode_f64(value, 6, 10, 31)) as u16));
        }
    }

}

/// The constants of the Uf16E6M10 layout, in terms of the model.
proof fn lemma_e6m10_facts()
    ensures
        pow2(10) == 1024,
        pow2(6) == 64,
        pow2(16) == 65536,
        max_exp(6) == 63,
        inf_bits(6, 10) == 0xfc00,
        encodable(6, 10, 31),
        decodable(6, 10, 31),
        exp_field(0x7c00, 6, 10) == 31,
        man_field(0x7c00, 10) == 0,
        exp_field(0xfc00, 6, 10) == 63,
        man_field(0xfc00, 10) == 0,
        exp_field(0xfe00, 6, 10) == 63,
        man_field(0xfe00, 10) == 512,
        exp_field(0xfbff, 6, 10) == 62,
        man_field(0xfbff, 10) == 1023,
        exp_field(0x0001, 6, 10) == 0,
        man_field(0x0001, 10) == 1,
        exp_field(0x0400, 6, 10) == 1,
        man_field(0x0400, 10) == 0,
        units(0x7c00, 6, 10, 31) == pow2(1074),
        units(0x0001, 6, 10, 31) == pow2(sub_shift(10, 31)),
{
    lemma2_to64();
    lemma2_to64_rest();
    lemma_layouts();
    lemma_pow2_adds(6, 10);
    lemma_fields(31, 0, 6, 10);
    assert(0x7c00 == 31 * pow2(10) + 0);
    lemma_fields(63, 0, 6, 10);
    assert(0xfc00 == 63 * pow2(10) + 0);
    lemma_fields(63, 512, 6, 10);
    assert(0xfe00 == 63 * pow2(10) + 512);
    lemma_fields(62, 1023, 6, 10);
    assert(0xfbff == 62 * pow2(10) + 1023);
    lemma_fields(0, 1, 6, 10);
    assert(0x0001 == 0 * pow2(10) + 1);
    lemma_fields(1, 0, 6, 10);
    assert(0x0400 == 1 * pow2(10) + 0);
    lemma_pow2_adds(10, 1064);
    assert(10 + 1064 == 1074);
    assert(units(0x0001, 6, 10, 31) == 1 * pow2(sub_shift(10, 31)));
}

/// Masks and shifts that read the fields of a Uf16E6M10 pattern.
proof fn lemma_e6m10_fields(x: u16)
    ensures
        ((x & 0xfc00) >> 10u32) == (x / 1024) % 64,
        (x & 0x03ff) == x % 1024,
{
    assert(((x & 0xfc00) >> 10u32) == (x / 1024) % 64 && (x & 0x03ff) == x % 1024) by (bit_vector);
}


} // verus!
