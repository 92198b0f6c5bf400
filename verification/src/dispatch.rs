//! Conversions between each layout and the native float formats it promotes to.
//!
//! Native floats appear here as their IEEE bit patterns.
use vstd::prelude::*;
use vstd::arithmetic::power2::{lemma2_to64, lemma2_to64_rest, lemma_pow2_adds};
use crate::model::{decode_f64, encode_f64, encode_float, narrow_f64, units, lemma_layouts, lemma_fields, lemma_rebias_normal, lemma_encode_units_roundtrip, lemma_encode_float_in_width};
use crate::laws::lemma_narrow_decoded_exact;
use crate::codec::{decode_to_f64, encode_from_f64};
use crate::widths::{f32_to_f64, f64_to_f32, lemma_widen_then_encode};

verus! {

pub const UF8_EXP_BITS: u32 = 4;
pub const UF8_MANTISSA_BITS: u32 = 4;
pub const UF8_BIAS: i32 = 7;

pub const UF8_E5M3_EXP_BITS: u32 = 5;
pub const UF8_E5M3_MANTISSA_BITS: u32 = 3;
pub const UF8_E5M3_BIAS: i32 = 15;

pub const UF16_EXP_BITS: u32 = 5;
pub const UF16_MANTISSA_BITS: u32 = 11;
pub const UF16_BIAS: i32 = 15;

pub const UF16_E6M10_EXP_BITS: u32 = 6;
pub const UF16_E6M10_MANTISSA_BITS: u32 = 10;
pub const UF16_E6M10_BIAS: i32 = 31;

pub const UF32_EXP_BITS: u32 = 8;
pub const UF32_MANTISSA_BITS: u32 = 24;
pub const UF32_BIAS: i32 = 127;

/// The binary32 bits of an E4M4 pattern's value.
pub fn uf8_to_f32(bits: u8) -> (r: u32)
    ensures
        r == narrow_f64(decode_f64(bits as nat, 4, 4, 7), 8, 23, 127),
{
    proof {
        lemma_layouts();
    }
    f64_to_f32(decode_to_f64(bits as u64, UF8_EXP_BITS, UF8_MANTISSA_BITS, UF8_BIAS))
}

/// The E4M4 pattern of a binary32 value.
pub fn f32_to_uf8(value: u32) -> (r: u8)
    ensures
        r == encode_float(value as nat, 8, 23, 127, 4, 4, 7),
{
    proof {
        lemma_layouts();
        lemma2_to64();
        lemma_widen_then_encode(value as nat, 8, 23, 127, 4, 4, 7);
        lemma_encode_float_in_width(value as nat, 8, 23, 127, 4, 4, 7);
    }
    encode_from_f64(f32_to_f64(value), UF8_EXP_BITS, UF8_MANTISSA_BITS, UF8_BIAS) as u8
}

/// The binary32 bits of an E5M3 pattern's value.
pub fn uf8_e5m3_to_f32(bits: u8) -> (r: u32)
    ensures
        r == narrow_f64(decode_f64(bits as nat, 5, 3, 15), 8, 23, 127),
{
    proof {
        lemma_layouts();
    }
    f64_to_f32(decode_to_f64(bits as u64, UF8_E5M3_EXP_BITS, UF8_E5M3_MANTISSA_BITS, UF8_E5M3_BIAS))
}

/// The E5M3 pattern of a binary32 value.
pub fn f32_to_uf8_e5m3(value: u32) -> (r: u8)
    ensures
        r == encode_float(value as nat, 8, 23, 127, 5, 3, 15),
{
    proof {
        lemma_layouts();
        lemma2_to64();
        lemma_widen_then_encode(value as nat, 8, 23, 127, 5, 3, 15);
        lemma_encode_float_in_width(value as nat, 8, 23, 127, 5, 3, 15);
    }
    encode_from_f64(f32_to_f64(value), UF8_E5M3_EXP_BITS, UF8_E5M3_MANTISSA_BITS, UF8_E5M3_BIAS) as u8
}

/// The binary32 bits of an E5M11 pattern's value; normal numbers are rebuilt field by
/// field, the rest go through binary64.
pub fn uf16_to_f32(bits: u16) -> (r: u32)
    ensures
        r == narrow_f64(decode_f64(bits as nat, 5, 11, 15), 8, 23, 127),
{
    proof {
        lemma_layouts();
        lemma2_to64();
        assert((1u16 << 5u32) == 32u16 && (1u16 << 11u32) == 2048u16) by (bit_vector);
    }
    let exp = (bits >> UF16_MANTISSA_BITS) & ((1 << UF16_EXP_BITS) - 1);
    let mantissa = bits & ((1 << UF16_MANTISSA_BITS) - 1);
    proof {
        assert(exp == (bits / 2048) % 32 && mantissa == bits % 2048) by (bit_vector)
            requires
                exp == (bits >> 11u32) & 31,
                mantissa == bits & 2047,
        ;
    }

    if exp == 0 || exp == ((1 << UF16_EXP_BITS) - 1) {
        return f64_to_f32(decode_to_f64(bits as u64, UF16_EXP_BITS, UF16_MANTISSA_BITS, UF16_BIAS));
    }

    let f32_exp = (exp as i32 - UF16_BIAS + 127) as u32;
    let f32_mantissa = (mantissa as u32) << (23 - UF16_MANTISSA_BITS);
    proof {
        assert(f32_mantissa == mantissa * 4096 && ((f32_exp << 23u32) | f32_mantissa) == f32_exp * 0x80_0000 + f32_mantissa) by (bit_vector)
            requires
                f32_mantissa == (mantissa as u32) << 12u32,
                mantissa < 2048,
                f32_exp < 256,
        ;
        lemma_pow2_adds(11, 12);
        lemma_rebias_normal(exp as nat, mantissa as nat, 11, 15, 23, 127);
        lemma_fields(f32_exp as nat, f32_mantissa as nat, 8, 23);
        lemma_pow2_adds(8, 23);
        let t = f32_exp * 0x80_0000 + f32_mantissa;
        assert(units(t as nat, 8, 23, 127) == units(bits as nat, 5, 11, 15));
        lemma_narrow_decoded_exact(bits as nat, 5, 11, 15, t as nat, 8, 23, 127);
    }
    (f32_exp << 23u32) | f32_mantissa
}

/// The E5M11 pattern of a binary32 value.
pub fn f32_to_uf16(value: u32) -> (r: u16)
    ensures
        r == encode_float(value as nat, 8, 23, 127, 5, 11, 15),
{
    proof {
        lemma_layouts();
        lemma2_to64();
        lemma_widen_then_encode(value as nat, 8, 23, 127, 5, 11, 15);
        lemma_encode_float_in_width(value as nat, 8, 23, 127, 5, 11, 15);
    }
    encode_from_f64(f32_to_f64(value), UF16_EXP_BITS, UF16_MANTISSA_BITS, UF16_BIAS) as u16
}

/// The binary32 bits of an E6M10 pattern's value.
pub fn uf16_e6m10_to_f32(bits: u16) -> (r: u32)
    ensures
        r == narrow_f64(decode_f64(bits as nat, 6, 10, 31), 8, 23, 127),
{
    proof {
        lemma_layouts();
    }
    f64_to_f32(decode_to_f64(bits as u64, UF16_E6M10_EXP_BITS, UF16_E6M10_MANTISSA_BITS, UF16_E6M10_BIAS))
}

/// The E6M10 pattern of a binary32 value.
pub fn f32_to_uf16_e6m10(value: u32) -> (r: u16)
    ensures
        r == encode_float(value as nat, 8, 23, 127, 6, 10, 31),
{
    proof {
        lemma_layouts();
        lemma2_to64();
        lemma_widen_then_encode(value as nat, 8, 23, 127, 6, 10, 31);
        lemma_encode_float_in_width(value as nat, 8, 23, 127, 6, 10, 31);
    }
    encode_from_f64(f32_to_f64(value), UF16_E6M10_EXP_BITS, UF16_E6M10_MANTISSA_BITS, UF16_E6M10_BIAS) as u16
}

/// The binary64 bits of an E8M24 pattern's value; normal numbers are rebuilt field by
/// field, the rest go through the general decoder.
pub fn uf32_to_f64(bits: u32) -> (r: u64)
    ensures
        r == decode_f64(bits as nat, 8, 24, 127),
{
    proof {
        lemma_layouts();
        lemma2_to64();
        lemma2_to64_rest();
        assert((1u32 << 8u32) == 256u32 && (1u32 << 24u32) == 0x100_0000u32) by (bit_vector);
    }
    let exp = (bits >> UF32_MANTISSA_BITS) & ((1 << UF32_EXP_BITS) - 1);
    let mantissa = bits & ((1 << UF32_MANTISSA_BITS) - 1);
    proof {
        assert(exp == (bits / 0x100_0000) % 256 && mantissa == bits % 0x100_0000) by (bit_vector)
            requires
                exp == (bits >> 24u32) & 255,
                mantissa == bits & 0xff_ffff,
        ;
    }

    if exp == 0 || exp == ((1 << UF32_EXP_BITS) - 1) {
        return decode_to_f64(bits as u64, UF32_EXP_BITS, UF32_MANTISSA_BITS, UF32_BIAS);
    }

    let f64_exp = (exp as i32 - UF32_BIAS + 1023) as u64;
    let f64_mantissa = (mantissa as u64) << (52 - UF32_MANTISSA_BITS);
    proof {
        assert(f64_mantissa == mantissa * 0x1000_0000 && ((f64_exp << 52u32) | f64_mantissa) == f64_exp * 0x10_0000_0000_0000 + f64_mantissa) by (bit_vector)
            requires
                f64_mantissa == (mantissa as u64) << 28u32,
                mantissa < 0x100_0000,
                f64_exp < 2048,
        ;
        lemma_pow2_adds(24, 28);
        lemma_rebias_normal(exp as nat, mantissa as nat, 24, 127, 52, 1023);
        lemma_fields(f64_exp as nat, f64_mantissa as nat, 11, 52);
        lemma_pow2_adds(11, 52);
        let t = f64_exp * 0x10_0000_0000_0000 + f64_mantissa;
        assert(units(t as nat, 11, 52, 1023) == units(bits as nat, 8, 24, 127));
        lemma_encode_units_roundtrip(t as nat, 11, 52, 1023);
    }
    (f64_exp << 52u32) | f64_mantissa
}

/// The E8M24 pattern of a binary64 value.
pub fn f64_to_uf32(value: u64) -> (r: u32)
    ensures
        r == encode_f64(value as nat, 8, 24, 127),
{
    proof {
        lemma_layouts();
        lemma2_to64();
        lemma_encode_float_in_width(value as nat, 11, 52, 1023, 8, 24, 127);
    }
    encode_from_f64(value, UF32_EXP_BITS, UF32_MANTISSA_BITS, UF32_BIAS) as u32
}

/// The index of an operand pair in a 256 x 256 table of results.
pub fn table_index(a: u8, b: u8) -> (r: usize)
    ensures
        r == a * 256 + b,
        r < 65536,
{
    proof {
        assert((((a as usize) << 8u32) | (b as usize)) == (a as usize) * 256 + (b as usize)) by (bit_vector);
    }
    ((a as usize) << 8u32) | b as usize
}

} // verus!
