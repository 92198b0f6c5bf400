//! Conversions between the bit patterns of IEEE binary16, binary32 and binary64,
//! as the float casts `as f64`, `as f32` and `as f16` perform them.
use vstd::prelude::*;
use vstd::arithmetic::power2::{pow2, lemma2_to64, lemma2_to64_rest, lemma_pow2_adds, lemma_pow2_pos};
use crate::model::{decode_f64, encode_f64, encode_float, widen_f64, narrow_f64, sign_bit, is_finite_bits, decodable, encodable, lemma_signed_fields, lemma_encode_float_in_width, lemma_layouts, lemma_units_binade, lemma_split};
use crate::laws::lemma_decode_f64_exact;
use crate::codec::{decode_to_f64, encode_from_f64};
use crate::bitfacts::lemma_u64_mask;

verus! {

/// Sign bits and widths of the three IEEE formats.
proof fn lemma_width_constants()
    ensures
        pow2(15) == 0x8000,
        pow2(31) == 0x8000_0000,
        pow2(63) == 0x8000_0000_0000_0000,
        pow2(5 + 10) == 0x8000,
        pow2(8 + 23) == 0x8000_0000,
        pow2(11 + 52) == 0x8000_0000_0000_0000,
        pow2(52) == 0x10_0000_0000_0000,
{
    lemma2_to64();
    lemma2_to64_rest();
}

/// The binary64 pattern of any decoded value has a clear sign bit.
proof fn lemma_decoded_below_sign(x: nat, seb: nat, smb: nat, sbias: int)
    requires
        decodable(seb, smb, sbias),
    ensures
        decode_f64(x, seb, smb, sbias) < 0x8000_0000_0000_0000,
{
    if is_finite_bits(x, seb, smb) {
        lemma_decode_f64_exact(x, seb, smb, sbias);
    }
}

/// Widens binary32 bits to the binary64 bits of the same number.
pub fn f32_to_f64(bits: u32) -> (r: u64)
    ensures
        r == widen_f64(bits as nat, 8, 23, 127),
{
    proof {
        lemma_width_constants();
        lemma_layouts();
        lemma_decoded_below_sign(bits as nat, 8, 23, 127);
    }
    let magnitude = decode_to_f64(bits as u64, 8, 23, 127);
    let sign = (bits >> 31u32) as u64;
    proof {
        assert(sign == bits / 0x8000_0000 && ((sign << 63u32) | magnitude) == sign * 0x8000_0000_0000_0000 + magnitude) by (bit_vector)
            requires
                sign == (bits >> 31u32) as u64,
                magnitude < 0x8000_0000_0000_0000,
        ;
    }
    (sign << 63u32) | magnitude
}

/// Widens binary16 bits to the binary64 bits of the same number.
pub fn f16_to_f64(bits: u16) -> (r: u64)
    ensures
        r == widen_f64(bits as nat, 5, 10, 15),
{
    proof {
        lemma_width_constants();
        lemma_layouts();
        lemma_decoded_below_sign(bits as nat, 5, 10, 15);
    }
    let magnitude = decode_to_f64(bits as u64, 5, 10, 15);
    let sign = (bits >> 15u32) as u64;
    proof {
        assert(sign == bits / 0x8000 && ((sign << 63u32) | magnitude) == sign * 0x8000_0000_0000_0000 + magnitude) by (bit_vector)
            requires
                sign == (bits >> 15u32) as u64,
                magnitude < 0x8000_0000_0000_0000,
        ;
    }
    (sign << 63u32) | magnitude
}

/// Narrows binary64 bits to binary32 bits: same sign, magnitude rounded to nearest
/// with ties to even.
pub fn f64_to_f32(bits: u64) -> (r: u32)
    ensures
        r == narrow_f64(bits as nat, 8, 23, 127),
{
    proof {
        lemma_width_constants();
        lemma_layouts();
        lemma_u64_mask(bits, 63);
        lemma_encode_float_in_width((bits & 0x7fff_ffff_ffff_ffff) as nat, 11, 52, 1023, 8, 23, 127);
    }
    let magnitude = encode_from_f64(bits & 0x7fff_ffff_ffff_ffff, 8, 23, 127) as u32;
    let sign = (bits >> 63u32) as u32;
    proof {
        assert((((1u64 << 63u32) - 1) as u64) == 0x7fff_ffff_ffff_ffffu64 && sign == bits / 0x8000_0000_0000_0000
            && ((sign << 31u32) | magnitude) == sign * 0x8000_0000 + magnitude) by (bit_vector)
            requires
                sign == (bits >> 63u32) as u32,
                magnitude < 0x8000_0000,
        ;
    }
    (sign << 31u32) | magnitude
}

/// Narrows binary64 bits to binary16 bits: same sign, magnitude rounded to nearest
/// with ties to even.
pub fn f64_to_f16(bits: u64) -> (r: u16)
    ensures
        r == narrow_f64(bits as nat, 5, 10, 15),
{
    proof {
        lemma_width_constants();
        lemma_layouts();
        lemma_u64_mask(bits, 63);
        lemma_encode_float_in_width((bits & 0x7fff_ffff_ffff_ffff) as nat, 11, 52, 1023, 5, 10, 15);
    }
    let magnitude = encode_from_f64(bits & 0x7fff_ffff_ffff_ffff, 5, 10, 15) as u16;
    let sign = (bits >> 63u32) as u16;
    proof {
        assert((((1u64 << 63u32) - 1) as u64) == 0x7fff_ffff_ffff_ffffu64 && sign == bits / 0x8000_0000_0000_0000
            && ((sign << 15u32) | magnitude) == sign * 0x8000 + magnitude) by (bit_vector)
            requires
                sign == (bits >> 63u32) as u16,
                magnitude < 0x8000,
        ;
    }
    (sign << 15u32) | magnitude
}

/// Widening is exact: encoding the widened binary64 value gives what encoding the
/// narrower value itself gives.
pub proof fn lemma_widen_then_encode(x: nat, seb: nat, smb: nat, sbias: int, eb: nat, mb: nat, bias: int)
    requires
        decodable(seb, smb, sbias),
        x < 2 * pow2(seb + smb),
        encodable(eb, mb, bias),
    ensures
        encode_f64(widen_f64(x, seb, smb, sbias), eb, mb, bias) == encode_float(x, seb, smb, sbias, eb, mb, bias),
{
    lemma_width_constants();
    let sgn = sign_bit(x, seb, smb);
    lemma_pow2_pos(seb + smb);
    assert(sgn <= 1) by {
        vstd::arithmetic::div_mod::lemma_div_is_ordered(x as int, (2 * pow2(seb + smb) - 1) as int, pow2(seb + smb) as int);
        vstd::arithmetic::div_mod::lemma_fundamental_div_mod_converse((2 * pow2(seb + smb) - 1) as int, pow2(seb + smb) as int, 1, (pow2(seb + smb) - 1) as int);
    }
    let y = decode_f64(x, seb, smb, sbias);
    lemma_decoded_below_sign(x, seb, smb, sbias);
    lemma_signed_fields(sgn, y, 11, 52, 1023);
    lemma_split(y, 11, 52);
    lemma_units_binade(x, seb, smb, sbias);
    if is_finite_bits(x, seb, smb) {
        lemma_decode_f64_exact(x, seb, smb, sbias);
        lemma_units_binade(y, 11, 52, 1023);
    } else {
        lemma2_to64();
        crate::model::lemma_fields(2047, 0, 11, 52);
        vstd::arithmetic::power2::lemma_pow2_strictly_increases(51, 52);
        crate::model::lemma_fields(2047, pow2(51), 11, 52);
        lemma_pow2_adds(51, 1);
    }
}

} // verus!
