//! Field-by-field conversion of 8-bit patterns to IEEE binary16, used when binary16
//! arithmetic is available.
use vstd::prelude::*;
use vstd::arithmetic::power2::{pow2, lemma2_to64, lemma_pow2_adds, lemma_pow2_pos, lemma_pow2_strictly_increases, lemma_pow2_unfold};
use vstd::arithmetic::mul::lemma_mul_is_associative;
use crate::model::{units, exp_field, man_field, sub_shift, is_nan_bits, is_inf_bits, is_finite_bits, lemma_log2_bounds, lemma_fields, lemma_rebias_subnormal};
use crate::dispatch::{UF8_EXP_BITS, UF8_MANTISSA_BITS, UF8_BIAS, UF8_E5M3_EXP_BITS, UF8_E5M3_MANTISSA_BITS, UF8_E5M3_BIAS};

verus! {

/// A layout read from an 8-bit pattern whose every number is a binary16 number: an
/// exponent field of one to eight bits above a mantissa field of at most seven (bits
/// above both fields are ignored), a subnormal step no finer than binary16's
/// (`bias + mb <= 25`), and a largest finite exponent within binary16's
/// (`2^eb <= bias + 17`).
pub open spec fn byte_layout(eb: nat, mb: nat, bias: int) -> bool {
    &&& 1 <= eb <= 8
    &&& mb <= 7
    &&& bias + mb <= 25
    &&& pow2(eb) <= bias + 17
}

/// The binary16 bits of an 8-bit pattern of the layout `(exp_bits, mantissa_bits,
/// bias)`, built field by field: infinity and NaN keep their class (a NaN's mantissa
/// moves to the top of binary16's), and every finite number keeps its value, as a
/// normal binary16 number or, below binary16's normal range, a subnormal one.
pub fn uf8_layout_to_f16(bits: u8, exp_bits: u32, mantissa_bits: u32, bias: i32) -> (r: u16)
    requires
        byte_layout(exp_bits as nat, mantissa_bits as nat, bias as int),
    ensures
        is_inf_bits(bits as nat, exp_bits as nat, mantissa_bits as nat) ==> r == 0x7c00,
        is_nan_bits(bits as nat, exp_bits as nat, mantissa_bits as nat) ==> r == 0x7c00
            + man_field(bits as nat, mantissa_bits as nat) * pow2((10 - mantissa_bits) as nat)
            && is_nan_bits(r as nat, 5, 10),
        is_finite_bits(bits as nat, exp_bits as nat, mantissa_bits as nat) ==> r < 0x7c00
            && units(r as nat, 5, 10, 15) == units(bits as nat, exp_bits as nat, mantissa_bits as nat, bias as int),
{
    let ghost eb = exp_bits as nat;
    let ghost mb = mantissa_bits as nat;
    proof {
        lemma2_to64();
        crate::bitfacts::lemma_u64_one_shl(exp_bits);
        crate::bitfacts::lemma_u64_one_shl(mantissa_bits);
        lemma_pow2_adds(eb, mb);
        lemma_pow2_pos(eb);
        lemma_pow2_pos(mb);
        assert((1u16 << exp_bits) == pow2(eb) && (1u16 << mantissa_bits) == pow2(mb)) by {
            assert((1u16 << exp_bits) as u64 == (1u64 << exp_bits) && (1u16 << mantissa_bits) as u64 == (1u64 << mantissa_bits)) by (bit_vector)
                requires
                    exp_bits <= 8,
                    mantissa_bits < 8,
            ;
        }
        if eb < 8 {
            lemma_pow2_strictly_increases(eb, 8);
        }
        if mb < 8 {
            lemma_pow2_strictly_increases(mb, 8);
        }
    }
    let exp_mask = ((1u16 << exp_bits) - 1) as u8;
    let mantissa_mask = ((1u16 << mantissa_bits) - 1) as u8;
    let exp = (bits >> mantissa_bits) & exp_mask;
    let mantissa = bits & mantissa_mask;
    proof {
        crate::bitfacts::lemma_u64_shr(bits as u64, mantissa_bits);
        crate::bitfacts::lemma_u64_mask((bits as u64) >> mantissa_bits, exp_bits);
        crate::bitfacts::lemma_u64_mask(bits as u64, mantissa_bits);
        assert(exp as u64 == (((bits as u64) >> mantissa_bits) & (((1u64 << exp_bits) - 1) as u64))
            && mantissa as u64 == ((bits as u64) & (((1u64 << mantissa_bits) - 1) as u64))) by (bit_vector)
            requires
                exp == (bits >> mantissa_bits) & exp_mask,
                mantissa == bits & mantissa_mask,
                exp_mask as u64 == ((1u64 << exp_bits) - 1) as u64,
                mantissa_mask as u64 == ((1u64 << mantissa_bits) - 1) as u64,
                exp_bits <= 8,
                mantissa_bits < 8,
        ;
        assert(exp == exp_field(bits as nat, eb, mb));
        assert(mantissa == man_field(bits as nat, mb));
        if bits == 0 {
            vstd::arithmetic::div_mod::lemma_div_of0(pow2(mb) as int);
            vstd::arithmetic::div_mod::lemma_small_mod(0, pow2(eb));
            vstd::arithmetic::div_mod::lemma_small_mod(0, pow2(mb));
        }
        vstd::arithmetic::div_mod::lemma_mod_pos_bound(bits as int, pow2(mb) as int);
        lemma_pow2_adds(mb, (10 - mb) as nat);
        lemma_pow2_pos((10 - mb) as nat);
        vstd::arithmetic::mul::lemma_mul_strict_inequality(mantissa as int, pow2(mb) as int, pow2((10 - mb) as nat) as int);
        crate::bitfacts::lemma_u64_shl(mantissa as u64, (10 - mantissa_bits) as u32);
    }

    if exp == exp_mask {
        let fp16_mantissa = if mantissa == 0 {
            0
        } else {
            proof {
                assert(((mantissa as u16) << ((10 - mantissa_bits) as u32)) as u64 == (mantissa as u64) << ((10 - mantissa_bits) as u32)) by (bit_vector)
                    requires
                        (mantissa as u64) < (1u64 << mantissa_bits),
                        mantissa_bits <= 7,
                ;
            }
            (mantissa as u16) << (10 - mantissa_bits)
        };
        proof {
            assert((0x1fu16 << 10u32) | fp16_mantissa == 0x7c00 + fp16_mantissa) by (bit_vector)
                requires
                    fp16_mantissa < 0x400,
            ;
            lemma_fields(31, fp16_mantissa as nat, 5, 10);
            lemma_pow2_adds(5, 10);
            if mantissa != 0 {
                assert(fp16_mantissa != 0) by (nonlinear_arith)
                    requires
                        fp16_mantissa == mantissa * pow2((10 - mb) as nat),
                        mantissa > 0,
                        pow2((10 - mb) as nat) > 0,
                ;
            }
        }
        return (0x1f << 10) | fp16_mantissa;
    }

    if exp == 0 && mantissa == 0 {
        proof {
            lemma_fields(0, 0, 5, 10);
            assert(0 * pow2(10) + 0 == 0);
            crate::model::lemma_units_binade(0, 5, 10, 15);
            crate::model::lemma_units_binade(bits as nat, eb, mb, bias as int);
        }
        return 0;
    }

    // The value is `sig * 2^(scale - bias - mb)`, the significand `sig` with its
    // leading bit at `2^top`.
    let sig: u64 = if exp == 0 { mantissa as u64 } else { (mantissa as u64) + (1u64 << mantissa_bits) };
    let scale: i32 = if exp == 0 { 1 } else { exp as i32 };
    let ghost lbias: int = bias - scale + 1;
    proof {
        crate::bitfacts::lemma_u64_one_shl(mantissa_bits);
        lemma_pow2_unfold(mb + 1);
        assert(units(bits as nat, eb, mb, bias as int) == sig * pow2(sub_shift(mb, lbias))) by {
            assert(sub_shift(mb, lbias) == (scale - 1 + sub_shift(mb, bias as int)) as nat);
        }
        assert(1 <= sig < pow2(mb + 1));
        vstd::arithmetic::div_mod::lemma_mod_pos_bound((bits as nat / pow2(mb)) as int, pow2(eb) as int);
        assert(exp_mask == pow2(eb) - 1);
        assert(exp != 0 ==> scale + 2 <= pow2(eb));
        assert(exp == 0 ==> sig < pow2(mb));
    }
    let top = crate::codec::floor_log2(sig);
    proof {
        lemma_log2_bounds(sig as nat);
        if top as nat > mb {
            lemma_pow2_strictly_increases(mb + 1, top as nat);
        }
    }
    let fp16_exp = top as i32 + scale - bias - mantissa_bits as i32 + 15;

    if fp16_exp <= 0 {
        // Below binary16's normal range: a subnormal binary16 number, whose step is
        // `2^-24`.
        let shift = (scale - bias - mantissa_bits as i32 + 24) as u32;
        proof {
            lemma_pow2_adds(top as nat + 1, shift as nat);
            if top as nat + 1 + shift < 10 {
                lemma_pow2_strictly_increases(top as nat + 1 + shift as nat, 10);
            }
            lemma_pow2_pos(shift as nat);
            assert(sig * pow2(shift as nat) < 1024) by (nonlinear_arith)
                requires
                    sig < pow2(top as nat + 1),
                    pow2(top as nat + 1 + shift as nat) == pow2(top as nat + 1) * pow2(shift as nat),
                    pow2(top as nat + 1 + shift as nat) <= 1024,
                    pow2(shift as nat) > 0,
            ;
            crate::bitfacts::lemma_u64_shl(sig, shift);
            let v: nat = (sig * pow2(shift as nat)) as nat;
            lemma_fields(0, v, 5, 10);
            lemma_pow2_adds(shift as nat, 1050);
            lemma_mul_is_associative(sig as int, pow2(shift as nat) as int, pow2(1050) as int);
            assert(units(v, 5, 10, 15) == v * pow2(1050));
            assert(shift + 1050 == sub_shift(mb, lbias));
        }
        return (sig << shift) as u16;
    }

    proof {
        crate::bitfacts::lemma_u64_one_shl(top);
    }
    let frac = (sig - (1u64 << top)) << (10 - top);
    proof {
        lemma_pow2_adds(top as nat, (10 - top) as nat);
        lemma_pow2_pos((10 - top) as nat);
        lemma_pow2_unfold(top as nat + 1);
        vstd::arithmetic::mul::lemma_mul_strict_inequality((sig - pow2(top as nat)) as int, pow2(top as nat) as int, pow2((10 - top) as nat) as int);
        crate::bitfacts::lemma_u64_shl((sig - pow2(top as nat)) as u64, (10 - top) as u32);
        assert(fp16_exp <= 30);
        lemma_rebias_subnormal(sig as nat, top as nat, mb, lbias, 10, 15, fp16_exp as nat, frac as nat);
        crate::bitfacts::lemma_u64_compose(fp16_exp as u64, frac, 10);
        lemma_fields(fp16_exp as nat, frac as nat, 5, 10);
    }
    ((fp16_exp as u64) << 10u32 | frac) as u16
}

/// The binary16 bits of an E4M4 pattern; every E4M4 value is a binary16 number.
pub fn uf8_to_f16(bits: u8) -> (r: u16)
    ensures
        is_inf_bits(bits as nat, 4, 4) ==> r == 0x7c00,
        is_nan_bits(bits as nat, 4, 4) ==> is_nan_bits(r as nat, 5, 10) && r == 0x7c00 + man_field(bits as nat, 4) * 64,
        is_finite_bits(bits as nat, 4, 4) ==> r < 0x7c00 && units(r as nat, 5, 10, 15) == units(bits as nat, 4, 4, 7),
{
    proof {
        lemma2_to64();
    }
    uf8_layout_to_f16(bits, UF8_EXP_BITS, UF8_MANTISSA_BITS, UF8_BIAS)
}

/// The binary16 bits of an E5M3 pattern; every E5M3 value is a binary16 number, its
/// subnormals binary16 subnormals.
pub fn uf8_e5m3_to_f16(bits: u8) -> (r: u16)
    ensures
        is_inf_bits(bits as nat, 5, 3) ==> r == 0x7c00,
        is_nan_bits(bits as nat, 5, 3) ==> is_nan_bits(r as nat, 5, 10) && r == 0x7c00 + man_field(bits as nat, 3) * 128,
        is_finite_bits(bits as nat, 5, 3) ==> r < 0x7c00 && units(r as nat, 5, 10, 15) == units(bits as nat, 5, 3, 15),
{
    proof {
        lemma2_to64();
    }
    uf8_layout_to_f16(bits, UF8_E5M3_EXP_BITS, UF8_E5M3_MANTISSA_BITS, UF8_E5M3_BIAS)
}

} // verus!
