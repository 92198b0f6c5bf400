use unsigned_float::codec::{decode_to_f64, encode_from_f64, floor_log2, quiet_nan_payload, round_shift};
use unsigned_float::dispatch::table_index;
use unsigned_float::fp16::{uf8_e5m3_to_f16, uf8_layout_to_f16, uf8_to_f16};
use unsigned_float::integers::{floor_log2_u128, u128_to_f64};
use unsigned_float::widths::{f16_to_f64, f32_to_f64, f64_to_f16, f64_to_f32};
use unsigned_float::{ConversionError, Uf16, Uf32, Uf8, Uf8E5M3};

#[test]
fn round_shift_rounds_half_to_even() {
    assert_eq!(round_shift(5, -1), 2);
    assert_eq!(round_shift(7, -1), 4);
    assert_eq!(round_shift(6, -2), 2);
    assert_eq!(round_shift(10, -2), 2);
    assert_eq!(round_shift(11, -2), 3);
    assert_eq!(round_shift(3, 4), 48);
    assert_eq!(round_shift(3, 128), u128::MAX);
    assert_eq!(round_shift(u128::MAX, -128), 0);
    assert_eq!(round_shift(u128::MAX, -127), 2);
}

#[test]
fn small_helpers() {
    assert_eq!(floor_log2(1), 0);
    assert_eq!(floor_log2(0x8000_0000_0000_0000), 63);
    assert_eq!(floor_log2(1000), 9);
    assert_eq!(floor_log2_u128(1 << 100), 100);
    assert_eq!(floor_log2_u128(u128::MAX), 127);
    assert_eq!(quiet_nan_payload(0), 0);
    assert_eq!(quiet_nan_payload(4), 8);
    assert_eq!(table_index(0x12, 0x34), 0x1234);
    assert_eq!(table_index(255, 255), 65535);
}

#[test]
fn decode_gives_the_value_in_binary64() {
    assert_eq!(f64::from_bits(decode_to_f64(0x70, 4, 4, 7)), 1.0);
    assert_eq!(f64::from_bits(decode_to_f64(0x01, 4, 4, 7)), 2.0f64.powi(-10));
    assert_eq!(f64::from_bits(decode_to_f64(0x0f, 4, 4, 7)), 15.0 * 2.0f64.powi(-10));
    assert_eq!(f64::from_bits(decode_to_f64(0xef, 4, 4, 7)), 248.0);
    assert_eq!(decode_to_f64(0xf0, 4, 4, 7), f64::INFINITY.to_bits());
    assert!(f64::from_bits(decode_to_f64(0xf1, 4, 4, 7)).is_nan());
    assert_eq!(decode_to_f64(0, 8, 24, 127), 0);
}

#[test]
fn encode_rounds_saturates_and_rejects_negatives() {
    assert_eq!(encode_from_f64(248.0f64.to_bits(), 4, 4, 7), 0xef);
    assert_eq!(encode_from_f64(250.0f64.to_bits(), 4, 4, 7), 0xef);
    assert_eq!(encode_from_f64(252.0f64.to_bits(), 4, 4, 7), 0xf0);
    assert_eq!(encode_from_f64(1.0e300f64.to_bits(), 4, 4, 7), 0xf0);
    assert_eq!(encode_from_f64((-0.0f64).to_bits(), 4, 4, 7), 0);
    assert_eq!(encode_from_f64((-1.0e-300f64).to_bits(), 4, 4, 7), 0xf8);
    assert_eq!(encode_from_f64(f64::NEG_INFINITY.to_bits(), 4, 4, 7), 0xf8);
    assert_eq!(encode_from_f64(2.0f64.powi(-11).to_bits(), 4, 4, 7), 0);
    assert_eq!(encode_from_f64((3.0 * 2.0f64.powi(-11)).to_bits(), 4, 4, 7), 2);
    assert_eq!(encode_from_f64((15.5 * 2.0f64.powi(-10)).to_bits(), 4, 4, 7), 0x10);
    assert_eq!(encode_from_f64(f64::from_bits(1).to_bits(), 11, 52, 1023), 1);
    assert_eq!(encode_from_f64(f64::MAX.to_bits(), 11, 52, 1023), f64::MAX.to_bits());
}

#[test]
fn float_width_conversions_match_the_casts() {
    let samples32 = [0.0f32, -0.0, 1.0, -2.5, f32::MIN_POSITIVE, f32::from_bits(1), f32::MAX, f32::INFINITY, f32::NEG_INFINITY, 3.1415927];
    for x in samples32 {
        assert_eq!(f32_to_f64(x.to_bits()), (x as f64).to_bits());
    }
    assert!(f64::from_bits(f32_to_f64(f32::NAN.to_bits())).is_nan());
    let samples64 = [0.0f64, -0.0, 1.0, -2.5, 1.0 + 2.0f64.powi(-24), 1.0 + 3.0 * 2.0f64.powi(-24), 1.0e-40, 1.0e-46, 1.0e39, -1.0e39, f64::MIN_POSITIVE, 0.1];
    for x in samples64 {
        assert_eq!(f64_to_f32(x.to_bits()), (x as f32).to_bits());
    }
    assert!(f32::from_bits(f64_to_f32(f64::NAN.to_bits())).is_nan());
    assert_eq!(f16_to_f64(0x3c00), 1.0f64.to_bits());
    assert_eq!(f16_to_f64(0x0001), 2.0f64.powi(-24).to_bits());
    assert_eq!(f16_to_f64(0xc000), (-2.0f64).to_bits());
    assert_eq!(f64_to_f16(1.0f64.to_bits()), 0x3c00);
    assert_eq!(f64_to_f16(65520.0f64.to_bits()), 0x7c00);
    assert_eq!(f64_to_f16(65504.0f64.to_bits()), 0x7bff);
    assert_eq!(f64_to_f16((-0.5f64).to_bits()), 0xb800);
    assert_eq!(f64_to_f16((1.0 + 2.0f64.powi(-11)).to_bits()), 0x3c00);
}

#[test]
fn integers_convert_like_the_cast() {
    for v in [0u128, 1, 2, 1 << 53, (1 << 53) + 1, (1 << 53) + 3, u64::MAX as u128, u128::MAX, 12345678901234567890123] {
        assert_eq!(u128_to_f64(v), (v as f64).to_bits());
    }
    assert_eq!(Uf16::try_from(42_u32), Ok(Uf16::from_f32_bits(42.0f32.to_bits())));
    assert_eq!(Uf16::try_from(-1_i32), Err(ConversionError::Negative));
    assert_eq!(Uf32::try_from(0_i64), Ok(Uf32::ZERO()));
    assert_eq!(Uf8::try_from(300_u16), Err(ConversionError::Overflow));
    assert_eq!(Uf8::try_from(240_usize), Ok(Uf8::from_bits(0xee)));
    assert_eq!(Uf8::try_from(248_isize), Ok(Uf8::MAX()));
}

#[test]
fn field_by_field_f16_matches_the_value() {
    for bits in u8::MIN..=u8::MAX {
        let x = Uf8::from_bits(bits);
        if x.is_nan() {
            assert!(f64::from_bits(f16_to_f64(uf8_to_f16(bits))).is_nan());
        } else {
            assert_eq!(uf8_to_f16(bits), x.to_f16_bits());
        }
        let y = Uf8E5M3::from_bits(bits);
        if y.is_finite() {
            assert_eq!(uf8_layout_to_f16(bits, 5, 3, 15), y.to_f16_bits());
        }
    }
}

#[test]
fn field_by_field_e5m3_to_f16() {
    assert_eq!(uf8_e5m3_to_f16(0x78), 0x3c00);
    assert_eq!(uf8_e5m3_to_f16(0x00), 0x0000);
    assert_eq!(uf8_e5m3_to_f16(0xf8), 0x7c00);
    assert_eq!(uf8_e5m3_to_f16(0xf9), 0x7c80);
    assert_eq!(uf8_e5m3_to_f16(0x08), 0x0400);
    assert_eq!(uf8_e5m3_to_f16(0xf7), 0x7b80);
    // Subnormals become binary16 subnormals (step 2^-24): 0x01 is 2^-17.
    assert_eq!(uf8_e5m3_to_f16(0x01), 0x0080);
    assert_eq!(uf8_e5m3_to_f16(0x02), 0x0100);
    assert_eq!(uf8_e5m3_to_f16(0x03), 0x0180);
    assert_eq!(uf8_e5m3_to_f16(0x04), 0x0200);
    assert_eq!(uf8_e5m3_to_f16(0x07), 0x0380);
    assert_eq!(uf8_to_f16(0xf3), 0x7cc0);
}

#[test]
fn error_messages() {
    assert_eq!(ConversionError::Negative.message(), "value is negative");
    assert_eq!(ConversionError::Nan.message(), "value is NaN");
    assert_eq!(ConversionError::Infinite.message(), "value is infinite");
    assert_eq!(ConversionError::Overflow.message(), "value is too large");
    assert_eq!(ConversionError::Underflow.message(), "positive value is too small");
}

#[test]
fn negative_zero_converts_without_underflow() {
    assert_eq!(Uf8::try_from_f64_bits((-0.0f64).to_bits()), Ok(Uf8::ZERO()));
    assert_eq!(Uf32::try_from_f64_bits(0.0f64.to_bits()), Ok(Uf32::ZERO()));
    assert_eq!(Uf16::try_from_f64_bits(f64::NEG_INFINITY.to_bits()), Err(ConversionError::Infinite));
    assert_eq!(Uf32::try_from_f64_bits((-f64::NAN).to_bits()), Err(ConversionError::Nan));
}

#[test]
fn one_exponent_bit_layout() {
    // Exponent field 0 holds the subnormals m / 4 (m below 8), field 1 infinity and NaN.
    assert_eq!(decode_to_f64(0b0011, 1, 3, 0), 0.75f64.to_bits());
    assert_eq!(decode_to_f64(0b0001, 1, 3, 0), 0.25f64.to_bits());
    assert_eq!(decode_to_f64(0, 1, 3, 0), 0);
    assert_eq!(decode_to_f64(0b1000, 1, 3, 0), 0x7ff0_0000_0000_0000);
    assert_eq!(decode_to_f64(0b1001, 1, 3, 0), 0x7ff8_0000_0000_0000);
    assert_eq!(encode_from_f64(0.75f64.to_bits(), 1, 3, 0), 0b0011);
    assert_eq!(encode_from_f64(0.8f64.to_bits(), 1, 3, 0), 0b0011);
    assert_eq!(encode_from_f64(0.875f64.to_bits(), 1, 3, 0), 0b0100);
    assert_eq!(encode_from_f64(1.0f64.to_bits(), 1, 3, 0), 0b0100);
    assert_eq!(encode_from_f64(1.75f64.to_bits(), 1, 3, 0), 0b0111);
    assert_eq!(decode_to_f64(0b0111, 1, 3, 0), 1.75f64.to_bits());
    // Half a step above the largest number ties to the even pattern: infinity.
    assert_eq!(encode_from_f64(1.875f64.to_bits(), 1, 3, 0), 0b1000);
    assert_eq!(encode_from_f64(1.87f64.to_bits(), 1, 3, 0), 0b0111);
    assert_eq!(encode_from_f64(2.0f64.to_bits(), 1, 3, 0), 0b1000);
    assert_eq!(encode_from_f64((-1.0f64).to_bits(), 1, 3, 0), 0b1100);
    assert_eq!(encode_from_f64(f64::NAN.to_bits(), 1, 3, 0), 0b1100);
}

#[test]
fn other_byte_layouts_to_binary16() {
    // Three exponent and three mantissa bits, bias 3: 0b011_100 is 1.5.
    assert_eq!(uf8_layout_to_f16(0b0001_1100, 3, 3, 3), 0x3e00);
    // Bits above the two fields are ignored.
    assert_eq!(uf8_layout_to_f16(0b1101_1100, 3, 3, 3), 0x3e00);
    // Exponent field 1 with bias 2 is 0.5; with bias 20 it is 2^-19, a binary16 subnormal.
    assert_eq!(uf8_layout_to_f16(0x10, 4, 4, 2), 0x3800);
    assert_eq!(uf8_layout_to_f16(0x10, 4, 4, 20), 0x0020);
    // A negative bias scales every value up: exponent field 1 with bias -1 is 4.0.
    assert_eq!(uf8_layout_to_f16(0x10, 3, 4, -1), 0x4400);
    // One exponent bit: field 1 is infinity.
    assert_eq!(uf8_layout_to_f16(0x80, 1, 7, 0), 0x7c00);
}
