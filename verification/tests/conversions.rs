use unsigned_float::{ConversionError, Uf16, Uf16E6M10, Uf32, Uf64, Uf8, Uf8E5M3};

fn f16_two() -> u16 {
    0x4000
}

#[test]
fn canonical_one_bits_match_the_layouts() {
    assert_eq!(Uf8::ONE().to_bits(), 0x70);
    assert_eq!(Uf8E5M3::ONE().to_bits(), 0x78);
    assert_eq!(Uf16::ONE().to_bits(), 0x7800);
    assert_eq!(Uf16E6M10::ONE().to_bits(), 0x7c00);
    assert_eq!(Uf32::ONE().to_bits(), 0x7f00_0000);
    assert_eq!(Uf64::ONE().to_bits(), 0x3ff0_0000_0000_0000);
}

#[test]
fn uf8_finite_values_round_trip_through_f32() {
    for bits in u8::MIN..=u8::MAX {
        let value = Uf8::from_bits(bits);

        if value.is_nan() {
            continue;
        }

        assert_eq!(Uf8::from_f32_bits(value.to_f32_bits()).to_bits(), bits);
    }
}

#[test]
fn uf8_e5m3_finite_values_round_trip_through_f32() {
    for bits in u8::MIN..=u8::MAX {
        let value = Uf8E5M3::from_bits(bits);

        if value.is_nan() {
            continue;
        }

        assert_eq!(Uf8E5M3::from_f32_bits(value.to_f32_bits()).to_bits(), bits);
    }
}

#[test]
fn conversions_handle_special_values() {
    assert!(Uf8::from_f32_bits(f32::NAN.to_bits()).is_nan());
    assert!(Uf8E5M3::from_f32_bits(f32::NAN.to_bits()).is_nan());
    assert!(Uf16::from_f32_bits(f32::NEG_INFINITY.to_bits()).is_nan());
    assert!(Uf16E6M10::from_f32_bits(f32::NEG_INFINITY.to_bits()).is_nan());
    assert!(Uf32::from_f64_bits((-1.0f64).to_bits()).is_nan());
    assert!(Uf64::from_f64_bits((-1.0f64).to_bits()).is_nan());

    assert!(Uf8::from_f32_bits(f32::INFINITY.to_bits()).is_infinite());
    assert!(Uf8E5M3::from_f32_bits(f32::INFINITY.to_bits()).is_infinite());
    assert!(Uf16::from_f32_bits(f32::INFINITY.to_bits()).is_infinite());
    assert!(Uf16E6M10::from_f32_bits(f32::INFINITY.to_bits()).is_infinite());
    assert!(Uf32::from_f64_bits(f64::INFINITY.to_bits()).is_infinite());
    assert!(Uf64::from_f64_bits(f64::INFINITY.to_bits()).is_infinite());
}

#[test]
fn try_from_f64_rejects_invalid_or_unrepresentable_values() {
    assert_eq!(Uf8::try_from_f64_bits((-1.0f64).to_bits()), Err(ConversionError::Negative));
    assert_eq!(Uf16::try_from_f64_bits(f64::NAN.to_bits()), Err(ConversionError::Nan));
    assert_eq!(Uf32::try_from_f64_bits(f64::INFINITY.to_bits()), Err(ConversionError::Infinite));

    assert_eq!(Uf8::try_from_f64_bits(1.0e20f64.to_bits()), Err(ConversionError::Overflow));
    assert_eq!(Uf16::try_from_f64_bits(1.0e20f64.to_bits()), Err(ConversionError::Overflow));
    assert_eq!(Uf8::try_from_f64_bits(1.0e-20f64.to_bits()), Err(ConversionError::Underflow));

    assert_eq!(Uf8::try_from_f64_bits(2.0f64.to_bits()), Ok(Uf8::from_f32_bits(2.0f32.to_bits())));
    assert_eq!(Uf8E5M3::try_from_f64_bits(2.0f64.to_bits()), Ok(Uf8E5M3::from_f32_bits(2.0f32.to_bits())));
    assert_eq!(Uf16::try_from_f64_bits(2.0f64.to_bits()), Ok(Uf16::from_f32_bits(2.0f32.to_bits())));
    assert_eq!(Uf16E6M10::try_from_f64_bits(2.0f64.to_bits()), Ok(Uf16E6M10::from_f32_bits(2.0f32.to_bits())));
    assert_eq!(Uf32::try_from_f64_bits(2.0f64.to_bits()), Ok(Uf32::from_f64_bits(2.0f64.to_bits())));
    assert_eq!(Uf64::try_from_f64_bits(2.0f64.to_bits()), Ok(Uf64::from_f64_bits(2.0f64.to_bits())));
}

#[test]
fn f16_conversions_are_available_when_enabled() {
    let native = f16_two();

    assert_eq!(Uf8::from_f16_bits(native).to_f16_bits(), native);
    assert_eq!(Uf8E5M3::from_f16_bits(native).to_f16_bits(), native);
    assert_eq!(Uf16::from_f16_bits(native).to_f16_bits(), native);
    assert_eq!(Uf16E6M10::from_f16_bits(native).to_f16_bits(), native);
    assert_eq!(Uf32::from_f16_bits(native).to_f16_bits(), native);
    assert_eq!(Uf64::from_f16_bits(native).to_f16_bits(), native);

    assert_eq!(Uf8::from_f16_bits(native), Uf8::from_f32_bits(2.0f32.to_bits()));
    assert_eq!(Uf8E5M3::from_f16_bits(native), Uf8E5M3::from_f32_bits(2.0f32.to_bits()));
    assert_eq!(Uf16::from_f16_bits(native), Uf16::from_f32_bits(2.0f32.to_bits()));
    assert_eq!(Uf16E6M10::from_f16_bits(native), Uf16E6M10::from_f32_bits(2.0f32.to_bits()));
    assert_eq!(Uf32::from_f16_bits(native), Uf32::from_f32_bits(2.0f32.to_bits()));
    assert_eq!(Uf64::from_f16_bits(native), Uf64::from_f32_bits(2.0f32.to_bits()));
}

#[test]
fn subnormal_values_decode_correctly() {
    assert_eq!(f32::from_bits(Uf8::MIN_POSITIVE().to_f32_bits()), 2.0_f32.powi(-10));
    assert_eq!(f32::from_bits(Uf8E5M3::MIN_POSITIVE().to_f32_bits()), 2.0_f32.powi(-17));
    assert_eq!(f32::from_bits(Uf16::MIN_POSITIVE().to_f32_bits()), 2.0_f32.powi(-25));
    assert_eq!(f32::from_bits(Uf16E6M10::MIN_POSITIVE().to_f32_bits()), 2.0_f32.powi(-40));
    assert_eq!(f64::from_bits(Uf32::MIN_POSITIVE().to_f64_bits()), 2.0_f64.powi(-150));
    assert_eq!(
        f64::from_bits(Uf64::MIN_POSITIVE().to_f64_bits()),
        f64::MIN_POSITIVE / 2.0_f64.powi(52)
    );
}

#[test]
fn arithmetic_promotes_computes_and_demotes() {
    let one = Uf8::from_f32_bits(1.0f32.to_bits());
    assert_eq!(f32::from_bits((one + one).to_f32_bits()), 2.0);
    let one = Uf8E5M3::from_f32_bits(1.0f32.to_bits());
    assert_eq!(f32::from_bits((one + one).to_f32_bits()), 2.0);
    let (three, half) = (Uf16::from_f32_bits(3.0f32.to_bits()), Uf16::from_f32_bits(0.5f32.to_bits()));
    assert_eq!(f32::from_bits((three * half).to_f32_bits()), 1.5);
    let (three, half) = (Uf16E6M10::from_f32_bits(3.0f32.to_bits()), Uf16E6M10::from_f32_bits(0.5f32.to_bits()));
    assert_eq!(f32::from_bits((three * half).to_f32_bits()), 1.5);
    let (nine, three) = (Uf32::from_f64_bits(9.0f64.to_bits()), Uf32::from_f64_bits(3.0f64.to_bits()));
    assert_eq!(f64::from_bits((nine / three).to_f64_bits()), 3.0);
    let (nine, three) = (Uf64::from_f64_bits(9.0f64.to_bits()), Uf64::from_f64_bits(3.0f64.to_bits()));
    assert_eq!(f64::from_bits((nine / three).to_f64_bits()), 3.0);
}

#[test]
fn negative_subtraction_result_is_nan() {
    let (one, two) = (Uf8::from_f32_bits(1.0f32.to_bits()), Uf8::from_f32_bits(2.0f32.to_bits()));
    assert!((one - two).is_nan());
    let (one, two) = (Uf8E5M3::from_f32_bits(1.0f32.to_bits()), Uf8E5M3::from_f32_bits(2.0f32.to_bits()));
    assert!((one - two).is_nan());
    let (one, two) = (Uf16::from_f32_bits(1.0f32.to_bits()), Uf16::from_f32_bits(2.0f32.to_bits()));
    assert!((one - two).is_nan());
    let (one, two) = (Uf16E6M10::from_f32_bits(1.0f32.to_bits()), Uf16E6M10::from_f32_bits(2.0f32.to_bits()));
    assert!((one - two).is_nan());
    let (one, two) = (Uf32::from_f64_bits(1.0f64.to_bits()), Uf32::from_f64_bits(2.0f64.to_bits()));
    assert!((one - two).is_nan());
    let (one, two) = (Uf64::from_f64_bits(1.0f64.to_bits()), Uf64::from_f64_bits(2.0f64.to_bits()));
    assert!((one - two).is_nan());
}

#[test]
fn raw_bits_define_total_ordering() {
    assert!(Uf8::ZERO() < Uf8::MIN_POSITIVE());
    assert!(Uf8::MAX() < Uf8::INFINITY());
    assert!(Uf8::INFINITY() < Uf8::NAN());

    assert!(Uf8E5M3::ZERO() < Uf8E5M3::MIN_POSITIVE());
    assert!(Uf8E5M3::MAX() < Uf8E5M3::INFINITY());
    assert!(Uf8E5M3::INFINITY() < Uf8E5M3::NAN());

    assert!(Uf16::ZERO() < Uf16::MIN_POSITIVE());
    assert!(Uf16::MAX() < Uf16::INFINITY());
    assert!(Uf16::INFINITY() < Uf16::NAN());

    assert!(Uf16E6M10::ZERO() < Uf16E6M10::MIN_POSITIVE());
    assert!(Uf16E6M10::MAX() < Uf16E6M10::INFINITY());
    assert!(Uf16E6M10::INFINITY() < Uf16E6M10::NAN());

    assert!(Uf32::ZERO() < Uf32::MIN_POSITIVE());
    assert!(Uf32::MAX() < Uf32::INFINITY());
    assert!(Uf32::INFINITY() < Uf32::NAN());

    assert!(Uf64::ZERO() < Uf64::MIN_POSITIVE());
    assert!(Uf64::MAX() < Uf64::INFINITY());
    assert!(Uf64::INFINITY() < Uf64::NAN());
}

#[test]
fn round_to_nearest_even_when_encoding() {
    assert_eq!(Uf8::from_f32_bits((1.0f32 + 1.0 / 32.0).to_bits()).to_bits(), 0x70);
    assert_eq!(Uf8::from_f32_bits((1.0f32 + 3.0 / 32.0).to_bits()).to_bits(), 0x72);

    assert_eq!(
        Uf32::from_f64_bits((1.0 + 2.0_f64.powi(-25)).to_bits()).to_bits(),
        Uf32::ONE().to_bits()
    );
    assert_eq!(
        Uf32::from_f64_bits((1.0 + 3.0 * 2.0_f64.powi(-25)).to_bits()).to_bits(),
        Uf32::ONE().to_bits() + 2
    );
}

#[test]
fn try_from_integer_types() {
    assert_eq!(Uf8::try_from(2_u8), Ok(Uf8::from_f32_bits(2.0f32.to_bits())));
    assert_eq!(Uf8E5M3::try_from(2_u8), Ok(Uf8E5M3::from_f32_bits(2.0f32.to_bits())));
    assert_eq!(Uf16::try_from(1024_u32), Ok(Uf16::from_f32_bits(1024.0f32.to_bits())));
    assert_eq!(
        Uf16E6M10::try_from(1024_u32),
        Ok(Uf16E6M10::from_f32_bits(1024.0f32.to_bits()))
    );
    assert_eq!(Uf32::try_from(1024_u64), Ok(Uf32::from_f64_bits(1024.0f64.to_bits())));
    assert_eq!(Uf64::try_from(1024_u64), Ok(Uf64::from_f64_bits(1024.0f64.to_bits())));

    assert_eq!(Uf8::try_from(-1_i8), Err(ConversionError::Negative));
    assert_eq!(Uf8::try_from(u128::MAX), Err(ConversionError::Overflow));
}
