use unsigned_float::{Uf16, Uf16E6M10, Uf32, Uf64, Uf8, Uf8E5M3};

fn uf8_value(x: Uf8) -> f32 {
    f32::from_bits(x.to_f32_bits())
}

#[test]
fn uf8_bit_order_is_value_order() {
    for a in 0u8..=0xf0 {
        for b in (a + 1)..=0xf0 {
            assert!(uf8_value(Uf8::from_bits(a)) < uf8_value(Uf8::from_bits(b)));
            assert!(Uf8::from_bits(a) < Uf8::from_bits(b));
        }
    }
}

#[test]
fn uf16_bit_order_is_value_order() {
    let mut previous = f32::from_bits(Uf16::from_bits(0).to_f32_bits());
    for bits in 1u16..=0xf800 {
        let value = f32::from_bits(Uf16::from_bits(bits).to_f32_bits());
        assert!(previous < value);
        previous = value;
    }
}

#[test]
fn uf16_finite_values_round_trip_through_f32() {
    for bits in u16::MIN..=u16::MAX {
        let value = Uf16::from_bits(bits);
        if value.is_nan() {
            continue;
        }
        assert_eq!(Uf16::from_f32_bits(value.to_f32_bits()).to_bits(), bits);
        assert_eq!(Uf16::from_f64_bits(value.to_f64_bits()).to_bits(), bits);
    }
}

#[test]
fn uf16_e6m10_finite_values_round_trip_through_f32() {
    for bits in u16::MIN..=u16::MAX {
        let value = Uf16E6M10::from_bits(bits);
        if value.is_nan() {
            continue;
        }
        assert_eq!(Uf16E6M10::from_f32_bits(value.to_f32_bits()).to_bits(), bits);
        assert_eq!(Uf16E6M10::from_f64_bits(value.to_f64_bits()).to_bits(), bits);
    }
}

#[test]
fn uf8_layouts_round_trip_through_f16_and_f64() {
    for bits in u8::MIN..=u8::MAX {
        let a = Uf8::from_bits(bits);
        if !a.is_nan() {
            assert_eq!(Uf8::from_f16_bits(a.to_f16_bits()).to_bits(), bits);
            assert_eq!(Uf8::from_f64_bits(a.to_f64_bits()).to_bits(), bits);
        }
        let b = Uf8E5M3::from_bits(bits);
        if !b.is_nan() {
            assert_eq!(Uf8E5M3::from_f16_bits(b.to_f16_bits()).to_bits(), bits);
            assert_eq!(Uf8E5M3::from_f64_bits(b.to_f64_bits()).to_bits(), bits);
        }
    }
}

#[test]
fn uf32_and_uf64_round_trip_through_f64() {
    let mut bits: u32 = 0;
    loop {
        let value = Uf32::from_bits(bits);
        if !value.is_nan() {
            assert_eq!(Uf32::from_f64_bits(value.to_f64_bits()).to_bits(), bits);
        }
        match bits.checked_add(0x0001_0003) {
            Some(next) => bits = next,
            None => break,
        }
    }
    for bits in [0u64, 1, 0x000f_ffff_ffff_ffff, 0x0010_0000_0000_0000, 0x3ff0_0000_0000_0000, 0x7fef_ffff_ffff_ffff, 0x7ff0_0000_0000_0000] {
        let value = Uf64::from_bits(bits);
        assert_eq!(value.to_f64_bits(), bits);
        assert_eq!(Uf64::from_f64_bits(value.to_f64_bits()).to_bits(), bits);
    }
}

#[test]
fn fields_rebuild_the_pattern_and_classes_partition() {
    for bits in u8::MIN..=u8::MAX {
        let x = Uf8::from_bits(bits);
        assert_eq!((x.exponent() << 4) | x.mantissa(), bits);
        let classes = [x.is_nan(), x.is_infinite(), x.is_finite()];
        assert_eq!(classes.iter().filter(|c| **c).count(), 1);
        if x.is_zero() || x.is_subnormal() {
            assert!(x.is_finite());
        }
        assert!(!(x.is_zero() && x.is_subnormal()));
    }
    for bits in u16::MIN..=u16::MAX {
        let x = Uf16::from_bits(bits);
        assert_eq!((x.exponent() << 11) | x.mantissa(), bits);
        let y = Uf16E6M10::from_bits(bits);
        assert_eq!((y.exponent() << 10) | y.mantissa(), bits);
    }
}

#[test]
fn one_is_one_in_every_layout() {
    assert_eq!(f32::from_bits(Uf8::ONE().to_f32_bits()), 1.0);
    assert_eq!(f32::from_bits(Uf8E5M3::ONE().to_f32_bits()), 1.0);
    assert_eq!(f32::from_bits(Uf16::ONE().to_f32_bits()), 1.0);
    assert_eq!(f32::from_bits(Uf16E6M10::ONE().to_f32_bits()), 1.0);
    assert_eq!(f64::from_bits(Uf32::ONE().to_f64_bits()), 1.0);
    assert_eq!(f64::from_bits(Uf64::ONE().to_f64_bits()), 1.0);
}

#[test]
fn special_constants_have_their_classes() {
    assert!(Uf8::NAN().is_nan() && !Uf8::NAN().is_finite());
    assert!(Uf8::INFINITY().is_infinite() && !Uf8::INFINITY().is_nan());
    assert!(Uf8::MAX().is_finite() && !Uf8::MAX().is_subnormal());
    assert!(Uf8::MIN_POSITIVE().is_subnormal());
    assert!(Uf8::ZERO().is_zero());
    assert_eq!(Uf8::MIN_NORMAL().exponent(), 1);
    assert!(Uf64::NAN().is_nan());
    assert!(Uf64::INFINITY().is_infinite());
    assert!(Uf32::MIN_POSITIVE().is_subnormal());
    assert_eq!(Uf16::default(), Uf16::ZERO());
    assert_eq!(Uf32::default().to_bits(), 0);
}

#[test]
fn checked_conversion_accepts_every_finite_value() {
    for bits in u8::MIN..=u8::MAX {
        let x = Uf8::from_bits(bits);
        if x.is_finite() {
            assert_eq!(Uf8::try_from_f64_bits(x.to_f64_bits()), Ok(x));
        }
        let y = Uf8E5M3::from_bits(bits);
        if y.is_finite() {
            assert_eq!(Uf8E5M3::try_from_f64_bits(y.to_f64_bits()), Ok(y));
        }
    }
    for bits in (0..=u16::MAX).step_by(7) {
        let x = Uf16::from_bits(bits);
        if x.is_finite() {
            assert_eq!(Uf16::try_from_f64_bits(x.to_f64_bits()), Ok(x));
        }
        let y = Uf16E6M10::from_bits(bits);
        if y.is_finite() {
            assert_eq!(Uf16E6M10::try_from_f64_bits(y.to_f64_bits()), Ok(y));
        }
    }
    for bits in [0u32, 1, 0x00ff_ffff, 0x0100_0000, 0x7f00_0000, 0xfeff_ffff] {
        let x = Uf32::from_bits(bits);
        assert_eq!(Uf32::try_from_f64_bits(x.to_f64_bits()), Ok(x));
    }
    for bits in [0u64, 1, 0x000f_ffff_ffff_ffff, 0x3ff0_0000_0000_0000, 0x7fef_ffff_ffff_ffff] {
        let x = Uf64::from_bits(bits);
        assert_eq!(Uf64::try_from_f64_bits(x.to_f64_bits()), Ok(x));
    }
}
