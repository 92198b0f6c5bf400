use unsigned_float::quad::{check_f128_input, decode_to_f128, encode_from_f128, is_zero_f128};
use unsigned_float::{ConversionError, Uf64};

fn quad(exp: u128, mantissa: u128) -> u128 {
    (exp << 112) | mantissa
}

const SIGN: u128 = 1 << 127;

#[test]
fn binary128_values_encode_to_nearest() {
    assert_eq!(Uf64::from_f128_bits(quad(0x3fff, 0)), Uf64::ONE());
    assert_eq!(Uf64::from_f128_bits(quad(0x3ffe, 0)).to_bits(), 0x3fe0_0000_0000_0000);
    assert_eq!(Uf64::from_f128_bits(quad(0x3fff, 1 << 60)).to_bits(), 0x3ff0_0000_0000_0001);
    // Exactly half a step above one: ties to the even pattern, one itself.
    assert_eq!(Uf64::from_f128_bits(quad(0x3fff, 1 << 59)).to_bits(), 0x3ff0_0000_0000_0000);
    // One and a half steps above one: ties to the even pattern two steps up.
    assert_eq!(Uf64::from_f128_bits(quad(0x3fff, 3 << 59)).to_bits(), 0x3ff0_0000_0000_0002);
    // Just above half a step: rounds up.
    assert_eq!(Uf64::from_f128_bits(quad(0x3fff, (1 << 59) | 1)).to_bits(), 0x3ff0_0000_0000_0001);
    // Just below half a step: rounds down.
    assert_eq!(Uf64::from_f128_bits(quad(0x3fff, (1 << 59) - 1)).to_bits(), 0x3ff0_0000_0000_0000);
    assert_eq!(
        Uf64::from_f128_bits(quad(0x43fe, ((1 << 52) - 1) << 60)),
        Uf64::MAX()
    );
    // Rounds up past the largest finite number.
    assert_eq!(
        Uf64::from_f128_bits(quad(0x43fe, (((1 << 53) - 1) << 59))),
        Uf64::INFINITY()
    );
    assert_eq!(Uf64::from_f128_bits(quad(0x4400, 0)), Uf64::INFINITY());
    assert_eq!(Uf64::from_f128_bits(quad(0x3bcd, 0)), Uf64::MIN_POSITIVE());
    assert_eq!(Uf64::from_f128_bits(quad(0x3bcc, 0)), Uf64::ZERO());
    assert_eq!(Uf64::from_f128_bits(quad(0x3bcc, 1 << 111)), Uf64::MIN_POSITIVE());
    assert_eq!(Uf64::from_f128_bits(quad(0x3bcc, 1)), Uf64::MIN_POSITIVE());
    assert_eq!(Uf64::from_f128_bits(quad(0x3c01, 0)), Uf64::MIN_NORMAL());
    assert_eq!(Uf64::from_f128_bits(quad(0x3c00, 0)).to_bits(), 0x0008_0000_0000_0000);
    assert_eq!(Uf64::from_f128_bits(quad(0, 1)), Uf64::ZERO());
}

#[test]
fn binary128_special_values() {
    assert_eq!(encode_from_f128(quad(0x7fff, 0)), 0x7ff0_0000_0000_0000);
    assert_eq!(encode_from_f128(SIGN | quad(0x7fff, 0)), 0x7ff8_0000_0000_0000);
    assert_eq!(encode_from_f128(quad(0x7fff, 1 << 111)), 0x7ff8_0000_0000_0000);
    assert_eq!(encode_from_f128(quad(0x7fff, 1)), 0x7ff8_0000_0000_0000);
    assert_eq!(encode_from_f128(SIGN | quad(0x3fff, 0)), 0x7ff8_0000_0000_0000);
    assert_eq!(encode_from_f128(SIGN), 0);
    assert_eq!(encode_from_f128(0), 0);
    assert!(Uf64::from_f128_bits(SIGN | quad(0x3fff, 0)).is_nan());
}

#[test]
fn values_widen_exactly_to_binary128() {
    assert_eq!(Uf64::ONE().to_f128_bits(), quad(0x3fff, 0));
    assert_eq!(Uf64::ZERO().to_f128_bits(), 0);
    assert_eq!(Uf64::MIN_POSITIVE().to_f128_bits(), quad(0x3bcd, 0));
    assert_eq!(Uf64::from_bits(3).to_f128_bits(), quad(0x3bce, 1 << 111));
    assert_eq!(Uf64::MIN_NORMAL().to_f128_bits(), quad(0x3c01, 0));
    assert_eq!(Uf64::MAX().to_f128_bits(), quad(0x43fe, ((1 << 52) - 1) << 60));
    assert_eq!(Uf64::INFINITY().to_f128_bits(), quad(0x7fff, 0));
    assert_eq!(Uf64::NAN().to_f128_bits(), quad(0x7fff, 1 << 111));
    assert_eq!(decode_to_f128(0x7ff0_0000_0000_0001), quad(0x7fff, 1 << 111));
}

#[test]
fn binary128_round_trip() {
    let mut bits: u64 = 0;
    while bits < 0x7ff0_0000_0000_0000 {
        let x = Uf64::from_bits(bits);
        assert_eq!(Uf64::from_f128_bits(x.to_f128_bits()), x);
        bits += 0x0000_7654_3210_fedb;
    }
    for bits in 0..4096u64 {
        let x = Uf64::from_bits(bits);
        assert_eq!(Uf64::from_f128_bits(x.to_f128_bits()), x);
    }
    assert_eq!(Uf64::from_f128_bits(Uf64::INFINITY().to_f128_bits()), Uf64::INFINITY());
}

#[test]
fn try_from_binary128() {
    assert_eq!(Uf64::try_from_f128_bits(quad(0x3fff, 0)), Ok(Uf64::ONE()));
    assert_eq!(Uf64::try_from_f128_bits(0), Ok(Uf64::ZERO()));
    assert_eq!(Uf64::try_from_f128_bits(SIGN), Ok(Uf64::ZERO()));
    assert_eq!(Uf64::try_from_f128_bits(quad(0x7fff, 5)), Err(ConversionError::Nan));
    assert_eq!(Uf64::try_from_f128_bits(quad(0x7fff, 0)), Err(ConversionError::Infinite));
    assert_eq!(Uf64::try_from_f128_bits(SIGN | quad(0x7fff, 0)), Err(ConversionError::Infinite));
    assert_eq!(Uf64::try_from_f128_bits(SIGN | quad(0x3fff, 0)), Err(ConversionError::Negative));
    assert_eq!(Uf64::try_from_f128_bits(SIGN | quad(0, 1)), Err(ConversionError::Negative));
    assert_eq!(Uf64::try_from_f128_bits(quad(0x4400, 0)), Err(ConversionError::Overflow));
    assert_eq!(Uf64::try_from_f128_bits(quad(0x3bcc, 0)), Err(ConversionError::Underflow));
    assert_eq!(Uf64::try_from_f128_bits(quad(0, 1)), Err(ConversionError::Underflow));
    assert_eq!(Uf64::try_from_f128_bits(quad(0x3bcd, 0)), Ok(Uf64::MIN_POSITIVE()));
    assert_eq!(check_f128_input(quad(0x3fff, 0)), Ok(()));
    assert_eq!(check_f128_input(quad(0x7fff, 1)), Err(ConversionError::Nan));
    assert!(is_zero_f128(SIGN));
    assert!(is_zero_f128(0));
    assert!(!is_zero_f128(1));
    assert!(!is_zero_f128(quad(1, 0)));
}

#[test]
fn binary128_narrows_to_binary64_bits() {
    let cases: [(u128, u64); 8] = [
        (quad(0x3fff, 0), 0x3ff0_0000_0000_0000),
        (quad(0x3ffe, 0), 0x3fe0_0000_0000_0000),
        (quad(0x3fff, 3 << 59), 0x3ff0_0000_0000_0002),
        (quad(0x3fff, (1 << 59) | 1), 0x3ff0_0000_0000_0001),
        (quad(0x3bcc, 1), 0x0000_0000_0000_0001),
        (quad(0x3c00, 0), 0x0008_0000_0000_0000),
        (quad(0x4400, 0), 0x7ff0_0000_0000_0000),
        (quad(0, 0), 0),
    ];
    for (x, expected) in cases {
        assert_eq!(Uf64::from_f128_bits(x).to_f64_bits(), expected);
    }
    assert_eq!(Uf64::from_f128_bits(quad(0x7fff, 0)).to_f64_bits(), 0x7ff0_0000_0000_0000);
}
