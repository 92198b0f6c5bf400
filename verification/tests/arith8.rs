use unsigned_float::arith8::{add_uf8, div_uf8_e5m3, mul_uf8, sub_uf8_e5m3};
use unsigned_float::{Uf8, Uf8E5M3};

#[test]
fn uf8_lut_matches_promoted_arithmetic() {
    for a_bits in u8::MIN..=u8::MAX {
        for b_bits in u8::MIN..=u8::MAX {
            let a = Uf8::from_bits(a_bits);
            let b = Uf8::from_bits(b_bits);
            let a_f32 = f32::from_bits(a.to_f32_bits());
            let b_f32 = f32::from_bits(b.to_f32_bits());

            assert_eq!((a + b).to_bits(), Uf8::from_f32_bits((a_f32 + b_f32).to_bits()).to_bits());
            assert_eq!((a - b).to_bits(), Uf8::from_f32_bits((a_f32 - b_f32).to_bits()).to_bits());
            assert_eq!((a * b).to_bits(), Uf8::from_f32_bits((a_f32 * b_f32).to_bits()).to_bits());
            assert_eq!((a / b).to_bits(), Uf8::from_f32_bits((a_f32 / b_f32).to_bits()).to_bits());
        }
    }
}

#[test]
fn uf8_e5m3_lut_matches_promoted_arithmetic() {
    for a_bits in u8::MIN..=u8::MAX {
        for b_bits in u8::MIN..=u8::MAX {
            let a = Uf8E5M3::from_bits(a_bits);
            let b = Uf8E5M3::from_bits(b_bits);
            let a_f32 = f32::from_bits(a.to_f32_bits());
            let b_f32 = f32::from_bits(b.to_f32_bits());

            assert_eq!(
                (a + b).to_bits(),
                Uf8E5M3::from_f32_bits((a_f32 + b_f32).to_bits()).to_bits()
            );
            assert_eq!(
                (a - b).to_bits(),
                Uf8E5M3::from_f32_bits((a_f32 - b_f32).to_bits()).to_bits()
            );
            assert_eq!(
                (a * b).to_bits(),
                Uf8E5M3::from_f32_bits((a_f32 * b_f32).to_bits()).to_bits()
            );
            assert_eq!(
                (a / b).to_bits(),
                Uf8E5M3::from_f32_bits((a_f32 / b_f32).to_bits()).to_bits()
            );
        }
    }
}

#[test]
fn special_values_in_arithmetic() {
    let inf = Uf8::INFINITY();
    let nan = Uf8::NAN();
    let zero = Uf8::ZERO();
    let one = Uf8::ONE();
    assert_eq!(inf + one, inf);
    assert!((inf - inf).is_nan());
    assert!((one - inf).is_nan());
    assert_eq!(inf - one, inf);
    assert!((zero * inf).is_nan());
    assert_eq!(one * inf, inf);
    assert_eq!(one / zero, inf);
    assert!((zero / zero).is_nan());
    assert!((inf / inf).is_nan());
    assert_eq!(inf / zero, inf);
    assert_eq!(one / inf, zero);
    assert_eq!(zero / one, zero);
    assert!((nan + one).is_nan());
    assert_eq!(one - one, zero);
    assert_eq!((nan * zero).to_bits(), 0xf8);
}

#[test]
fn rounding_in_arithmetic() {
    // 1 + 1/32 lies halfway between 1 and 1 + 1/16: ties to the even pattern 1.
    assert_eq!(add_uf8(0x70, 0x20), 0x70);
    // 1 + 3/32 lies halfway between 1 + 1/16 and 1 + 1/8: ties to the even 1 + 1/8.
    assert_eq!(add_uf8(0x71, 0x20), 0x72);
    // 248 * 2 overflows to infinity.
    assert_eq!(mul_uf8(0xef, 0x80), 0xf0);
    // The smallest subnormal squared underflows to zero.
    assert_eq!(mul_uf8(0x01, 0x01), 0x00);
    // 1 / 3 in E5M3: 0.333.. rounds to 1.375 * 2^-2 (0x6b).
    assert_eq!(div_uf8_e5m3(0x78, 0x84), 0x6b);
    assert_eq!(sub_uf8_e5m3(0x78, 0x78), 0x00);
}

#[test]
fn arithmetic_identities() {
    for a_bits in u8::MIN..=u8::MAX {
        let a = Uf8::from_bits(a_bits);
        let c = Uf8E5M3::from_bits(a_bits);
        for b_bits in [0u8, 1, 0x10, 0x70, 0x7f, 0xef, 0xf0] {
            let b = Uf8::from_bits(b_bits);
            let d = Uf8E5M3::from_bits(b_bits);
            assert_eq!((a + b).to_bits(), (b + a).to_bits());
            assert_eq!((a * b).to_bits(), (b * a).to_bits());
            assert_eq!((c + d).to_bits(), (d + c).to_bits());
            assert_eq!((c * d).to_bits(), (d * c).to_bits());
        }
        if !a.is_nan() {
            assert_eq!(a + Uf8::ZERO(), a);
            assert_eq!(a * Uf8::ONE(), a);
        }
        if !c.is_nan() {
            assert_eq!(c + Uf8E5M3::ZERO(), c);
            assert_eq!(c * Uf8E5M3::ONE(), c);
        }
        if a.is_finite() {
            assert_eq!(a - a, Uf8::ZERO());
        }
        if c.is_finite() {
            assert_eq!(c - c, Uf8E5M3::ZERO());
        }
    }
}
