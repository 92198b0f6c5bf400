use unsigned_float::pow::{
    powuf_kernel_f32, powuf_kernel_f64, small_integer_exponent_f32, small_integer_exponent_f64,
};
use unsigned_float::{PowKernel, Uf16, Uf16E6M10, Uf32, Uf64, Uf8, Uf8E5M3};

fn powi_f32(mut base: f32, mut exponent: u32) -> f32 {
    let mut acc = 1.0;
    while exponent != 0 {
        if exponent & 1 == 1 {
            acc *= base;
        }
        exponent >>= 1;
        if exponent != 0 {
            base *= base;
        }
    }
    acc
}

fn powi_f64(mut base: f64, mut exponent: u32) -> f64 {
    let mut acc = 1.0;
    while exponent != 0 {
        if exponent & 1 == 1 {
            acc *= base;
        }
        exponent >>= 1;
        if exponent != 0 {
            base *= base;
        }
    }
    acc
}

/// `base` raised to the exponent with the `f32` bits `exponent`, by the chosen kernel.
fn pow_f32(base: f32, exponent: u32) -> f32 {
    match powuf_kernel_f32(exponent) {
        PowKernel::One => 1.0,
        PowKernel::Base => base,
        PowKernel::Sqrt => libm::sqrtf(base),
        PowKernel::Powi(n) => powi_f32(base, n),
        PowKernel::General => libm::powf(base, f32::from_bits(exponent)),
    }
}

/// `base` raised to the exponent with the `f64` bits `exponent`, by the chosen kernel.
fn pow_f64(base: f64, exponent: u64) -> f64 {
    match powuf_kernel_f64(exponent) {
        PowKernel::One => 1.0,
        PowKernel::Base => base,
        PowKernel::Sqrt => libm::sqrt(base),
        PowKernel::Powi(n) => powi_f64(base, n),
        PowKernel::General => libm::pow(base, f64::from_bits(exponent)),
    }
}

#[test]
fn native_float_bases_can_use_unsigned_float_exponents() {
    let half = 0.5_f32.to_bits();
    assert_eq!(pow_f32(9.0, Uf8::from_f32_bits(half).to_f32_bits()), 3.0);
    assert_eq!(pow_f32(9.0, Uf8E5M3::from_f32_bits(half).to_f32_bits()), 3.0);
    assert_eq!(pow_f32(9.0, Uf16::from_f32_bits(half).to_f32_bits()), 3.0);
    assert_eq!(pow_f64(9.0, Uf16E6M10::from_f32_bits(half).to_f64_bits()), 3.0);
    assert_eq!(pow_f64(9.0, Uf32::from_f64_bits(0.5_f64.to_bits()).to_f64_bits()), 3.0);
    assert_eq!(pow_f32(2.0, Uf16::from_f32_bits(8.0_f32.to_bits()).to_f32_bits()), 256.0);
    assert_eq!(pow_f32(-2.0, Uf8::from_f32_bits(3.0_f32.to_bits()).to_f32_bits()), -8.0);
    assert_eq!(pow_f32(f32::NAN, Uf8::ZERO().to_f32_bits()), 1.0);
    assert!((pow_f64(16.0, Uf32::from_f64_bits(1.25_f64.to_bits()).to_f64_bits()) - 32.0).abs() < 1.0e-12);
    assert_eq!(pow_f64(9.0, Uf64::from_f64_bits(0.5_f64.to_bits()).to_f64_bits()), 3.0);
    assert_eq!(pow_f64(2.0, Uf64::from_f64_bits(10.0_f64.to_bits()).to_f64_bits()), 1024.0);
}

#[test]
fn kernels_for_special_exponents() {
    assert_eq!(powuf_kernel_f32(0.0_f32.to_bits()), PowKernel::One);
    assert_eq!(powuf_kernel_f32((-0.0_f32).to_bits()), PowKernel::One);
    assert_eq!(powuf_kernel_f32(1.0_f32.to_bits()), PowKernel::Base);
    assert_eq!(powuf_kernel_f32(0.5_f32.to_bits()), PowKernel::Sqrt);
    assert_eq!(powuf_kernel_f32(2.0_f32.to_bits()), PowKernel::Powi(2));
    assert_eq!(powuf_kernel_f32(3.0_f32.to_bits()), PowKernel::Powi(3));
    assert_eq!(powuf_kernel_f32(32.0_f32.to_bits()), PowKernel::Powi(32));
    assert_eq!(powuf_kernel_f32(33.0_f32.to_bits()), PowKernel::General);
    assert_eq!(powuf_kernel_f32(2.5_f32.to_bits()), PowKernel::General);
    assert_eq!(powuf_kernel_f32(1.5_f32.to_bits()), PowKernel::General);
    assert_eq!(powuf_kernel_f32((-1.0_f32).to_bits()), PowKernel::General);
    assert_eq!(powuf_kernel_f32((-2.0_f32).to_bits()), PowKernel::General);
    assert_eq!(powuf_kernel_f32(f32::NAN.to_bits()), PowKernel::General);
    assert_eq!(powuf_kernel_f32(f32::INFINITY.to_bits()), PowKernel::General);
    assert_eq!(powuf_kernel_f32(0.25_f32.to_bits()), PowKernel::General);
    assert_eq!(powuf_kernel_f64(0.0_f64.to_bits()), PowKernel::One);
    assert_eq!(powuf_kernel_f64(1.0_f64.to_bits()), PowKernel::Base);
    assert_eq!(powuf_kernel_f64(0.5_f64.to_bits()), PowKernel::Sqrt);
    assert_eq!(powuf_kernel_f64(10.0_f64.to_bits()), PowKernel::Powi(10));
    assert_eq!(powuf_kernel_f64(31.0_f64.to_bits()), PowKernel::Powi(31));
    assert_eq!(powuf_kernel_f64(64.0_f64.to_bits()), PowKernel::General);
    assert_eq!(powuf_kernel_f64(1.25_f64.to_bits()), PowKernel::General);
    assert_eq!(powuf_kernel_f64(f64::NAN.to_bits()), PowKernel::General);
}

#[test]
fn small_integer_exponents_match_float_casts() {
    for n in 0..=40u32 {
        let expected = if (2..=32).contains(&n) { Some(n) } else { None };
        assert_eq!(small_integer_exponent_f32((n as f32).to_bits()), expected);
        assert_eq!(small_integer_exponent_f64((n as f64).to_bits()), expected);
        assert_eq!(small_integer_exponent_f32((n as f32 + 0.5).to_bits()), None);
        assert_eq!(small_integer_exponent_f64((n as f64 + 0.25).to_bits()), None);
        assert_eq!(small_integer_exponent_f32((-(n as f32)).to_bits()), None);
    }
    assert_eq!(small_integer_exponent_f32((2.0_f32 + f32::EPSILON * 2.0).to_bits()), None);
    assert_eq!(small_integer_exponent_f64(f64::INFINITY.to_bits()), None);
    assert_eq!(small_integer_exponent_f32(f32::NAN.to_bits()), None);
}
