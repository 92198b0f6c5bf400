use unsigned_float::arith64::{add_uf64, div_uf64, mul_uf64, sub_uf64};
use unsigned_float::Uf64;

fn promoted(a: u64, b: u64, op: fn(f64, f64) -> f64) -> u64 {
    let x = f64::from_bits(Uf64::from_bits(a).to_f64_bits());
    let y = f64::from_bits(Uf64::from_bits(b).to_f64_bits());
    Uf64::from_f64_bits(op(x, y).to_bits()).to_bits()
}

/// A small deterministic generator of bit patterns with a clear top bit.
struct Patterns(u64);

impl Patterns {
    fn next(&mut self) -> u64 {
        self.0 = self.0.wrapping_mul(6364136223846793005).wrapping_add(1442695040888963407);
        let x = self.0 ^ (self.0 >> 29);
        x & 0x7fff_ffff_ffff_ffff
    }
}

const EDGES: [u64; 14] = [
    0,
    1,
    2,
    3,
    0x000f_ffff_ffff_ffff,
    0x0010_0000_0000_0000,
    0x0010_0000_0000_0001,
    0x3ff0_0000_0000_0000,
    0x3ff0_0000_0000_0001,
    0x3fef_ffff_ffff_ffff,
    0x7fef_ffff_ffff_ffff,
    0x7ff0_0000_0000_0000,
    0x7ff8_0000_0000_0000,
    0x4330_0000_0000_0000,
];

#[test]
fn uf64_arithmetic_matches_binary64_arithmetic() {
    let mut gen = Patterns(0x0bad_cafe);
    let mut pairs: Vec<(u64, u64)> = Vec::new();
    for &a in EDGES.iter() {
        for &b in EDGES.iter() {
            pairs.push((a, b));
        }
    }
    for _ in 0..200_000 {
        pairs.push((gen.next(), gen.next()));
    }
    for _ in 0..100_000 {
        let a = gen.next();
        pairs.push((a, a ^ (gen.next() & 0x000f_ffff_ffff_ffff)));
        pairs.push((a, a.wrapping_add(gen.next() & 0x3) & 0x7fff_ffff_ffff_ffff));
        // Small values, where products and quotients meet the subnormal range.
        pairs.push((a >> 10, gen.next() >> 2));
    }
    for (a, b) in pairs {
        assert_eq!(add_uf64(a, b), promoted(a, b, |x, y| x + y), "{a:#x} + {b:#x}");
        assert_eq!(sub_uf64(a, b), promoted(a, b, |x, y| x - y), "{a:#x} - {b:#x}");
        assert_eq!(mul_uf64(a, b), promoted(a, b, |x, y| x * y), "{a:#x} * {b:#x}");
        assert_eq!(div_uf64(a, b), promoted(a, b, |x, y| x / y), "{a:#x} / {b:#x}");
    }
}

#[test]
fn uf64_operators() {
    let nine = Uf64::from_f64_bits(9.0f64.to_bits());
    let three = Uf64::from_f64_bits(3.0f64.to_bits());
    assert_eq!(f64::from_bits((nine / three).to_f64_bits()), 3.0);
    assert_eq!(f64::from_bits((nine + three).to_f64_bits()), 12.0);
    assert_eq!(f64::from_bits((nine - three).to_f64_bits()), 6.0);
    assert_eq!(f64::from_bits((nine * three).to_f64_bits()), 27.0);
    assert!((three - nine).is_nan());
    assert_eq!(Uf64::MAX() + Uf64::MAX(), Uf64::INFINITY());
    assert_eq!(Uf64::MIN_POSITIVE() * Uf64::MIN_POSITIVE(), Uf64::ZERO());
    assert_eq!(Uf64::MIN_POSITIVE() / Uf64::from_f64_bits(2.0f64.to_bits()), Uf64::ZERO());
    assert_eq!(Uf64::from_bits(3) / Uf64::from_f64_bits(2.0f64.to_bits()), Uf64::from_bits(2));
    assert!((Uf64::ZERO() / Uf64::ZERO()).is_nan());
    assert_eq!(Uf64::ONE() / Uf64::ZERO(), Uf64::INFINITY());
    // 1 + 2^-53 is halfway between 1 and the next value: ties to even, 1.
    assert_eq!(add_uf64(0x3ff0_0000_0000_0000, 0x3ca0_0000_0000_0000), 0x3ff0_0000_0000_0000);
    assert_eq!(add_uf64(0x3ff0_0000_0000_0001, 0x3ca0_0000_0000_0000), 0x3ff0_0000_0000_0002);
    // A far smaller operand leaves the larger one as it is.
    assert_eq!(add_uf64(0x3ff0_0000_0000_0000, 0x0000_0000_0000_0001), 0x3ff0_0000_0000_0000);
    assert_eq!(sub_uf64(0x3ff0_0000_0000_0000, 0x0000_0000_0000_0001), 0x3ff0_0000_0000_0000);
    // The unused top bit does not take part in the value.
    assert_eq!(add_uf64(0x8000_0000_0000_0000 | 0x3ff0_0000_0000_0000, 0x3ff0_0000_0000_0000), 0x4000_0000_0000_0000);
}
