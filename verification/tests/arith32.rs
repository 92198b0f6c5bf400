use unsigned_float::arith32::{add_uf32, div_uf32, mul_uf32, sub_uf32};
use unsigned_float::Uf32;

fn promoted(a: u32, b: u32, op: fn(f64, f64) -> f64) -> u32 {
    let x = f64::from_bits(Uf32::from_bits(a).to_f64_bits());
    let y = f64::from_bits(Uf32::from_bits(b).to_f64_bits());
    Uf32::from_f64_bits(op(x, y).to_bits()).to_bits()
}

/// A small deterministic generator of bit patterns.
struct Patterns(u64);

impl Patterns {
    fn next(&mut self) -> u32 {
        self.0 = self.0.wrapping_mul(6364136223846793005).wrapping_add(1442695040888963407);
        (self.0 >> 32) as u32
    }
}

const EDGES: [u32; 16] = [
    0, 1, 2, 3, 0x00ff_ffff, 0x0100_0000, 0x0100_0001, 0x7f00_0000, 0x7f00_0001, 0x7eff_ffff,
    0xfeff_ffff, 0xfeff_fffe, 0xff00_0000, 0xff80_0000, 0xff00_0001, 0x4b00_0000,
];

#[test]
fn uf32_arithmetic_matches_promoted_arithmetic() {
    let mut gen = Patterns(0x1234_5678);
    let mut pairs: Vec<(u32, u32)> = Vec::new();
    for &a in EDGES.iter() {
        for &b in EDGES.iter() {
            pairs.push((a, b));
        }
    }
    for _ in 0..200_000 {
        pairs.push((gen.next(), gen.next()));
    }
    for _ in 0..100_000 {
        // Operands of nearby magnitudes, where cancellation and ties are likely.
        let a = gen.next();
        let b = a ^ (gen.next() & 0x00ff_ffff);
        pairs.push((a, b));
        pairs.push((a, a.wrapping_add(gen.next() & 0x3)));
    }
    for (a, b) in pairs {
        assert_eq!(add_uf32(a, b), promoted(a, b, |x, y| x + y), "{a:#x} + {b:#x}");
        assert_eq!(sub_uf32(a, b), promoted(a, b, |x, y| x - y), "{a:#x} - {b:#x}");
        assert_eq!(mul_uf32(a, b), promoted(a, b, |x, y| x * y), "{a:#x} * {b:#x}");
        assert_eq!(div_uf32(a, b), promoted(a, b, |x, y| x / y), "{a:#x} / {b:#x}");
    }
}

#[test]
fn uf32_operators() {
    let nine = Uf32::from_f64_bits(9.0f64.to_bits());
    let three = Uf32::from_f64_bits(3.0f64.to_bits());
    assert_eq!(f64::from_bits((nine / three).to_f64_bits()), 3.0);
    assert_eq!(f64::from_bits((nine + three).to_f64_bits()), 12.0);
    assert_eq!(f64::from_bits((nine - three).to_f64_bits()), 6.0);
    assert_eq!(f64::from_bits((nine * three).to_f64_bits()), 27.0);
    assert!((three - nine).is_nan());
    assert_eq!(Uf32::MAX() + Uf32::MAX(), Uf32::INFINITY());
    assert_eq!(Uf32::MIN_POSITIVE() * Uf32::MIN_POSITIVE(), Uf32::ZERO());
    assert!((Uf32::ZERO() / Uf32::ZERO()).is_nan());
    assert_eq!(Uf32::ONE() / Uf32::ZERO(), Uf32::INFINITY());
    // 1 + 2^-25 is halfway between 1 and the next value: ties to even, 1.
    assert_eq!(add_uf32(0x7f00_0000, 0x6600_0000), 0x7f00_0000);
    // (1 + 2^-24) + 2^-25 is halfway up from an odd pattern: ties to even, upwards.
    assert_eq!(add_uf32(0x7f00_0001, 0x6600_0000), 0x7f00_0002);
    // Just above halfway rounds up.
    assert_eq!(add_uf32(0x7f00_0000, 0x6600_0001), 0x7f00_0001);
    // A far smaller operand leaves the larger one as it is.
    assert_eq!(add_uf32(0x7f00_0000, 0x6100_0000), 0x7f00_0000);
    assert_eq!(sub_uf32(0x7f00_0000, 0x6100_0000), 0x7f00_0000);
    // 1 - 2^-26 is halfway down to the odd pattern below one: ties to even, 1.
    assert_eq!(sub_uf32(0x7f00_0000, 0x6500_0000), 0x7f00_0000);
    // Just beyond halfway rounds down.
    assert_eq!(sub_uf32(0x7f00_0000, 0x6500_0001), 0x7eff_ffff);
}
