use unsigned_float::arith16::{add_uf16, add_uf16_e6m10, div_uf16, div_uf16_e6m10, mul_uf16, mul_uf16_e6m10, sub_uf16, sub_uf16_e6m10};
use unsigned_float::{Uf16, Uf16E6M10};

fn promoted(a: u16, b: u16, op: fn(f32, f32) -> f32) -> u16 {
    let x = f32::from_bits(Uf16::from_bits(a).to_f32_bits());
    let y = f32::from_bits(Uf16::from_bits(b).to_f32_bits());
    Uf16::from_f32_bits(op(x, y).to_bits()).to_bits()
}

fn promoted_e6m10(a: u16, b: u16, op: fn(f32, f32) -> f32) -> u16 {
    let x = f32::from_bits(Uf16E6M10::from_bits(a).to_f32_bits());
    let y = f32::from_bits(Uf16E6M10::from_bits(b).to_f32_bits());
    Uf16E6M10::from_f32_bits(op(x, y).to_bits()).to_bits()
}

/// A small deterministic generator of bit patterns.
struct Patterns(u64);

impl Patterns {
    fn next(&mut self) -> u16 {
        self.0 = self.0.wrapping_mul(6364136223846793005).wrapping_add(1442695040888963407);
        (self.0 >> 40) as u16
    }
}

fn pairs(seed: u64) -> Vec<(u16, u16)> {
    let mut gen = Patterns(seed);
    let mut pairs: Vec<(u16, u16)> = Vec::new();
    for a in (0..=u16::MAX).step_by(97) {
        for b in (0..=u16::MAX).step_by(101) {
            pairs.push((a, b));
        }
    }
    for _ in 0..200_000 {
        let a = gen.next();
        pairs.push((a, gen.next()));
        pairs.push((a, a ^ (gen.next() & 0x07ff)));
    }
    pairs
}

#[test]
fn uf16_arithmetic_matches_promoted_arithmetic() {
    for (a, b) in pairs(7) {
        assert_eq!(add_uf16(a, b), promoted(a, b, |x, y| x + y), "{a:#x} + {b:#x}");
        assert_eq!(sub_uf16(a, b), promoted(a, b, |x, y| x - y), "{a:#x} - {b:#x}");
        assert_eq!(mul_uf16(a, b), promoted(a, b, |x, y| x * y), "{a:#x} * {b:#x}");
        assert_eq!(div_uf16(a, b), promoted(a, b, |x, y| x / y), "{a:#x} / {b:#x}");
    }
}

#[test]
fn uf16_e6m10_arithmetic_matches_promoted_arithmetic() {
    for (a, b) in pairs(11) {
        assert_eq!(add_uf16_e6m10(a, b), promoted_e6m10(a, b, |x, y| x + y), "{a:#x} + {b:#x}");
        assert_eq!(sub_uf16_e6m10(a, b), promoted_e6m10(a, b, |x, y| x - y), "{a:#x} - {b:#x}");
        assert_eq!(mul_uf16_e6m10(a, b), promoted_e6m10(a, b, |x, y| x * y), "{a:#x} * {b:#x}");
        assert_eq!(div_uf16_e6m10(a, b), promoted_e6m10(a, b, |x, y| x / y), "{a:#x} / {b:#x}");
    }
}

#[test]
fn uf16_rounds_twice_through_binary32() {
    // 1 + 2^-11 plus 2^-12 - 2^-24 lies just below the midpoint 1 + 3 * 2^-12. In
    // binary32 the sum is rounded onto that midpoint, which then rounds to even.
    assert_eq!(add_uf16(0x7801, 0x17ff), 0x7802);
    let a = Uf16::from_bits(0x7801);
    let b = Uf16::from_bits(0x17ff);
    assert_eq!((a + b).to_bits(), 0x7802);
    assert!((Uf16::ZERO() * Uf16::INFINITY()).is_nan());
    assert_eq!(Uf16::ONE() / Uf16::ZERO(), Uf16::INFINITY());
    assert_eq!(Uf16E6M10::ONE() - Uf16E6M10::ONE(), Uf16E6M10::ZERO());
}
