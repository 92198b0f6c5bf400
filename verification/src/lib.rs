//! Unsigned floating-point formats for values that can never be negative.
//!
//! Each format is a newtype over its raw bits with IEEE-like exponent and mantissa
//! fields but no sign bit. The missing sign bit is spent on precision or range,
//! there is no negative zero, and the total order of values is the unsigned order of
//! their bits.
//!
//! Native floating-point values cross this crate's interface as their IEEE bit
//! patterns (`f32::to_bits`, `f64::to_bits`, `f16::to_bits`, and binary128 as a
//! `u128`). Every layout has `+`, `-`, `*` and `/`: the exact result rounded to
//! nearest with ties to even, once for the 8-, 32- and 64-bit layouts and, for the
//! 16-bit layouts, first to binary32 and then to the layout.
use vstd::prelude::*;

pub mod model;
pub mod bitfacts;
pub mod codec;
pub mod laws;
pub mod widths;
pub mod dispatch;
pub mod convert;
pub mod fp16;
pub mod integers;
pub mod pow;
pub mod quad;
pub mod arith8;
pub mod arith32;
pub mod arith64;
pub mod arith16;
pub mod uf8;
pub mod uf16;
pub mod uf32;
pub mod uf64;
pub mod order;
pub mod promoted;
pub mod promoted64;

pub use convert::ConversionError;
pub use pow::PowKernel;
pub use uf8::{Uf8, Uf8E4M4, Uf8E5M3};
pub use uf16::{Uf16, Uf16E5M11, Uf16E6M10};
pub use uf32::{Uf32, Uf32E8M24};
pub use uf64::{Uf64, Uf64E11M52};

verus! {
} // verus!
