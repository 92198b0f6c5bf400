# unsigned_float

Unsigned floating-point formats for values that can never be negative: IEEE-like
exponent and mantissa fields with no sign bit.

| Type                     | Layout | Bias |
| ------------------------ | ------ | ---- |
| `Uf8` = `Uf8E4M4`        | E4M4   | 7    |
| `Uf8E5M3`                | E5M3   | 15   |
| `Uf16` = `Uf16E5M11`     | E5M11  | 15   |
| `Uf16E6M10`              | E6M10  | 31   |
| `Uf32` = `Uf32E8M24`     | E8M24  | 127  |
| `Uf64` = `Uf64E11M52`    | E11M52 | 1023 |

## Layout of the crate

`src/` is verified with Verus. Native floats cross its interface as IEEE bit
patterns (`f32::to_bits` and friends).

- `model.rs`: the mathematical model. A pattern's value is counted in steps of
  `2^-1074`; encoding is round-to-nearest, ties-to-even, with overflow to infinity.
- `codec.rs`: the bit-level encoder from binary64 and decoder to binary64, proved
  against the model.
- `widths.rs`: binary16/binary32/binary64 conversions (what the float casts do).
- `dispatch.rs`, `fp16.rs`: per-layout conversions, including field-by-field fast paths
  (an 8-bit pattern to binary16 keeps its value, subnormals included).
- `arith8.rs`, `arith32.rs`, `arith64.rs`: `+`, `-`, `*` and `/` of the 8-bit,
  32-bit and 64-bit layouts: the exact result rounded once (far operands and
  quotients through a sticky bit), with the special values of IEEE arithmetic.
- `arith16.rs`: the same for the 16-bit layouts, computed as binary32 arithmetic:
  the exact result is rounded to binary32 and then to the layout.
- `quad.rs`: binary128 conversions of the 64-bit layout, with both sides counted in
  binary128's finer steps; going through the 64-bit layout narrows binary128 to
  binary64 exactly as binary64 itself would.
- `convert.rs`, `integers.rs`: checked conversions and their errors.
- `pow.rs`: which kernel raises a native float to an unsigned-float exponent (one,
  the base, a square root, repeated multiplication or a general power), chosen from
  the exponent's bits.
- `uf8.rs`, `uf16.rs`, `uf32.rs`, `uf64.rs`, `order.rs`: the types.
- `laws.rs`: round trips, exactness and sign handling of the encoding, and the
  agreement of 8-bit `+`, `-`, `*` and `/` with the same operation done in binary32.
- `promoted.rs`, `promoted64.rs`: the 32-bit layout's `+`, `-`, `*` and `/` agree
  with binary64 arithmetic rounded back, and the 64-bit layout's with binary128
  arithmetic rounded back.

`app/` is ordinary Rust: the `f32`/`f64` front end (`NativeFloat`) and `PowUf`,
which raises native floats to unsigned-float exponents: the library picks the
kernel, `libm` and float multiplication compute it.
