# lb_clmm bin array bitmap extension

The bitmap extension of a liquidity-book pair records which bin arrays far
from the pair's own range hold liquidity: bin arrays `512..=6655` in twelve
512-bit positive bitmaps and `-6656..=-513` in twelve negative ones. It flips
and reads single bits and finds the next bin array with liquidity in either
direction.

- `src/` is verified with Verus. `bin_array_bitmap_extension.rs` holds the
  account type, its view as the set of marked bin array indices, and the
  operations with their contracts; `u512.rs` models a 512-bit number as eight
  `u64` limbs and reaches `ruint`'s `U512` through trusted wrappers;
  `properties.rs` states the properties that span operations.
- `app/` is the on-chain side: the zero-copy Anchor account, the program's
  error codes, and methods that run the library on the account.
- `tests/` runs the library on concrete values.
