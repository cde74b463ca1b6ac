# cca_oracle

Exact-arithmetic oracle for continuous clearing auction (CCA) rounding checks,
verified with Verus.

The oracle computes the intended economic quantities of a CCA step exactly,
as non-negative rationals over arbitrary-precision integers, and projects them
into the rounding direction a Solidity entry point is expected to use
(`*_ceiling` rounds up, `*_floor` rounds down).

Layout:

- `src/bignat.rs`: `BigNat`, an arbitrary-precision natural held as normalized
  base-2^32 digits; its arithmetic is done by `num-bigint`.
- `src/fraction.rs`: `Fraction`, a reduced non-negative rational over `BigNat`;
  its arithmetic and ordering are done by `num-rational`.
- `src/oracle.rs`: the auction formulas (required demand, clearability, implied
  price, currency raised at the clearing tick, public-view downscale, full and
  partial fill projections) with contracts over their exact values.
- `src/codec.rs`: the command-line integer reader and the ABI `uint256` word
  writer.
- `src/laws.rs`: properties relating the formulas (monotonicity, clearability
  thresholds, caps, rounding directions, encode/read-back).
- `app/main.rs`: the `cca-oracle` command line used by Foundry through `vm.ffi`.
