# ternary_steganography

Hide and extract bytes in sequences of ternary values (-1, 0, +1), verified
with Verus.

- `src/trit.rs`: the `Trit` type, its conversions, and trit counting.
- `src/sequence.rs`: `TernarySequence`, the carrier, viewed as `Seq<Trit>`.
- `src/bits.rs`: the bits of a byte string and how bits pack back into bytes.
- `src/bit_embedder.rs`, `src/pattern.rs`, `src/frequency.rs`,
  `src/statistical.rs`, `src/spread.rs`: the five techniques, each with a spec
  of what encoding writes and decoding reads, and proofs of when decoding
  gives the data back.
- `src/capacity.rs`: the capacity table by technique name.
- `app/lib.rs`: the floating-point statistics (block fractions, embedding
  efficiency, anomaly score), built on the verified trit counts.
