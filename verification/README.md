# binius64

Building blocks of a binary-field proof system, written in Verus: executable Rust whose contracts
are proved.

- `field` — GF(2^128) with the GHASH polynomial: carry-less products, unreduced sums, inverses, and
  the proof that it is a field.
- `math` — sums, multilinear extensions, subspaces, polynomials and Lagrange interpolation.
- `constraint_system` — AND and MUL constraints over shifted words.
- `circuit` — a builder of word-level circuits with their meaning, and their evaluation.
- `blake2s`, `blake3`, `keccak`, `mldsa` — circuits: BLAKE3 hashing, SHAKE256 and the ML-DSA-44
  signature relations.
- `keccak_prove` — Keccak traces, committed layouts, constraint systems and the first round message.
- `keccak_check` — reductions of Keccak output claims to input claims, as provers and as a protocol,
  with the proof that honest runs are accepted where no coordinate of a point is one.
- `verify` — the shift selectors, matrix polynomials and repeated constraint systems.
- `prover` — what a prover computes between the messages of its transcript.
- `ceck` — the text form of constraint systems for equivalence checking.
- `hash`, `parallel` — the calls into `sha2` and `rayon`, whose contracts are trusted.

`app/` drives the protocols over a channel; `tests/` runs the library on concrete values.
