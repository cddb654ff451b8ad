//! Verified building blocks of a binary-field proof system: GHASH field arithmetic, Keccak and
//! BLAKE3 traces and circuits, ML-DSA-44 relations, and the constraint-system checks around them.
pub mod blake2s;
pub mod blake3;
pub mod ceck;
pub mod circuit;
pub mod constraint_laws;
pub mod constraint_system;
pub mod field;
pub mod hash;
pub mod keccak;
pub mod keccak_check;
pub mod keccak_prove;
pub mod math;
pub mod mldsa;
mod parallel;
pub mod prover;
pub mod verify;
