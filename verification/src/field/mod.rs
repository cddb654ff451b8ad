//! The binary field of 2^128 elements and its packed, carry-less-multiplication arithmetic.
pub mod arithmetic_traits;
pub mod clmul;
pub mod gf128;
pub mod ghash;
pub mod inverse;
pub mod packed;

pub use packed::{BinaryField, BinaryField128bGhash, ExtensionOf, B128};
