//! Keccak circuits: the permutation and SHAKE256 on messages of whole words.
pub mod permutation;
pub mod shake;
pub mod shake_laws;
