//! Circuits over 64-bit words: a builder that records gates, their word semantics, and the
//! evaluation of a built circuit on a witness.
pub mod builder;
pub mod word;
pub mod word_laws;

pub use builder::{lemma_vals_kept, Circuit, CircuitBuilder, PopulateError, Wire, WitnessFiller};
