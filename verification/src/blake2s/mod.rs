//! The mixing function that BLAKE2s and BLAKE3 share, as a circuit on 32-bit words.
pub mod constants;
pub mod mixing;

pub use mixing::g_function;
