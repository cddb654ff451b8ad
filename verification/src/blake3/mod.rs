//! BLAKE3: the hash function on bytes, and its circuit.
//!
//! Messages up to 1024 bytes are one chunk; longer ones are split into chunks of 1024 bytes whose
//! chaining values are merged in a binary tree. The last compression carries the root flag.
pub mod compression;
pub mod constants;
pub mod hasher;
pub mod laws;
pub mod reference;
pub mod tree;

pub use compression::blake3_compress;
pub use hasher::Blake3;
pub use tree::{blake3_chunk, blake3_parent};
