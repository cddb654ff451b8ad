//! Sums, equality indicators and multilinear evaluation over a binary field.
pub mod lagrange;
pub mod multilinear;
pub mod poly;
pub mod subspace;
pub mod sums;
