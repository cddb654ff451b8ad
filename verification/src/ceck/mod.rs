//! The text form of constraint systems for equivalence checking.
pub mod ast;
pub mod export;
pub mod export_laws;
