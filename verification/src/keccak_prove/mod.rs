//! Keccak-f[1600] traces, their committed witness, and the constraints that hold of it.
pub mod bit_ntt;
pub mod constants;
pub mod layout;
pub mod operands;
pub mod round_message;
pub mod row_laws;
pub mod round_message_laws;
pub mod shift_claims;
pub mod shift_evals;
pub mod shift_operands;
pub mod structured;
pub mod trace;
pub mod unrolled;
pub mod v0;
pub mod witness;
