//! KeccakCheck: reductions of Keccak output claims to input claims over a binary field.
pub mod batch;
pub mod blocks;
pub mod claims;
pub mod completeness;
pub mod group_protocol;
pub mod grouped_round;
pub mod kernels;
pub mod layer_laws;
pub mod parallel_groups;
pub mod parallel_laws;
pub mod parallel_run;
pub mod protocol;
pub mod rotation;
pub mod round_check;
pub mod sumcheck;
pub mod sumcheck_laws;
pub mod value_laws;
