//! Verifier-side evaluations of the shift reduction, and repeated constraint systems.
pub mod h_op;
pub mod monster;
pub mod monster_laws;
pub mod repeated;
pub mod repeated_laws;
pub mod repeated_monster;
pub mod shift_ind;
pub mod shift_ind_laws;
pub mod shift_laws;
