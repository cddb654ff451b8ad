//! The prover's own computations: packing the witness, building the operand columns, and the
//! sequence of reductions between the transcript's messages.
pub mod iop;
pub mod run;
pub mod run_laws;
pub mod witness;

pub use iop::{IOPProver, ProverError, ShiftKeyMaterialization, ShiftKeySource};

pub use run::{ProveAction, ProvePhase, ProveRun};
