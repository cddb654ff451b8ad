//! Outputs of the ML-DSA circuits.
use super::mldsa44;
use crate::circuit::Wire;
use vstd::prelude::*;

verus! {

/// Output of the fixed-cap `SampleInBall` relation with its private trace wires.
pub struct MldsaSampleInBallFixedCap {
    /// Challenge polynomial coefficients: `0`, `1`, or `u64::MAX` for `-1`.
    pub coeffs: Vec<Wire>,
    /// Private bounded rejection-loop counts: the number of one-byte draws consumed for each
    /// nonzero challenge coefficient.
    pub draw_counts: Vec<Wire>,
}

/// Sparse output of the fixed-cap `SampleInBall` relation with its private trace wires.
pub struct MldsaSampleInBallFixedCapSparse {
    /// Challenge positions in update order.
    pub positions: Vec<Wire>,
    /// Challenge signs: `1`, or `u64::MAX` for `-1`.
    pub signs: Vec<Wire>,
    /// Private bounded rejection-loop counts: the number of one-byte draws consumed for each
    /// nonzero challenge coefficient.
    pub draw_counts: Vec<Wire>,
}

/// Output of the ML-DSA-44 one-block `SampleInBall` relation with its private trace wires.
pub struct Mldsa44SampleInBallOneBlock {
    /// Challenge polynomial coefficients: `0`, `1`, or `u64::MAX` for `-1`.
    pub coeffs: [Wire; mldsa44::N],
    /// Private bounded rejection-loop counts: the number of one-byte draws consumed for each
    /// nonzero challenge coefficient.
    pub draw_counts: [Wire; mldsa44::TAU],
}

/// Sparse output of the ML-DSA-44 one-block `SampleInBall` relation with its private trace wires.
pub struct Mldsa44SampleInBallOneBlockSparse {
    /// Challenge positions in update order.
    pub positions: [Wire; mldsa44::TAU],
    /// Challenge signs: `1`, or `u64::MAX` for `-1`.
    pub signs: [Wire; mldsa44::TAU],
    /// Private bounded rejection-loop counts: the number of one-byte draws consumed for each
    /// nonzero challenge coefficient.
    pub draw_counts: [Wire; mldsa44::TAU],
}

/// Outputs of the ML-DSA-44 bit-heavy relation.
pub struct Mldsa44BitHeavyCircuit {
    /// Decoded packed coefficients `y = gamma1 - z` of the hidden signature `z`.
    pub z_packed_y: Vec<Wire>,
    /// Hidden coefficients of `w1 = UseHint(h, wApprox)`.
    pub w1_prime: Vec<Wire>,
    /// Hidden sparse challenge polynomial with its private sampler trace.
    pub sample_in_ball: Mldsa44SampleInBallOneBlockSparse,
}

} // verus!
