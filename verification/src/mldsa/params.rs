//! The parameter interface of the ML-DSA circuit shapes.
use super::mldsa44;
use vstd::prelude::*;

verus! {

/// Parameters of an ML-DSA circuit shape.
pub trait MldsaParams {
    /// Number of coefficients of a polynomial.
    const N: usize;

    /// The modulus.
    const Q: u64;

    /// Number of rows in the public matrix.
    const K: usize;

    /// Number of columns in the public matrix.
    const L: usize;

    /// Number of nonzero challenge coefficients.
    const TAU: usize;

    /// Bound on the coefficients of the secret times the challenge.
    const BETA: u64;

    /// Bound on the number of hints.
    const OMEGA: u64;

    /// Bound on the number of hints.
    const OMEGA_USIZE: usize;

    /// Coefficient range of the mask.
    const GAMMA1: u64;

    /// Low-order rounding range.
    const GAMMA2: u64;

    /// Bytes of the challenge seed.
    const C_TILDE_BYTES: usize;

    /// Bytes of the message representative.
    const MU_BYTES: usize;

    /// Bytes of one packed `w1` polynomial.
    const POLY_W1_PACKED_BYTES: usize;

    /// Bits of a packed `w1` coefficient.
    const W1_BITS_PER_COEFF: usize;

    /// Coefficients of `w1`.
    const W1_COEFFICIENTS: usize;

    /// Largest `w1` coefficient.
    const W1_COEFF_MAX: u64;

    /// Bytes of the packed hint.
    const HINT_BYTES: usize;

    /// Bytes of one packed `z` polynomial.
    const POLY_Z_PACKED_BYTES: usize;

    /// Bits of a packed `z` coefficient.
    const Z_BITS_PER_COEFF: usize;

    /// Sign bytes of the challenge sampler.
    const SAMPLE_IN_BALL_SIGN_BYTES: usize;

    /// Draw bytes of the challenge sampler.
    const SAMPLE_IN_BALL_ONE_BLOCK_DRAW_CAP_BYTES: usize;

    /// Stream bytes of the challenge sampler.
    const SAMPLE_IN_BALL_ONE_BLOCK_STREAM_BYTES: usize;

    /// The sizes fit together, and positions and counts fit in a byte.
    proof fn lemma_params()
        ensures
            0 < Self::N <= 256,
            0 < Self::K <= 64,
            Self::OMEGA_USIZE == Self::OMEGA,
            Self::OMEGA < 256,
            Self::HINT_BYTES == Self::OMEGA_USIZE + Self::K,
            Self::W1_COEFFICIENTS == Self::K * Self::N,
            0 < Self::TAU <= 64,
            Self::TAU <= Self::N,
            Self::TAU <= Self::SAMPLE_IN_BALL_ONE_BLOCK_DRAW_CAP_BYTES <= 128,
            Self::SAMPLE_IN_BALL_ONE_BLOCK_STREAM_BYTES == 8 + Self::SAMPLE_IN_BALL_ONE_BLOCK_DRAW_CAP_BYTES,
            Self::C_TILDE_BYTES % 8 == 0,
            Self::C_TILDE_BYTES <= 128,
    ;
}

/// Marker type of the ML-DSA-44 parameter set.
pub struct Mldsa44;

impl MldsaParams for Mldsa44 {
    const N: usize = mldsa44::N;

    const Q: u64 = mldsa44::Q;

    const K: usize = mldsa44::K;

    const L: usize = mldsa44::L;

    const TAU: usize = mldsa44::TAU;

    const BETA: u64 = mldsa44::BETA;

    const OMEGA: u64 = mldsa44::OMEGA;

    const OMEGA_USIZE: usize = mldsa44::OMEGA_USIZE;

    const GAMMA1: u64 = mldsa44::GAMMA1;

    const GAMMA2: u64 = mldsa44::GAMMA2;

    const C_TILDE_BYTES: usize = mldsa44::C_TILDE_BYTES;

    const MU_BYTES: usize = mldsa44::MU_BYTES;

    const POLY_W1_PACKED_BYTES: usize = mldsa44::POLY_W1_PACKED_BYTES;

    const W1_BITS_PER_COEFF: usize = mldsa44::W1_BITS_PER_COEFF;

    const W1_COEFFICIENTS: usize = mldsa44::W1_COEFFICIENTS;

    const W1_COEFF_MAX: u64 = mldsa44::W1_COEFF_MAX;

    const HINT_BYTES: usize = mldsa44::HINT_BYTES;

    const POLY_Z_PACKED_BYTES: usize = mldsa44::POLY_Z_PACKED_BYTES;

    const Z_BITS_PER_COEFF: usize = mldsa44::Z_BITS_PER_COEFF;

    const SAMPLE_IN_BALL_SIGN_BYTES: usize = mldsa44::SAMPLE_IN_BALL_SIGN_BYTES;

    const SAMPLE_IN_BALL_ONE_BLOCK_DRAW_CAP_BYTES: usize =
        mldsa44::SAMPLE_IN_BALL_ONE_BLOCK_DRAW_CAP_BYTES;

    const SAMPLE_IN_BALL_ONE_BLOCK_STREAM_BYTES: usize = mldsa44::SAMPLE_IN_BALL_ONE_BLOCK_STREAM_BYTES;

    proof fn lemma_params() {
    }
}

/// The values of the ML-DSA-44 parameters.
pub proof fn lemma_mldsa44()
    ensures
        Mldsa44::N == 256,
        Mldsa44::K == 4,
        Mldsa44::TAU == 39,
        Mldsa44::OMEGA == 80,
        Mldsa44::OMEGA_USIZE == 80,
        Mldsa44::HINT_BYTES == 84,
        Mldsa44::W1_COEFFICIENTS == 1024,
        Mldsa44::C_TILDE_BYTES == 32,
        Mldsa44::SAMPLE_IN_BALL_ONE_BLOCK_DRAW_CAP_BYTES == 128,
        Mldsa44::SAMPLE_IN_BALL_ONE_BLOCK_STREAM_BYTES == 136,
{
}

} // verus!
