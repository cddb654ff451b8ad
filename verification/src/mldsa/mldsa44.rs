//! ML-DSA-44 constants.
use vstd::prelude::*;

verus! {

/// Number of coefficients of a polynomial.
pub const N: usize = 256;

/// The modulus.
pub const Q: u64 = 8_380_417;

/// Number of rows in the public matrix.
pub const K: usize = 4;

/// Number of columns in the public matrix.
pub const L: usize = 4;

/// Number of nonzero challenge coefficients.
pub const TAU: usize = 39;

/// Bound on the coefficients of the secret times the challenge.
pub const BETA: u64 = 78;

/// Bound on the number of hints.
pub const OMEGA: u64 = 80;

/// Bound on the number of hints.
pub const OMEGA_USIZE: usize = 80;

/// Coefficient range of the mask.
pub const GAMMA1: u64 = 131_072;

/// Low-order rounding range.
pub const GAMMA2: u64 = 95_232;

/// Twice the low-order rounding range.
pub const TWO_GAMMA2: u64 = 2 * GAMMA2;

/// Bytes of the challenge seed.
pub const C_TILDE_BYTES: usize = 32;

/// Bytes of the message representative.
pub const MU_BYTES: usize = 64;

/// Words of the message representative.
pub const MU_WORDS: usize = 8;

/// Bytes of one packed `w1` polynomial.
pub const POLY_W1_PACKED_BYTES: usize = 192;

/// Bytes of the packed `w1`.
pub const W1_ENCODE_BYTES: usize = 768;

/// Words of the packed `w1`.
pub const W1_ENCODE_WORDS: usize = 96;

/// Coefficients of `w1`.
pub const W1_COEFFICIENTS: usize = 1024;

/// Bits of a packed `w1` coefficient.
pub const W1_BITS_PER_COEFF: usize = 6;

/// Number of high-bits classes.
pub const W1_M: u64 = 44;

/// Largest `w1` coefficient.
pub const W1_COEFF_MAX: u64 = 43;

/// Bytes of the packed hint.
pub const HINT_BYTES: usize = 84;

/// Words of the packed hint.
pub const HINT_WORDS: usize = 11;

/// Bytes of the final challenge hash input.
pub const FINAL_CHALLENGE_INPUT_BYTES: usize = 832;

/// Words of the final challenge hash input.
pub const FINAL_CHALLENGE_INPUT_WORDS: usize = 104;

/// Permutations of the final challenge hash.
pub const FINAL_CHALLENGE_KECCAK_F_CALLS: usize = 7;

/// Smallest packed `y = gamma1 - z` with `|z| < gamma1 - beta`.
pub const Z_NORM_PACKED_Y_MIN: u64 = BETA + 1;

/// Largest packed `y = gamma1 - z` with `|z| < gamma1 - beta`.
pub const Z_NORM_PACKED_Y_MAX: u64 = 2 * GAMMA1 - BETA - 1;

/// Coefficients of `z`.
pub const Z_COEFFICIENTS: usize = 1024;

/// Bits of a packed `z` coefficient.
pub const Z_BITS_PER_COEFF: usize = 18;

/// Bytes of one packed `z` polynomial.
pub const POLY_Z_PACKED_BYTES: usize = 576;

/// Bytes of the packed `z`.
pub const Z_PACKED_BYTES: usize = 2304;

/// Words of the packed `z`.
pub const Z_PACKED_WORDS: usize = 288;

/// Sign bytes of the challenge sampler.
pub const SAMPLE_IN_BALL_SIGN_BYTES: usize = 8;

/// Draw bytes of the challenge sampler.
pub const SAMPLE_IN_BALL_ONE_BLOCK_DRAW_CAP_BYTES: usize = 128;

/// Stream bytes of the challenge sampler.
pub const SAMPLE_IN_BALL_ONE_BLOCK_STREAM_BYTES: usize = SAMPLE_IN_BALL_SIGN_BYTES
    + SAMPLE_IN_BALL_ONE_BLOCK_DRAW_CAP_BYTES;

/// Permutations of the challenge sampler.
pub const SAMPLE_IN_BALL_ONE_BLOCK_KECCAK_F_CALLS: usize = 1;

} // verus!
