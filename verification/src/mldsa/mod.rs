//! ML-DSA-44 signature relations as circuits.
pub mod bits;
pub mod bound_laws;
pub mod hint;
pub mod hint_laws;
pub mod mldsa44;
pub mod one_block;
pub mod packing;
pub mod params;
pub mod relations;
pub mod sample_in_ball;
pub mod sample_in_ball_laws;
pub mod types;
pub mod use_hint;
pub mod util;

pub use hint::{
    assert_mldsa44_h_bits_and_weight, assert_mldsa44_hint_canonical_matches_expanded,
    mldsa44_decode_hint_canonical,
};
pub use one_block::{
    mldsa44_final_challenge_hash, mldsa44_sample_in_ball_one_block,
    mldsa44_sample_in_ball_one_block_from_stream, mldsa44_sample_in_ball_one_block_sparse,
    mldsa44_sample_in_ball_one_block_sparse_from_stream, mldsa44_sample_in_ball_one_block_stream,
};
pub use packing::{
    assert_mldsa44_z_norm_from_packed_y, assert_mldsa44_z_packed_bytes_norm,
    mldsa44_decode_z_packed_y, mldsa44_encode_w1,
};
pub use params::{Mldsa44, MldsaParams};
pub use relations::{
    mldsa44_full_bit_heavy_one_block_canonical_hint_matched_relation,
    mldsa44_full_bit_heavy_one_block_canonical_hint_relation,
    mldsa44_full_bit_heavy_one_block_relation, mldsa44_one_block_canonical_hint_hash_relation,
    mldsa44_one_block_hidden_hash_relation, mldsa44_one_block_use_hint_hash_relation,
    mldsa44_one_block_w1encode_hash_relation,
};
pub use types::{
    Mldsa44BitHeavyCircuit, Mldsa44SampleInBallOneBlock, Mldsa44SampleInBallOneBlockSparse,
};
pub use use_hint::{mldsa44_high_bits, mldsa44_use_hint, mldsa44_use_hint_coeff};
