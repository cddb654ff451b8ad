//! The ML-DSA-44 challenge sampler on one SHAKE256 block, and the final challenge hash.
use super::mldsa44;
use super::params::{lemma_mldsa44, Mldsa44};
use super::sample_in_ball::{
    challenge_of, draws_of, expand_sparse_sample_in_ball_for, expanded_of, positions_of,
    sample_in_ball_fixed_cap_from_stream_for, sample_in_ball_fixed_cap_sparse_from_stream_for,
    sample_in_ball_fixed_cap_stream_for, sampled, signs_of,
};
use super::types::{Mldsa44SampleInBallOneBlock, Mldsa44SampleInBallOneBlockSparse};
use crate::circuit::{CircuitBuilder, Wire};
use crate::keccak::shake::{shake256, shake256_of};
use vstd::prelude::*;

verus! {

/// Whether the counts follow the rejection rule on the stream.
pub open spec fn sampled44(stream: Seq<u64>, counts: Seq<u64>) -> bool {
    sampled(draws_of(stream, 128), counts, 256, 39, 39)
}

/// The sparse positions of the challenge.
pub open spec fn positions44(stream: Seq<u64>, counts: Seq<u64>) -> Seq<u64> {
    positions_of(draws_of(stream, 128), counts, 256, 39, 39)
}

/// The signs of the challenge.
pub open spec fn signs44(stream: Seq<u64>) -> Seq<u64> {
    signs_of(stream[0], 39)
}

/// The coefficients of the challenge.
pub open spec fn challenge44(stream: Seq<u64>, counts: Seq<u64>) -> Seq<u64> {
    challenge_of(stream, counts, 256, 39, 128)
}

/// The sampler's stream: one block of `SHAKE256(c_tilde)`.
pub open spec fn stream44(c_tilde: Seq<u64>) -> Seq<u64> {
    shake256_of(c_tilde, 17)
}

/// Whether the wires of a dense sampler output carry the challenge, for the assignment `w`.
pub open spec fn carries_challenge(
    builder: CircuitBuilder,
    r: Mldsa44SampleInBallOneBlock,
    w: Seq<u64>,
    stream: Seq<u64>,
) -> bool {
    builder.vals(w, r.coeffs@) == challenge44(stream, builder.vals(w, r.draw_counts@))
}

/// Whether the wires of a sparse sampler output carry the challenge, for the assignment `w`.
pub open spec fn carries_sparse_challenge(
    builder: CircuitBuilder,
    r: Mldsa44SampleInBallOneBlockSparse,
    w: Seq<u64>,
    stream: Seq<u64>,
) -> bool {
    &&& builder.vals(w, r.positions@) == positions44(stream, builder.vals(w, r.draw_counts@))
    &&& builder.vals(w, r.signs@) == signs44(stream)
}

/// The wires of a list as an array.
fn to_array<const LEN: usize>(xs: &Vec<Wire>) -> (r: [Wire; LEN])
    requires
        xs@.len() == LEN,
        LEN > 0,
    ensures
        r@ == xs@,
{
    let mut r = [xs[0]; LEN];
    for i in 0..LEN
        invariant
            xs@.len() == LEN,
            r@.len() == LEN,
            forall|k: int| 0 <= k < i ==> #[trigger] r@[k] == xs@[k],
    {
        r[i] = xs[i];
    }
    proof {
        assert(r@ =~= xs@);
    }
    r
}

/// The coefficients of a sparse ML-DSA-44 challenge polynomial.
pub(crate) fn mldsa44_expand_sparse_sample_in_ball(
    builder: &mut CircuitBuilder,
    positions: &[Wire],
    signs: &[Wire],
) -> (r: [Wire; mldsa44::N])
    requires
        old(builder).wf(),
        old(builder).has_all(positions@),
        old(builder).has_all(signs@),
        positions@.len() == mldsa44::TAU,
        signs@.len() == mldsa44::TAU,
    ensures
        final(builder).computes_on(*old(builder)),
        final(builder).has_all(r@),
        forall|w: Seq<u64>|
            #[trigger] final(builder).vals(w, r@) == expanded_of(
                old(builder).vals(w, positions@),
                old(builder).vals(w, signs@),
                256,
            ),
{
    proof {
        lemma_mldsa44();
    }
    let coeffs = expand_sparse_sample_in_ball_for::<Mldsa44>(builder, positions, signs);
    to_array(&coeffs)
}

/// Computes the one-block `SampleInBall` SHAKE stream: 8 sign bytes, then 128 draw bytes.
pub fn mldsa44_sample_in_ball_one_block_stream(builder: &mut CircuitBuilder, c_tilde: &[Wire]) -> (r:
    Vec<Wire>)
    requires
        old(builder).wf(),
        old(builder).has_all(c_tilde@),
        c_tilde@.len() == 4,
    ensures
        final(builder).computes_on(*old(builder)),
        final(builder).has_all(r@),
        r@.len() == 17,
        forall|w: Seq<u64>|
            #[trigger] final(builder).vals(w, r@) == stream44(old(builder).vals(w, c_tilde@)),
{
    proof {
        lemma_mldsa44();
    }
    sample_in_ball_fixed_cap_stream_for::<Mldsa44>(builder, c_tilde)
}

/// Proves the one-block `SampleInBall` rejection and update relation from a SHAKE stream.
pub fn mldsa44_sample_in_ball_one_block_from_stream(
    builder: &mut CircuitBuilder,
    stream: &[Wire],
) -> (r: Mldsa44SampleInBallOneBlock)
    requires
        old(builder).wf(),
        old(builder).has_all(stream@),
        stream@.len() == 17,
    ensures
        final(builder).extends(*old(builder)),
        final(builder).has_all(r.coeffs@),
        final(builder).has_all(r.draw_counts@),
        final(builder).adds_inputs(*old(builder), r.draw_counts@),
        forall|w: Seq<u64>|
            #[trigger] final(builder).accepts(w) == (old(builder).accepts(w) && sampled44(
                old(builder).vals(w, stream@),
                final(builder).vals(w, r.draw_counts@),
            )),
        forall|w: Seq<u64>|
            #[trigger] final(builder).accepts(w) ==> carries_challenge(
                *final(builder),
                r,
                w,
                old(builder).vals(w, stream@),
            ),
{
    proof {
        lemma_mldsa44();
    }
    let sample = sample_in_ball_fixed_cap_from_stream_for::<Mldsa44>(builder, stream);
    let r = Mldsa44SampleInBallOneBlock {
        coeffs: to_array(&sample.coeffs),
        draw_counts: to_array(&sample.draw_counts),
    };
    proof {
        assert forall|w: Seq<u64>| #[trigger] builder.accepts(w) implies carries_challenge(
            *builder,
            r,
            w,
            old(builder).vals(w, stream@),
        ) by {
            assert(builder.vals(w, sample.coeffs@) == builder.vals(w, r.coeffs@));
        }
    }
    r
}

/// Proves the one-block `SampleInBall` rejection and update relation from a SHAKE stream, and keeps
/// the challenge in its sparse form.
pub fn mldsa44_sample_in_ball_one_block_sparse_from_stream(
    builder: &mut CircuitBuilder,
    stream: &[Wire],
) -> (r: Mldsa44SampleInBallOneBlockSparse)
    requires
        old(builder).wf(),
        old(builder).has_all(stream@),
        stream@.len() == 17,
    ensures
        final(builder).extends(*old(builder)),
        final(builder).has_all(r.positions@),
        final(builder).has_all(r.signs@),
        final(builder).has_all(r.draw_counts@),
        final(builder).adds_inputs(*old(builder), r.draw_counts@),
        forall|w: Seq<u64>|
            #[trigger] final(builder).accepts(w) == (old(builder).accepts(w) && sampled44(
                old(builder).vals(w, stream@),
                final(builder).vals(w, r.draw_counts@),
            )),
        forall|w: Seq<u64>|
            #[trigger] final(builder).accepts(w) ==> carries_sparse_challenge(
                *final(builder),
                r,
                w,
                old(builder).vals(w, stream@),
            ),
{
    proof {
        lemma_mldsa44();
    }
    let sample = sample_in_ball_fixed_cap_sparse_from_stream_for::<Mldsa44>(builder, stream);
    let r = Mldsa44SampleInBallOneBlockSparse {
        positions: to_array(&sample.positions),
        signs: to_array(&sample.signs),
        draw_counts: to_array(&sample.draw_counts),
    };
    proof {
        assert forall|w: Seq<u64>| #[trigger] builder.accepts(w) implies carries_sparse_challenge(
            *builder,
            r,
            w,
            old(builder).vals(w, stream@),
        ) by {
            assert(builder.vals(w, sample.signs@) == builder.vals(w, r.signs@));
        }
    }
    r
}

/// Computes and proves the one-block `SampleInBall` relation.
pub fn mldsa44_sample_in_ball_one_block(builder: &mut CircuitBuilder, c_tilde: &[Wire]) -> (r:
    Mldsa44SampleInBallOneBlock)
    requires
        old(builder).wf(),
        old(builder).has_all(c_tilde@),
        c_tilde@.len() == 4,
    ensures
        final(builder).extends(*old(builder)),
        final(builder).has_all(r.coeffs@),
        final(builder).has_all(r.draw_counts@),
        final(builder).adds_inputs(*old(builder), r.draw_counts@),
        forall|w: Seq<u64>|
            #[trigger] final(builder).accepts(w) == (old(builder).accepts(w) && sampled44(
                stream44(old(builder).vals(w, c_tilde@)),
                final(builder).vals(w, r.draw_counts@),
            )),
        forall|w: Seq<u64>|
            #[trigger] final(builder).accepts(w) ==> carries_challenge(
                *final(builder),
                r,
                w,
                stream44(old(builder).vals(w, c_tilde@)),
            ),
{
    let ghost b0 = *builder;
    let stream = mldsa44_sample_in_ball_one_block_stream(builder, c_tilde);
    let ghost b1 = *builder;
    let r = mldsa44_sample_in_ball_one_block_from_stream(builder, stream.as_slice());
    proof {
        assert forall|w: Seq<u64>|
            #![trigger builder.accepts(w)]
            b1.vals(w, stream@) == stream44(b0.vals(w, c_tilde@)) && b1.accepts(w) == b0.accepts(
                w,
            ) by {}
    }
    r
}

/// Computes and proves the one-block `SampleInBall` relation, and gives back the sparse challenge
/// entries.
pub fn mldsa44_sample_in_ball_one_block_sparse(builder: &mut CircuitBuilder, c_tilde: &[Wire]) -> (r:
    Mldsa44SampleInBallOneBlockSparse)
    requires
        old(builder).wf(),
        old(builder).has_all(c_tilde@),
        c_tilde@.len() == 4,
    ensures
        final(builder).extends(*old(builder)),
        final(builder).has_all(r.positions@),
        final(builder).has_all(r.signs@),
        final(builder).has_all(r.draw_counts@),
        final(builder).adds_inputs(*old(builder), r.draw_counts@),
        forall|w: Seq<u64>|
            #[trigger] final(builder).accepts(w) == (old(builder).accepts(w) && sampled44(
                stream44(old(builder).vals(w, c_tilde@)),
                final(builder).vals(w, r.draw_counts@),
            )),
        forall|w: Seq<u64>|
            #[trigger] final(builder).accepts(w) ==> carries_sparse_challenge(
                *final(builder),
                r,
                w,
                stream44(old(builder).vals(w, c_tilde@)),
            ),
{
    let ghost b0 = *builder;
    let stream = mldsa44_sample_in_ball_one_block_stream(builder, c_tilde);
    let ghost b1 = *builder;
    let r = mldsa44_sample_in_ball_one_block_sparse_from_stream(builder, stream.as_slice());
    proof {
        assert forall|w: Seq<u64>|
            #![trigger builder.accepts(w)]
            b1.vals(w, stream@) == stream44(b0.vals(w, c_tilde@)) && b1.accepts(w) == b0.accepts(
                w,
            ) by {}
    }
    r
}

/// Computes the final challenge hash `SHAKE256(mu || w1Encode(w1), 32)`.
///
/// The input covers exactly 832 bytes: 64 bytes of `mu`, then 768 bytes of `w1`.
pub fn mldsa44_final_challenge_hash(builder: &mut CircuitBuilder, mu_and_w1_bytes: &[Wire]) -> (r: [Wire;
    4])
    requires
        old(builder).wf(),
        old(builder).has_all(mu_and_w1_bytes@),
        mu_and_w1_bytes@.len() == mldsa44::FINAL_CHALLENGE_INPUT_WORDS,
    ensures
        final(builder).computes_on(*old(builder)),
        final(builder).has_all(r@),
        forall|w: Seq<u64>|
            #[trigger] final(builder).vals(w, r@) == shake256_of(
                old(builder).vals(w, mu_and_w1_bytes@),
                4,
            ),
{
    let output = shake256(builder, mu_and_w1_bytes, 4);
    to_array(&output)
}

} // verus!
