//! The combined ML-DSA-44 relations.
use super::hint::{
    assert_mldsa44_hint_canonical_matches_expanded, expanded_hint, hint_canonical, hint_matches,
    hint_weight_ok, mldsa44_decode_hint_canonical, packed_bytes,
};
use super::mldsa44;
use super::one_block::{
    carries_challenge, carries_sparse_challenge, challenge44,
    mldsa44_expand_sparse_sample_in_ball, mldsa44_final_challenge_hash,
    mldsa44_sample_in_ball_one_block_sparse, sampled44, stream44,
};
use super::packing::{
    all_at_most, assert_mldsa44_z_packed_bytes_norm, mldsa44_encode_w1,
    mldsa44_encode_w1_unchecked, w1_encode_of, z_norm_ok, z_packed_y_of,
};
use super::types::{
    Mldsa44BitHeavyCircuit, Mldsa44SampleInBallOneBlock, Mldsa44SampleInBallOneBlockSparse,
};
use super::use_hint::{
    all_below_q, lemma_high_bits_decompose, mldsa44_use_hint, mldsa44_use_hint_checked,
    use_hints_of,
};
use crate::circuit::{lemma_vals_kept, CircuitBuilder, Wire};
use crate::keccak::shake::shake256_of;
use vstd::prelude::*;

verus! {

/// Whether `c_tilde` is the final challenge hash of the input and the counts are the sampler's
/// trace on `c_tilde`.
pub open spec fn hash_relation(
    c_tilde: Seq<u64>,
    mu_and_w1: Seq<u64>,
    counts: Seq<u64>,
) -> bool {
    &&& c_tilde == shake256_of(mu_and_w1, 4)
    &&& sampled44(stream44(c_tilde), counts)
}

/// The hash input `mu || w1Encode(w1)`.
pub open spec fn hash_input(mu: Seq<u64>, w1: Seq<u64>) -> Seq<u64> {
    mu + w1_encode_of(w1)
}

/// `UseHint(h, wApprox)`, with the lowest bit of each hint coefficient.
pub open spec fn w1_of(h: Seq<u64>, w_approx: Seq<u64>) -> Seq<u64> {
    Seq::new(1024, |i: int| use_hints_of(h, w_approx, i) as u64)
}

/// Asserts that `c_tilde` is the final challenge hash and samples the challenge from it.
fn mldsa44_one_block_hidden_hash_sparse_relation(
    builder: &mut CircuitBuilder,
    c_tilde: &[Wire],
    mu_and_w1_bytes: &[Wire],
) -> (r: Mldsa44SampleInBallOneBlockSparse)
    requires
        old(builder).wf(),
        old(builder).has_all(c_tilde@),
        old(builder).has_all(mu_and_w1_bytes@),
        c_tilde@.len() == 4,
        mu_and_w1_bytes@.len() == mldsa44::FINAL_CHALLENGE_INPUT_WORDS,
    ensures
        final(builder).extends(*old(builder)),
        final(builder).has_all(r.positions@),
        final(builder).has_all(r.signs@),
        final(builder).has_all(r.draw_counts@),
        final(builder).adds_inputs(*old(builder), r.draw_counts@),
        forall|w: Seq<u64>|
            #[trigger] final(builder).accepts(w) == (old(builder).accepts(w) && hash_relation(
                old(builder).vals(w, c_tilde@),
                old(builder).vals(w, mu_and_w1_bytes@),
                final(builder).vals(w, r.draw_counts@),
            )),
        forall|w: Seq<u64>|
            #[trigger] final(builder).accepts(w) ==> carries_sparse_challenge(
                *final(builder),
                r,
                w,
                stream44(old(builder).vals(w, c_tilde@)),
            ),
{
    let ghost b0 = *builder;
    let c_tilde_prime = mldsa44_final_challenge_hash(builder, mu_and_w1_bytes);
    let ghost b1 = *builder;
    for i in 0..4
        invariant
            b0.wf(),
            b0.has_all(c_tilde@),
            c_tilde@.len() == 4,
            c_tilde_prime@.len() == 4,
            b1.computes_on(b0),
            b1.has_all(c_tilde_prime@),
            builder.extends(b1),
            forall|w: Seq<u64>|
                #[trigger] builder.accepts(w) == (b0.accepts(w) && forall|k: int|
                    0 <= k < i ==> b0.val(w, #[trigger] c_tilde@[k]) == b1.val(
                        w,
                        c_tilde_prime@[k],
                    )),
    {
        let ghost bi = *builder;
        assert(b0.has(c_tilde@[i as int]) && b1.has(c_tilde_prime@[i as int]));
        builder.assert_eq(c_tilde[i], c_tilde_prime[i]);
        proof {
            assert forall|w: Seq<u64>| #[trigger] builder.accepts(w) == (b0.accepts(w) && forall|
                k: int,
            |
                0 <= k < i + 1 ==> b0.val(w, #[trigger] c_tilde@[k]) == b1.val(
                    w,
                    c_tilde_prime@[k],
                )) by {
                assert(bi.val(w, c_tilde@[i as int]) == b0.val(w, c_tilde@[i as int]));
                assert(bi.val(w, c_tilde_prime@[i as int]) == b1.val(
                    w,
                    c_tilde_prime@[i as int],
                ));
            }
        }
    }
    let ghost b2 = *builder;
    proof {
        lemma_vals_kept(b2, b0, c_tilde@);
    }
    let r = mldsa44_sample_in_ball_one_block_sparse(builder, c_tilde);
    proof {
        assert forall|w: Seq<u64>|
            #![trigger builder.accepts(w)]
            b2.vals(w, c_tilde@) == b0.vals(w, c_tilde@) && b2.accepts(w) == (b0.accepts(w)
                && b0.vals(w, c_tilde@) == shake256_of(b0.vals(w, mu_and_w1_bytes@), 4)) by {
            let a = b0.vals(w, c_tilde@);
            let b = b1.vals(w, c_tilde_prime@);
            assert(b == shake256_of(b0.vals(w, mu_and_w1_bytes@), 4));
            if b2.accepts(w) {
                assert forall|k: int| 0 <= k < 4 implies #[trigger] a[k] == b[k] by {
                    assert(b0.val(w, c_tilde@[k]) == b1.val(w, c_tilde_prime@[k]));
                }
                assert(a =~= b);
            }
            if b0.accepts(w) && a == b {
                assert forall|k: int| 0 <= k < 4 implies b0.val(w, #[trigger] c_tilde@[k])
                    == b1.val(w, c_tilde_prime@[k]) by {
                    assert(a[k] == b[k]);
                }
            }
        }
    }
    r
}

/// The dense form of a sparse sampler output.
fn expand_sample(builder: &mut CircuitBuilder, sparse: Mldsa44SampleInBallOneBlockSparse) -> (r:
    Mldsa44SampleInBallOneBlock)
    requires
        old(builder).wf(),
        old(builder).has_all(sparse.positions@),
        old(builder).has_all(sparse.signs@),
        old(builder).has_all(sparse.draw_counts@),
        old(builder).reads_all(sparse.draw_counts@),
    ensures
        final(builder).computes_on(*old(builder)),
        final(builder).has_all(r.coeffs@),
        final(builder).has_all(r.draw_counts@),
        final(builder).reads_all(r.draw_counts@),
        r.draw_counts == sparse.draw_counts,
        forall|w: Seq<u64>|
            #[trigger] final(builder).vals(w, r.draw_counts@) == old(builder).vals(
                w,
                sparse.draw_counts@,
            ),
        forall|w: Seq<u64>, stream: Seq<u64>|
            #[trigger] carries_sparse_challenge(*old(builder), sparse, w, stream)
                ==> carries_challenge(*final(builder), r, w, stream),
{
    let ghost b0 = *builder;
    let coeffs = mldsa44_expand_sparse_sample_in_ball(
        builder,
        sparse.positions.as_slice(),
        sparse.signs.as_slice(),
    );
    proof {
        lemma_vals_kept(*builder, b0, sparse.draw_counts@);
        assert forall|w: Seq<u64>, i: int| 0 <= i < 39 implies #[trigger] builder.val(
            w,
            sparse.draw_counts@[i],
        ) == w[sparse.draw_counts@[i].index as int] by {
            assert(b0.has(sparse.draw_counts@[i]));
            assert(b0.val(w, sparse.draw_counts@[i]) == w[sparse.draw_counts@[i].index as int]);
        }
    }
    let r = Mldsa44SampleInBallOneBlock { coeffs, draw_counts: sparse.draw_counts };
    proof {
        assert forall|w: Seq<u64>, stream: Seq<u64>| #[trigger]
            carries_sparse_challenge(b0, sparse, w, stream) implies carries_challenge(
            *builder,
            r,
            w,
            stream,
        ) by {
            assert(builder.vals(w, coeffs@) == challenge44(
                stream,
                b0.vals(w, sparse.draw_counts@),
            ));
        }
    }
    r
}

/// Binds hidden `c_tilde` to both `SampleInBall` and the final challenge hash:
/// `c = SampleInBall(c_tilde)` and `c_tilde == SHAKE256(mu || w1Encode(w1), 32)`.
pub fn mldsa44_one_block_hidden_hash_relation(
    builder: &mut CircuitBuilder,
    c_tilde: &[Wire],
    mu_and_w1_bytes: &[Wire],
) -> (r: Mldsa44SampleInBallOneBlock)
    requires
        old(builder).wf(),
        old(builder).has_all(c_tilde@),
        old(builder).has_all(mu_and_w1_bytes@),
        c_tilde@.len() == 4,
        mu_and_w1_bytes@.len() == mldsa44::FINAL_CHALLENGE_INPUT_WORDS,
    ensures
        final(builder).extends(*old(builder)),
        final(builder).has_all(r.coeffs@),
        final(builder).has_all(r.draw_counts@),
        final(builder).adds_inputs(*old(builder), r.draw_counts@),
        forall|w: Seq<u64>|
            #[trigger] final(builder).accepts(w) == (old(builder).accepts(w) && hash_relation(
                old(builder).vals(w, c_tilde@),
                old(builder).vals(w, mu_and_w1_bytes@),
                final(builder).vals(w, r.draw_counts@),
            )),
        forall|w: Seq<u64>|
            #[trigger] final(builder).accepts(w) ==> carries_challenge(
                *final(builder),
                r,
                w,
                stream44(old(builder).vals(w, c_tilde@)),
            ),
{
    let ghost b0 = *builder;
    let sparse = mldsa44_one_block_hidden_hash_sparse_relation(builder, c_tilde, mu_and_w1_bytes);
    let ghost b1 = *builder;
    let r = expand_sample(builder, sparse);
    proof {
        assert forall|w: Seq<u64>|
            #![trigger builder.accepts(w)]
            builder.accepts(w) == b1.accepts(w) && builder.vals(w, r.draw_counts@) == b1.vals(
                w,
                sparse.draw_counts@,
            ) && (b1.accepts(w) ==> carries_sparse_challenge(
                b1,
                sparse,
                w,
                stream44(b0.vals(w, c_tilde@)),
            )) by {}
    }
    r
}

/// Asserts that `c_tilde` is the hash of `mu` and the encoded `w1`, and samples the challenge from
/// it. The coefficients of `w1` are held to their range where `check_w1_range` is set.
fn mldsa44_one_block_w1encode_hash_sparse_relation_impl(
    builder: &mut CircuitBuilder,
    c_tilde: &[Wire],
    mu_words: &[Wire],
    w1_coeffs: &[Wire],
    check_w1_range: bool,
) -> (r: Mldsa44SampleInBallOneBlockSparse)
    requires
        old(builder).wf(),
        old(builder).has_all(c_tilde@),
        old(builder).has_all(mu_words@),
        old(builder).has_all(w1_coeffs@),
        c_tilde@.len() == 4,
        mu_words@.len() == mldsa44::MU_WORDS,
        w1_coeffs@.len() == mldsa44::W1_COEFFICIENTS,
        !check_w1_range ==> forall|w: Seq<u64>|
            #[trigger] old(builder).accepts(w) ==> all_at_most(
                old(builder).vals(w, w1_coeffs@),
                63,
            ),
    ensures
        final(builder).extends(*old(builder)),
        final(builder).has_all(r.positions@),
        final(builder).has_all(r.signs@),
        final(builder).has_all(r.draw_counts@),
        final(builder).adds_inputs(*old(builder), r.draw_counts@),
        forall|w: Seq<u64>|
            #[trigger] final(builder).accepts(w) == (old(builder).accepts(w) && (check_w1_range
                ==> all_at_most(old(builder).vals(w, w1_coeffs@), mldsa44::W1_COEFF_MAX))
                && hash_relation(
                old(builder).vals(w, c_tilde@),
                hash_input(
                    old(builder).vals(w, mu_words@),
                    old(builder).vals(w, w1_coeffs@),
                ),
                final(builder).vals(w, r.draw_counts@),
            )),
        forall|w: Seq<u64>|
            #[trigger] final(builder).accepts(w) ==> carries_sparse_challenge(
                *final(builder),
                r,
                w,
                stream44(old(builder).vals(w, c_tilde@)),
            ),
{
    let ghost b0 = *builder;
    let w1_words = if check_w1_range {
        mldsa44_encode_w1(builder, w1_coeffs)
    } else {
        mldsa44_encode_w1_unchecked(builder, w1_coeffs)
    };
    let ghost b1 = *builder;
    let mut hash_words: Vec<Wire> = Vec::new();
    for i in 0..8
        invariant
            mu_words@.len() == 8,
            hash_words@ =~= mu_words@.take(i as int),
    {
        hash_words.push(mu_words[i]);
    }
    for i in 0..96
        invariant
            mu_words@.len() == 8,
            hash_words@ =~= mu_words@ + w1_words@.take(i as int),
    {
        hash_words.push(w1_words[i]);
    }
    proof {
        assert(hash_words@ =~= mu_words@ + w1_words@);
        lemma_vals_kept(b1, b0, c_tilde@);
        lemma_vals_kept(b1, b0, mu_words@);
        assert forall|i: int| 0 <= i < 104 implies b1.has(#[trigger] hash_words@[i]) by {
            if i < 8 {
                assert(b1.has(mu_words@[i]));
            } else {
                assert(b1.has(w1_words@[i - 8]));
            }
        }
    }
    let r = mldsa44_one_block_hidden_hash_sparse_relation(
        builder,
        c_tilde,
        hash_words.as_slice(),
    );
    proof {
        assert forall|w: Seq<u64>|
            #![trigger builder.accepts(w)]
            b1.accepts(w) ==> b1.vals(w, hash_words@) == hash_input(
                b0.vals(w, mu_words@),
                b0.vals(w, w1_coeffs@),
            ) by {
            assert(b1.vals(w, c_tilde@) == b0.vals(w, c_tilde@));
            assert(b1.vals(w, mu_words@) == b0.vals(w, mu_words@));
            assert(b1.vals(w, hash_words@) =~= b1.vals(w, mu_words@) + b1.vals(w, w1_words@));
            if b1.accepts(w) {
                let v = b0.vals(w, w1_coeffs@);
                if check_w1_range {
                    assert(all_at_most(v, 43));
                    assert(all_at_most(v, 63)) by {
                        assert forall|i: int| 0 <= i < v.len() implies #[trigger] v[i] <= 63 by {
                            assert(v[i] <= 43);
                        }
                    }
                } else {
                    assert(b0.accepts(w));
                }
            }
        }
        assert forall|w: Seq<u64>|
            #![trigger builder.accepts(w)]
            b1.vals(w, c_tilde@) == b0.vals(w, c_tilde@) by {}
    }
    r
}

/// Binds hidden `c_tilde` to `SampleInBall` and to a final hash whose `w1` bytes are encoded in
/// circuit from hidden `w1` coefficient wires.
pub fn mldsa44_one_block_w1encode_hash_relation(
    builder: &mut CircuitBuilder,
    c_tilde: &[Wire],
    mu_words: &[Wire],
    w1_coeffs: &[Wire],
) -> (r: Mldsa44SampleInBallOneBlock)
    requires
        old(builder).wf(),
        old(builder).has_all(c_tilde@),
        old(builder).has_all(mu_words@),
        old(builder).has_all(w1_coeffs@),
        c_tilde@.len() == 4,
        mu_words@.len() == mldsa44::MU_WORDS,
        w1_coeffs@.len() == mldsa44::W1_COEFFICIENTS,
    ensures
        final(builder).extends(*old(builder)),
        final(builder).has_all(r.coeffs@),
        final(builder).has_all(r.draw_counts@),
        final(builder).adds_inputs(*old(builder), r.draw_counts@),
        forall|w: Seq<u64>|
            #[trigger] final(builder).accepts(w) == (old(builder).accepts(w) && all_at_most(
                old(builder).vals(w, w1_coeffs@),
                mldsa44::W1_COEFF_MAX,
            ) && hash_relation(
                old(builder).vals(w, c_tilde@),
                hash_input(
                    old(builder).vals(w, mu_words@),
                    old(builder).vals(w, w1_coeffs@),
                ),
                final(builder).vals(w, r.draw_counts@),
            )),
        forall|w: Seq<u64>|
            #[trigger] final(builder).accepts(w) ==> carries_challenge(
                *final(builder),
                r,
                w,
                stream44(old(builder).vals(w, c_tilde@)),
            ),
{
    let ghost b0 = *builder;
    let sparse = mldsa44_one_block_w1encode_hash_sparse_relation_impl(
        builder,
        c_tilde,
        mu_words,
        w1_coeffs,
        true,
    );
    let ghost b1 = *builder;
    let r = expand_sample(builder, sparse);
    proof {
        assert forall|w: Seq<u64>|
            #![trigger builder.accepts(w)]
            builder.accepts(w) == b1.accepts(w) && builder.vals(w, r.draw_counts@) == b1.vals(
                w,
                sparse.draw_counts@,
            ) && (b1.accepts(w) ==> carries_sparse_challenge(
                b1,
                sparse,
                w,
                stream44(b0.vals(w, c_tilde@)),
            )) by {}
    }
    r
}

proof fn lemma_w1_vals(
    builder: CircuitBuilder,
    w: Seq<u64>,
    w1: Seq<Wire>,
    h: Seq<u64>,
    w_approx: Seq<u64>,
)
    requires
        w1.len() == 1024,
        w_approx.len() == 1024,
        all_below_q(w_approx),
        forall|i: int|
            0 <= i < 1024 ==> #[trigger] builder.val(w, w1[i]) == use_hints_of(h, w_approx, i),
    ensures
        builder.vals(w, w1) == w1_of(h, w_approx),
        all_at_most(builder.vals(w, w1), 43),
        all_at_most(builder.vals(w, w1), 63),
{
    let v = builder.vals(w, w1);
    assert forall|i: int| 0 <= i < 1024 implies #[trigger] v[i] == w1_of(h, w_approx)[i] && v[i]
        <= 43 by {
        assert(builder.val(w, w1[i]) == use_hints_of(h, w_approx, i));
        assert(w_approx[i] < mldsa44::Q);
        let _ = lemma_high_bits_decompose(w_approx[i]);
    }
    assert(v =~= w1_of(h, w_approx));
}

/// Binds hidden `c_tilde` to `SampleInBall` and to a final hash whose `w1` bytes are derived from
/// hidden `h` and `wApprox` through `UseHint`.
pub fn mldsa44_one_block_use_hint_hash_relation(
    builder: &mut CircuitBuilder,
    c_tilde: &[Wire],
    mu_words: &[Wire],
    h_coeffs: &[Wire],
    w_approx_coeffs: &[Wire],
) -> (r: Mldsa44SampleInBallOneBlock)
    requires
        old(builder).wf(),
        old(builder).has_all(c_tilde@),
        old(builder).has_all(mu_words@),
        old(builder).has_all(h_coeffs@),
        old(builder).has_all(w_approx_coeffs@),
        c_tilde@.len() == 4,
        mu_words@.len() == mldsa44::MU_WORDS,
        h_coeffs@.len() == mldsa44::W1_COEFFICIENTS,
        w_approx_coeffs@.len() == mldsa44::W1_COEFFICIENTS,
    ensures
        final(builder).extends(*old(builder)),
        final(builder).has_all(r.coeffs@),
        final(builder).has_all(r.draw_counts@),
        final(builder).adds_inputs(*old(builder), r.draw_counts@),
        forall|w: Seq<u64>|
            #[trigger] final(builder).accepts(w) == (old(builder).accepts(w) && hint_weight_ok(
                old(builder).vals(w, h_coeffs@),
                80,
            ) && all_below_q(old(builder).vals(w, w_approx_coeffs@)) && hash_relation(
                old(builder).vals(w, c_tilde@),
                hash_input(
                    old(builder).vals(w, mu_words@),
                    w1_of(
                        old(builder).vals(w, h_coeffs@),
                        old(builder).vals(w, w_approx_coeffs@),
                    ),
                ),
                final(builder).vals(w, r.draw_counts@),
            )),
        forall|w: Seq<u64>|
            #[trigger] final(builder).accepts(w) ==> carries_challenge(
                *final(builder),
                r,
                w,
                stream44(old(builder).vals(w, c_tilde@)),
            ),
{
    let ghost b0 = *builder;
    let w1_coeffs = mldsa44_use_hint(builder, h_coeffs, w_approx_coeffs);
    let ghost b1 = *builder;
    proof {
        lemma_vals_kept(b1, b0, c_tilde@);
        lemma_vals_kept(b1, b0, mu_words@);
    }
    let r = mldsa44_one_block_w1encode_hash_relation(
        builder,
        c_tilde,
        mu_words,
        w1_coeffs.as_slice(),
    );
    proof {
        assert forall|w: Seq<u64>|
            #![trigger builder.accepts(w)]
            b1.vals(w, c_tilde@) == b0.vals(w, c_tilde@) && b1.vals(w, mu_words@) == b0.vals(
                w,
                mu_words@,
            ) && (b1.accepts(w) ==> b1.vals(w, w1_coeffs@) == w1_of(
                b0.vals(w, h_coeffs@),
                b0.vals(w, w_approx_coeffs@),
            ) && all_at_most(b1.vals(w, w1_coeffs@), 43)) by {
            if b1.accepts(w) {
                lemma_w1_vals(
                    b1,
                    w,
                    w1_coeffs@,
                    b0.vals(w, h_coeffs@),
                    b0.vals(w, w_approx_coeffs@),
                );
            }
        }
    }
    r
}

/// Like `mldsa44_one_block_use_hint_hash_relation`, but decodes canonical packed hint bytes instead
/// of taking expanded hint bits as witness.
pub fn mldsa44_one_block_canonical_hint_hash_relation(
    builder: &mut CircuitBuilder,
    c_tilde: &[Wire],
    mu_words: &[Wire],
    h_words: &[Wire],
    w_approx_coeffs: &[Wire],
) -> (r: Mldsa44SampleInBallOneBlock)
    requires
        old(builder).wf(),
        old(builder).has_all(c_tilde@),
        old(builder).has_all(mu_words@),
        old(builder).has_all(h_words@),
        old(builder).has_all(w_approx_coeffs@),
        c_tilde@.len() == 4,
        mu_words@.len() == mldsa44::MU_WORDS,
        h_words@.len() == mldsa44::HINT_WORDS,
        w_approx_coeffs@.len() == mldsa44::W1_COEFFICIENTS,
    ensures
        final(builder).extends(*old(builder)),
        final(builder).has_all(r.coeffs@),
        final(builder).has_all(r.draw_counts@),
        final(builder).adds_inputs(*old(builder), r.draw_counts@),
        forall|w: Seq<u64>|
            #[trigger] final(builder).accepts(w) == (old(builder).accepts(w) && hint_canonical(
                packed_bytes(old(builder).vals(w, h_words@), 84),
                256,
                4,
                80,
            ) && all_below_q(old(builder).vals(w, w_approx_coeffs@)) && hash_relation(
                old(builder).vals(w, c_tilde@),
                hash_input(
                    old(builder).vals(w, mu_words@),
                    w1_of(
                        expanded_hint(packed_bytes(old(builder).vals(w, h_words@), 84), 256, 4, 80),
                        old(builder).vals(w, w_approx_coeffs@),
                    ),
                ),
                final(builder).vals(w, r.draw_counts@),
            )),
        forall|w: Seq<u64>|
            #[trigger] final(builder).accepts(w) ==> carries_challenge(
                *final(builder),
                r,
                w,
                stream44(old(builder).vals(w, c_tilde@)),
            ),
{
    let ghost b0 = *builder;
    let h_coeffs = mldsa44_decode_hint_canonical(builder, h_words);
    let ghost bh = *builder;
    proof {
        lemma_vals_kept(bh, b0, c_tilde@);
        lemma_vals_kept(bh, b0, mu_words@);
        lemma_vals_kept(bh, b0, w_approx_coeffs@);
    }
    let w1_coeffs = mldsa44_use_hint_checked(builder, h_coeffs.as_slice(), w_approx_coeffs);
    let ghost b1 = *builder;
    proof {
        lemma_vals_kept(b1, bh, c_tilde@);
        lemma_vals_kept(b1, bh, mu_words@);
    }
    let r = mldsa44_one_block_w1encode_hash_relation(
        builder,
        c_tilde,
        mu_words,
        w1_coeffs.as_slice(),
    );
    proof {
        assert forall|w: Seq<u64>|
            #![trigger builder.accepts(w)]
            b1.vals(w, c_tilde@) == b0.vals(w, c_tilde@) && b1.vals(w, mu_words@) == b0.vals(
                w,
                mu_words@,
            ) && b1.accepts(w) == (b0.accepts(w) && hint_canonical(
                packed_bytes(b0.vals(w, h_words@), 84),
                256,
                4,
                80,
            ) && all_below_q(b0.vals(w, w_approx_coeffs@))) && (b1.accepts(w) ==> b1.vals(
                w,
                w1_coeffs@,
            ) == w1_of(
                expanded_hint(packed_bytes(b0.vals(w, h_words@), 84), 256, 4, 80),
                b0.vals(w, w_approx_coeffs@),
            ) && all_at_most(b1.vals(w, w1_coeffs@), 43)) by {
            assert(bh.vals(w, w_approx_coeffs@) == b0.vals(w, w_approx_coeffs@));
            assert(bh.vals(w, c_tilde@) == b0.vals(w, c_tilde@));
            assert(bh.vals(w, mu_words@) == b0.vals(w, mu_words@));
            let h = expanded_hint(packed_bytes(b0.vals(w, h_words@), 84), 256, 4, 80);
            assert(bh.vals(w, h_coeffs@) == h);
            if b1.accepts(w) {
                lemma_w1_vals(b1, w, w1_coeffs@, h, b0.vals(w, w_approx_coeffs@));
            }
        }
    }
    r
}

/// Builds the full ML-DSA-44 bit-heavy relation.
///
/// The signature stays hidden. `mu` is supplied as input wires, `wApprox` is the hidden value that
/// the lattice layer produces, and `c_tilde`, packed `z` and expanded hint bits `h` are hidden
/// signature witness values. The relation is:
///
/// - `z_packed_y = BitUnpack(z)` and `|z| < gamma1 - beta`;
/// - every `h_i` is a bit, and at most `omega` are set;
/// - `w1 = UseHint(h, wApprox)`;
/// - `c_tilde = SHAKE256(mu || w1Encode(w1), 32)` and `c = SampleInBall(c_tilde)`.
#[verifier::spinoff_prover]
#[verifier::rlimit(40)]
pub fn mldsa44_full_bit_heavy_one_block_relation(
    builder: &mut CircuitBuilder,
    c_tilde: &[Wire],
    z_words: &[Wire],
    h_coeffs: &[Wire],
    mu_words: &[Wire],
    w_approx_coeffs: &[Wire],
) -> (r: Mldsa44BitHeavyCircuit)
    requires
        old(builder).wf(),
        old(builder).has_all(c_tilde@),
        old(builder).has_all(z_words@),
        old(builder).has_all(h_coeffs@),
        h_coeffs@.len() == mldsa44::W1_COEFFICIENTS,
        old(builder).has_all(mu_words@),
        old(builder).has_all(w_approx_coeffs@),
        c_tilde@.len() == 4,
        z_words@.len() == mldsa44::Z_PACKED_WORDS,
        mu_words@.len() == mldsa44::MU_WORDS,
        w_approx_coeffs@.len() == mldsa44::W1_COEFFICIENTS,
    ensures
        final(builder).extends(*old(builder)),
        final(builder).has_all(r.z_packed_y@),
        final(builder).has_all(r.w1_prime@),
        final(builder).has_all(r.sample_in_ball.positions@),
        final(builder).has_all(r.sample_in_ball.signs@),
        final(builder).has_all(r.sample_in_ball.draw_counts@),
        final(builder).adds_inputs(*old(builder), r.sample_in_ball.draw_counts@),
        forall|w: Seq<u64>|
            #[trigger] final(builder).accepts(w) == (old(builder).accepts(w) && z_norm_ok(
                z_packed_y_of(old(builder).vals(w, z_words@)),
            ) && hint_weight_ok(old(builder).vals(w, h_coeffs@), 80) && all_below_q(
                old(builder).vals(w, w_approx_coeffs@),
            ) && hash_relation(
                old(builder).vals(w, c_tilde@),
                hash_input(
                    old(builder).vals(w, mu_words@),
                    w1_of(
                        old(builder).vals(w, h_coeffs@),
                        old(builder).vals(w, w_approx_coeffs@),
                    ),
                ),
                final(builder).vals(w, r.sample_in_ball.draw_counts@),
            )),
        forall|w: Seq<u64>|
            #[trigger] final(builder).accepts(w) ==> {
                &&& final(builder).vals(w, r.z_packed_y@) == z_packed_y_of(
                    old(builder).vals(w, z_words@),
                )
                &&& final(builder).vals(w, r.w1_prime@) == w1_of(
                    old(builder).vals(w, h_coeffs@),
                    old(builder).vals(w, w_approx_coeffs@),
                )
                &&& carries_sparse_challenge(
                    *final(builder),
                    r.sample_in_ball,
                    w,
                    stream44(old(builder).vals(w, c_tilde@)),
                )
            },
{
    let ghost b0 = *builder;
    let z_packed_y = assert_mldsa44_z_packed_bytes_norm(builder, z_words);
    let ghost b1 = *builder;
    proof {
        lemma_vals_kept(b1, b0, c_tilde@);
        lemma_vals_kept(b1, b0, mu_words@);
        lemma_vals_kept(b1, b0, w_approx_coeffs@);
        lemma_vals_kept(b1, b0, h_coeffs@);
    }
    let w1_prime = mldsa44_use_hint(builder, h_coeffs, w_approx_coeffs);
    let ghost b2 = *builder;
    proof {
        lemma_vals_kept(b2, b1, c_tilde@);
        lemma_vals_kept(b2, b1, mu_words@);
        lemma_vals_kept(b2, b1, z_packed_y@);
        assert forall|w: Seq<u64>| #[trigger]
            b2.accepts(w) == (b1.accepts(w) && hint_weight_ok(b0.vals(w, h_coeffs@), 80)
            && all_below_q(b0.vals(w, w_approx_coeffs@))) by {
            assert(b1.vals(w, w_approx_coeffs@) == b0.vals(w, w_approx_coeffs@));
            assert(b1.vals(w, h_coeffs@) == b0.vals(w, h_coeffs@));
        }
        assert forall|w: Seq<u64>| #[trigger] b2.accepts(w) implies b2.vals(w, w1_prime@) == w1_of(
            b0.vals(w, h_coeffs@),
            b0.vals(w, w_approx_coeffs@),
        ) && all_at_most(b2.vals(w, w1_prime@), 63) by {
            assert(b1.vals(w, w_approx_coeffs@) == b0.vals(w, w_approx_coeffs@));
            assert(b1.vals(w, h_coeffs@) == b0.vals(w, h_coeffs@));
            lemma_w1_vals(
                b2,
                w,
                w1_prime@,
                b0.vals(w, h_coeffs@),
                b0.vals(w, w_approx_coeffs@),
            );
        }
    }
    let sample_in_ball = mldsa44_one_block_w1encode_hash_sparse_relation_impl(
        builder,
        c_tilde,
        mu_words,
        w1_prime.as_slice(),
        false,
    );
    proof {
        lemma_vals_kept(*builder, b2, z_packed_y@);
        lemma_vals_kept(*builder, b2, w1_prime@);
        assert forall|w: Seq<u64>|
            #![trigger builder.accepts(w)]
            b2.vals(w, c_tilde@) == b0.vals(w, c_tilde@) && b2.vals(w, mu_words@) == b0.vals(
                w,
                mu_words@,
            ) && builder.vals(w, z_packed_y@) == z_packed_y_of(b0.vals(w, z_words@))
                && builder.vals(w, w1_prime@) == b2.vals(w, w1_prime@) by {
            assert(b2.vals(w, c_tilde@) == b1.vals(w, c_tilde@));
            assert(b1.vals(w, c_tilde@) == b0.vals(w, c_tilde@));
            assert(b2.vals(w, mu_words@) == b1.vals(w, mu_words@));
            assert(b1.vals(w, mu_words@) == b0.vals(w, mu_words@));
            assert(builder.vals(w, z_packed_y@) == b2.vals(w, z_packed_y@));
            assert(b2.vals(w, z_packed_y@) == b1.vals(w, z_packed_y@));
        }
    }
    Mldsa44BitHeavyCircuit { z_packed_y, w1_prime, sample_in_ball }
}

/// Full ML-DSA-44 bit-heavy relation with canonical packed hint decoding.
#[verifier::spinoff_prover]
#[verifier::rlimit(40)]
pub fn mldsa44_full_bit_heavy_one_block_canonical_hint_relation(
    builder: &mut CircuitBuilder,
    c_tilde: &[Wire],
    z_words: &[Wire],
    h_words: &[Wire],
    mu_words: &[Wire],
    w_approx_coeffs: &[Wire],
) -> (r: Mldsa44BitHeavyCircuit)
    requires
        old(builder).wf(),
        old(builder).has_all(c_tilde@),
        old(builder).has_all(z_words@),
        old(builder).has_all(h_words@),
        h_words@.len() == mldsa44::HINT_WORDS,
        old(builder).has_all(mu_words@),
        old(builder).has_all(w_approx_coeffs@),
        c_tilde@.len() == 4,
        z_words@.len() == mldsa44::Z_PACKED_WORDS,
        mu_words@.len() == mldsa44::MU_WORDS,
        w_approx_coeffs@.len() == mldsa44::W1_COEFFICIENTS,
    ensures
        final(builder).extends(*old(builder)),
        final(builder).has_all(r.z_packed_y@),
        final(builder).has_all(r.w1_prime@),
        final(builder).has_all(r.sample_in_ball.positions@),
        final(builder).has_all(r.sample_in_ball.signs@),
        final(builder).has_all(r.sample_in_ball.draw_counts@),
        final(builder).adds_inputs(*old(builder), r.sample_in_ball.draw_counts@),
        forall|w: Seq<u64>|
            #[trigger] final(builder).accepts(w) == (old(builder).accepts(w) && z_norm_ok(
                z_packed_y_of(old(builder).vals(w, z_words@)),
            ) && hint_canonical(packed_bytes(old(builder).vals(w, h_words@), 84), 256, 4, 80)
                && all_below_q(
                old(builder).vals(w, w_approx_coeffs@),
            ) && hash_relation(
                old(builder).vals(w, c_tilde@),
                hash_input(
                    old(builder).vals(w, mu_words@),
                    w1_of(
                        expanded_hint(packed_bytes(old(builder).vals(w, h_words@), 84), 256, 4, 80),
                        old(builder).vals(w, w_approx_coeffs@),
                    ),
                ),
                final(builder).vals(w, r.sample_in_ball.draw_counts@),
            )),
        forall|w: Seq<u64>|
            #[trigger] final(builder).accepts(w) ==> {
                &&& final(builder).vals(w, r.z_packed_y@) == z_packed_y_of(
                    old(builder).vals(w, z_words@),
                )
                &&& final(builder).vals(w, r.w1_prime@) == w1_of(
                    expanded_hint(packed_bytes(old(builder).vals(w, h_words@), 84), 256, 4, 80),
                    old(builder).vals(w, w_approx_coeffs@),
                )
                &&& carries_sparse_challenge(
                    *final(builder),
                    r.sample_in_ball,
                    w,
                    stream44(old(builder).vals(w, c_tilde@)),
                )
            },
{
    let ghost b0 = *builder;
    let z_packed_y = assert_mldsa44_z_packed_bytes_norm(builder, z_words);
    let ghost b1 = *builder;
    proof {
        lemma_vals_kept(b1, b0, c_tilde@);
        lemma_vals_kept(b1, b0, mu_words@);
        lemma_vals_kept(b1, b0, w_approx_coeffs@);
        lemma_vals_kept(b1, b0, h_words@);
    }
    let h_coeffs = mldsa44_decode_hint_canonical(builder, h_words);
    let ghost bh = *builder;
    proof {
        lemma_vals_kept(bh, b1, w_approx_coeffs@);
        lemma_vals_kept(bh, b1, c_tilde@);
        lemma_vals_kept(bh, b1, mu_words@);
        lemma_vals_kept(bh, b1, z_packed_y@);
    }
    let w1_prime = mldsa44_use_hint_checked(builder, h_coeffs.as_slice(), w_approx_coeffs);
    let ghost b2 = *builder;
    proof {
        lemma_vals_kept(b2, b1, c_tilde@);
        lemma_vals_kept(b2, b1, mu_words@);
        lemma_vals_kept(b2, b1, z_packed_y@);
        assert forall|w: Seq<u64>| #[trigger]
            b2.accepts(w) == (b1.accepts(w) && hint_canonical(
                packed_bytes(b0.vals(w, h_words@), 84),
                256,
                4,
                80,
            )
            && all_below_q(b0.vals(w, w_approx_coeffs@))) by {
            assert(b1.vals(w, w_approx_coeffs@) == b0.vals(w, w_approx_coeffs@));
            assert(b1.vals(w, h_words@) == b0.vals(w, h_words@));
            assert(bh.vals(w, w_approx_coeffs@) == b1.vals(w, w_approx_coeffs@));
            assert(bh.vals(w, h_coeffs@) == expanded_hint(
                packed_bytes(b0.vals(w, h_words@), 84),
                256,
                4,
                80,
            ));
        }
        assert forall|w: Seq<u64>| #[trigger] b2.accepts(w) implies b2.vals(w, w1_prime@) == w1_of(
            expanded_hint(packed_bytes(b0.vals(w, h_words@), 84), 256, 4, 80),
            b0.vals(w, w_approx_coeffs@),
        ) && all_at_most(b2.vals(w, w1_prime@), 63) by {
            assert(b1.vals(w, w_approx_coeffs@) == b0.vals(w, w_approx_coeffs@));
            assert(b1.vals(w, h_words@) == b0.vals(w, h_words@));
            assert(bh.vals(w, w_approx_coeffs@) == b1.vals(w, w_approx_coeffs@));
            assert(bh.vals(w, h_coeffs@) == expanded_hint(
                packed_bytes(b0.vals(w, h_words@), 84),
                256,
                4,
                80,
            ));
            lemma_w1_vals(
                b2,
                w,
                w1_prime@,
                expanded_hint(packed_bytes(b0.vals(w, h_words@), 84), 256, 4, 80),
                b0.vals(w, w_approx_coeffs@),
            );
        }
    }
    let sample_in_ball = mldsa44_one_block_w1encode_hash_sparse_relation_impl(
        builder,
        c_tilde,
        mu_words,
        w1_prime.as_slice(),
        false,
    );
    proof {
        lemma_vals_kept(*builder, b2, z_packed_y@);
        lemma_vals_kept(*builder, b2, w1_prime@);
        assert forall|w: Seq<u64>|
            #![trigger builder.accepts(w)]
            b2.vals(w, c_tilde@) == b0.vals(w, c_tilde@) && b2.vals(w, mu_words@) == b0.vals(
                w,
                mu_words@,
            ) && builder.vals(w, z_packed_y@) == z_packed_y_of(b0.vals(w, z_words@))
                && builder.vals(w, w1_prime@) == b2.vals(w, w1_prime@) by {
            assert(b2.vals(w, c_tilde@) == b1.vals(w, c_tilde@));
            assert(b1.vals(w, c_tilde@) == b0.vals(w, c_tilde@));
            assert(b2.vals(w, mu_words@) == b1.vals(w, mu_words@));
            assert(b1.vals(w, mu_words@) == b0.vals(w, mu_words@));
            assert(builder.vals(w, z_packed_y@) == b2.vals(w, z_packed_y@));
            assert(b2.vals(w, z_packed_y@) == b1.vals(w, z_packed_y@));
        }
    }
    Mldsa44BitHeavyCircuit { z_packed_y, w1_prime, sample_in_ball }
}

/// Full ML-DSA-44 bit-heavy relation with canonical packed hint bytes and redundant expanded hidden
/// hint bits.
#[verifier::spinoff_prover]
#[verifier::rlimit(40)]
pub fn mldsa44_full_bit_heavy_one_block_canonical_hint_matched_relation(
    builder: &mut CircuitBuilder,
    c_tilde: &[Wire],
    z_words: &[Wire],
    h_words: &[Wire],
    h_coeffs: &[Wire],
    mu_words: &[Wire],
    w_approx_coeffs: &[Wire],
) -> (r: Mldsa44BitHeavyCircuit)
    requires
        old(builder).wf(),
        old(builder).has_all(c_tilde@),
        old(builder).has_all(z_words@),
        old(builder).has_all(h_words@),
        old(builder).has_all(h_coeffs@),
        h_words@.len() == mldsa44::HINT_WORDS,
        h_coeffs@.len() == mldsa44::W1_COEFFICIENTS,
        old(builder).has_all(mu_words@),
        old(builder).has_all(w_approx_coeffs@),
        c_tilde@.len() == 4,
        z_words@.len() == mldsa44::Z_PACKED_WORDS,
        mu_words@.len() == mldsa44::MU_WORDS,
        w_approx_coeffs@.len() == mldsa44::W1_COEFFICIENTS,
    ensures
        final(builder).extends(*old(builder)),
        final(builder).has_all(r.z_packed_y@),
        final(builder).has_all(r.w1_prime@),
        final(builder).has_all(r.sample_in_ball.positions@),
        final(builder).has_all(r.sample_in_ball.signs@),
        final(builder).has_all(r.sample_in_ball.draw_counts@),
        final(builder).adds_inputs(*old(builder), r.sample_in_ball.draw_counts@),
        forall|w: Seq<u64>|
            #[trigger] final(builder).accepts(w) == (old(builder).accepts(w) && z_norm_ok(
                z_packed_y_of(old(builder).vals(w, z_words@)),
            ) && hint_matches(
                packed_bytes(old(builder).vals(w, h_words@), 84),
                old(builder).vals(w, h_coeffs@),
                256,
                4,
                80,
            ) && all_below_q(
                old(builder).vals(w, w_approx_coeffs@),
            ) && hash_relation(
                old(builder).vals(w, c_tilde@),
                hash_input(
                    old(builder).vals(w, mu_words@),
                    w1_of(
                        old(builder).vals(w, h_coeffs@),
                        old(builder).vals(w, w_approx_coeffs@),
                    ),
                ),
                final(builder).vals(w, r.sample_in_ball.draw_counts@),
            )),
        forall|w: Seq<u64>|
            #[trigger] final(builder).accepts(w) ==> {
                &&& final(builder).vals(w, r.z_packed_y@) == z_packed_y_of(
                    old(builder).vals(w, z_words@),
                )
                &&& final(builder).vals(w, r.w1_prime@) == w1_of(
                    old(builder).vals(w, h_coeffs@),
                    old(builder).vals(w, w_approx_coeffs@),
                )
                &&& carries_sparse_challenge(
                    *final(builder),
                    r.sample_in_ball,
                    w,
                    stream44(old(builder).vals(w, c_tilde@)),
                )
            },
{
    let ghost b0 = *builder;
    let z_packed_y = assert_mldsa44_z_packed_bytes_norm(builder, z_words);
    let ghost b1 = *builder;
    proof {
        lemma_vals_kept(b1, b0, c_tilde@);
        lemma_vals_kept(b1, b0, mu_words@);
        lemma_vals_kept(b1, b0, w_approx_coeffs@);
        lemma_vals_kept(b1, b0, h_words@);
        lemma_vals_kept(b1, b0, h_coeffs@);
    }
    assert_mldsa44_hint_canonical_matches_expanded(builder, h_words, h_coeffs);
    let ghost bh = *builder;
    proof {
        lemma_vals_kept(bh, b1, h_coeffs@);
        lemma_vals_kept(bh, b1, w_approx_coeffs@);
        lemma_vals_kept(bh, b1, c_tilde@);
        lemma_vals_kept(bh, b1, mu_words@);
        lemma_vals_kept(bh, b1, z_packed_y@);
    }
    let w1_prime = mldsa44_use_hint_checked(builder, h_coeffs, w_approx_coeffs);
    let ghost b2 = *builder;
    proof {
        lemma_vals_kept(b2, b1, c_tilde@);
        lemma_vals_kept(b2, b1, mu_words@);
        lemma_vals_kept(b2, b1, z_packed_y@);
        assert forall|w: Seq<u64>| #[trigger]
            b2.accepts(w) == (b1.accepts(w) && hint_matches(
                packed_bytes(b0.vals(w, h_words@), 84),
                b0.vals(w, h_coeffs@),
                256,
                4,
                80,
            )
            && all_below_q(b0.vals(w, w_approx_coeffs@))) by {
            assert(b1.vals(w, w_approx_coeffs@) == b0.vals(w, w_approx_coeffs@));
            assert(b1.vals(w, h_words@) == b0.vals(w, h_words@));
            assert(b1.vals(w, h_coeffs@) == b0.vals(w, h_coeffs@));
            assert(bh.vals(w, h_coeffs@) == b1.vals(w, h_coeffs@));
            assert(bh.vals(w, w_approx_coeffs@) == b1.vals(w, w_approx_coeffs@));
        }
        assert forall|w: Seq<u64>| #[trigger] b2.accepts(w) implies b2.vals(w, w1_prime@) == w1_of(
            b0.vals(w, h_coeffs@),
            b0.vals(w, w_approx_coeffs@),
        ) && all_at_most(b2.vals(w, w1_prime@), 63) by {
            assert(b1.vals(w, w_approx_coeffs@) == b0.vals(w, w_approx_coeffs@));
            assert(b1.vals(w, h_words@) == b0.vals(w, h_words@));
            assert(b1.vals(w, h_coeffs@) == b0.vals(w, h_coeffs@));
            assert(bh.vals(w, h_coeffs@) == b1.vals(w, h_coeffs@));
            assert(bh.vals(w, w_approx_coeffs@) == b1.vals(w, w_approx_coeffs@));
            lemma_w1_vals(
                b2,
                w,
                w1_prime@,
                b0.vals(w, h_coeffs@),
                b0.vals(w, w_approx_coeffs@),
            );
        }
    }
    let sample_in_ball = mldsa44_one_block_w1encode_hash_sparse_relation_impl(
        builder,
        c_tilde,
        mu_words,
        w1_prime.as_slice(),
        false,
    );
    proof {
        lemma_vals_kept(*builder, b2, z_packed_y@);
        lemma_vals_kept(*builder, b2, w1_prime@);
        assert forall|w: Seq<u64>|
            #![trigger builder.accepts(w)]
            b2.vals(w, c_tilde@) == b0.vals(w, c_tilde@) && b2.vals(w, mu_words@) == b0.vals(
                w,
                mu_words@,
            ) && builder.vals(w, z_packed_y@) == z_packed_y_of(b0.vals(w, z_words@))
                && builder.vals(w, w1_prime@) == b2.vals(w, w1_prime@) by {
            assert(b2.vals(w, c_tilde@) == b1.vals(w, c_tilde@));
            assert(b1.vals(w, c_tilde@) == b0.vals(w, c_tilde@));
            assert(b2.vals(w, mu_words@) == b1.vals(w, mu_words@));
            assert(b1.vals(w, mu_words@) == b0.vals(w, mu_words@));
            assert(builder.vals(w, z_packed_y@) == b2.vals(w, z_packed_y@));
            assert(b2.vals(w, z_packed_y@) == b1.vals(w, z_packed_y@));
        }
    }
    Mldsa44BitHeavyCircuit { z_packed_y, w1_prime, sample_in_ball }
}

} // verus!
