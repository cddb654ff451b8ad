//! Honest proofs are accepted: along any challenges the prover's last claim is the polynomial that
//! the verifier recomputes.
use super::batch::{batched_value, BatchedPolynomial, Table};
use super::blocks::{output_value, round_value};
use super::claims::{folded_lanes, is_bit_claim, lemma_words_at, mixed_eval_of, words_at};
use super::grouped_round::{
    group_value, inputs_at, is_group_polynomial, lemma_group_claim, lemma_group_terms_value,
    reduction_fault, GroupedRoundReduction,
};
use super::parallel_groups::round_at;
use super::parallel_laws::{lemma_layer_claim, lemma_layer_value};
use super::protocol::{batched_claim, layer_value, ParallelProtocol};
use super::rotation::bit_weights_of;
use super::round_check::{claim_before, round_passes, rounds_pass};
use super::sumcheck::{
    claim_of, coeffs_at, interpolated, polynomial_folds, round_at_inf, round_at_one, RoundCoeffs,
};
use super::sumcheck_laws::{
    lemma_interpolated_agrees, lemma_round_keeps_claim, lemma_table_fold, lemma_table_single,
    table_at,
};
use crate::field::BinaryField;
use crate::keccak_prove::trace::{round_state, State};
use crate::math::multilinear::eq_weight;
use crate::math::poly::lemma_equal;
use crate::math::sums::{lemma_sum_ext, lemma_zero, sum};
use vstd::arithmetic::power2::{lemma2_to64, lemma_pow2_unfold, pow2};
use vstd::prelude::*;

verus! {

/// The round polynomial that an honest prover sends for a claim.
pub open spec fn honest_message<F: BinaryField>(
    poly: BatchedPolynomial<F>,
    claim: F,
    point: Seq<F>,
) -> RoundCoeffs<F> {
    interpolated(claim, point.last(), round_at_one(poly, point), round_at_inf(poly, point))
}

/// One round of an honest prover: the next claim is the round polynomial at the challenge, and the
/// highest variable is bound to it.
pub open spec fn is_honest_round<F: BinaryField>(
    pre: BatchedPolynomial<F>,
    claim: F,
    post: BatchedPolynomial<F>,
    next_claim: F,
    point: Seq<F>,
    challenge: F,
) -> bool {
    &&& polynomial_folds(pre, post, challenge)
    &&& next_claim == coeffs_at(honest_message(pre, claim, point), challenge)
}

/// The rounds of an honest prover, one for each coordinate of the point, from the highest down.
pub open spec fn is_honest_run<F: BinaryField>(
    polys: Seq<BatchedPolynomial<F>>,
    claims: Seq<F>,
    point: Seq<F>,
    challenges: Seq<F>,
) -> bool {
    let n = point.len() as int;
    &&& challenges.len() == n
    &&& polys.len() == n + 1
    &&& claims.len() == n + 1
    &&& forall|i: int|
        0 <= i < n ==> is_honest_round(
            #[trigger] polys[i],
            claims[i],
            polys[i + 1],
            claims[i + 1],
            point.take(n - i),
            challenges[i],
        )
}

proof fn lemma_folded_wf<F: BinaryField>(
    pre: BatchedPolynomial<F>,
    post: BatchedPolynomial<F>,
    t: F,
    n: nat,
)
    requires
        pre.wf(pow2(n + 1)),
        polynomial_folds(pre, post, t),
    ensures
        post.wf(pow2(n)),
{
    lemma_pow2_unfold(n + 1);
    assert forall|k: int| 0 <= k < post.tables@.len() implies (#[trigger] post.tables@[k]).wf()
        && post.tables@[k].size() == pow2(n) by {
        assert(pre.tables@[k].folds_to(post.tables@[k], t));
        assert(pre.tables@[k].size() == pow2(n + 1));
    }
    assert forall|k: int| 0 <= k < post.round_terms@.len() implies (
    #[trigger] post.round_terms@[k]).table < post.tables@.len() && post.round_terms@[k].round
        < 24 by {
        assert(pre.round_terms@[k].table < pre.tables@.len());
    }
    assert forall|k: int| 0 <= k < post.output_terms@.len() implies (
    #[trigger] post.output_terms@[k]).table < post.tables@.len() by {
        assert(pre.output_terms@[k].table < pre.tables@.len());
    }
}

proof fn lemma_next_point<F>(point: Seq<F>, challenges: Seq<F>, j: int)
    requires
        0 <= j < point.len(),
        challenges.len() == point.len(),
    ensures
        point.take(point.len() - j).drop_last() == point.take(point.len() - j - 1),
        challenges.skip(j + 1).reverse().push(challenges[j]) == challenges.skip(j).reverse(),
        challenges.skip(j + 1).reverse().len() == point.len() - j - 1,
{
    assert(point.take(point.len() - j).drop_last() =~= point.take(point.len() - j - 1));
    assert(challenges.skip(j + 1).reverse().push(challenges[j]) =~= challenges.skip(
        j,
    ).reverse());
}

/// The round polynomials of an honest run, in the order in which they are sent.
pub open spec fn honest_messages<F: BinaryField>(
    polys: Seq<BatchedPolynomial<F>>,
    claims: Seq<F>,
    point: Seq<F>,
) -> Seq<RoundCoeffs<F>> {
    Seq::new(
        point.len(),
        |i: int| honest_message(polys[i], claims[i], point.take(point.len() - i)),
    )
}

/// The verifier's round checks pass on an honest run, whatever its claim, where no coordinate of
/// the point is one: every round polynomial agrees with the claim before it, and the evaluation that
/// is left is the prover's last claim.
pub proof fn lemma_honest_rounds_pass<F: BinaryField>(
    polys: Seq<BatchedPolynomial<F>>,
    claims: Seq<F>,
    point: Seq<F>,
    challenges: Seq<F>,
)
    requires
        is_honest_run(polys, claims, point, challenges),
        forall|k: int| 0 <= k < point.len() ==> #[trigger] point[k] != F::one_of(),
    ensures
        rounds_pass(point, claims[0], honest_messages(polys, claims, point), challenges),
        claim_before(
            claims[0],
            honest_messages(polys, claims, point),
            challenges,
            point.len() as int,
        ) == claims.last(),
{
    let n = point.len() as int;
    let messages = honest_messages(polys, claims, point);
    assert forall|i: int| 0 <= i <= n implies #[trigger] claim_before(
        claims[0],
        messages,
        challenges,
        i,
    ) == claims[i] by {
        if i > 0 {
            assert(is_honest_round(
                polys[i - 1],
                claims[i - 1],
                polys[i - 1 + 1],
                claims[i - 1 + 1],
                point.take(n - (i - 1)),
                challenges[i - 1],
            ));
            assert(messages[i - 1] == honest_message(
                polys[i - 1],
                claims[i - 1],
                point.take(n - (i - 1)),
            ));
        }
    }
    assert forall|i: int| 0 <= i < n implies round_passes(
        #[trigger] messages[i],
        point[n - 1 - i],
        claim_before(claims[0], messages, challenges, i),
    ) by {
        let here = point.take(n - i);
        assert(here.last() == point[n - 1 - i]);
        assert(claim_before(claims[0], messages, challenges, i) == claims[i]);
        lemma_interpolated_agrees(
            claims[i],
            here.last(),
            round_at_one(polys[i], here),
            round_at_inf(polys[i], here),
        );
    }
}

/// After `i` rounds the rest of the tables evaluates as the whole, whatever the claim was.
#[verifier::spinoff_prover]
proof fn lemma_run_tables<F: BinaryField>(
    polys: Seq<BatchedPolynomial<F>>,
    claims: Seq<F>,
    point: Seq<F>,
    challenges: Seq<F>,
    i: int,
)
    requires
        0 <= i <= point.len(),
        is_honest_run(polys, claims, point, challenges),
        polys[0].wf(pow2(point.len())),
    ensures
        polys[i].wf(pow2((point.len() - i) as nat)),
        polys[i].round_terms == polys[0].round_terms,
        polys[i].output_terms == polys[0].output_terms,
        polys[i].bit_weights == polys[0].bit_weights,
        polys[i].tables@.len() == polys[0].tables@.len(),
        forall|k: int|
            0 <= k < polys[0].tables@.len() ==> table_at(
                #[trigger] polys[i].tables@[k],
                challenges.skip(i).reverse(),
            ) == table_at(polys[0].tables@[k], challenges.reverse()),
    decreases i,
{
    let n = point.len() as int;
    if i == 0 {
        assert(challenges.skip(0) =~= challenges);
    } else {
        let j = i - 1;
        lemma_run_tables(polys, claims, point, challenges, j);
        let (pre, post) = (polys[j], polys[j + 1]);
        assert(is_honest_round(
            pre,
            claims[j],
            post,
            claims[j + 1],
            point.take(n - j),
            challenges[j],
        ));
        lemma_next_point(point, challenges, j);
        lemma_folded_wf(pre, post, challenges[j], (n - i) as nat);
        let low = challenges.skip(i).reverse();
        assert forall|k: int| 0 <= k < polys[0].tables@.len() implies table_at(
            #[trigger] polys[i].tables@[k],
            low,
        ) == table_at(polys[0].tables@[k], challenges.reverse()) by {
            assert(pre.tables@[k].folds_to(post.tables@[k], challenges[j]));
            assert(pre.tables@[k].size() == pow2((n - j) as nat));
            lemma_table_fold(pre.tables@[k], post.tables@[k], low, challenges[j]);
        }
    }
}

/// After `i` rounds the claim is that of the polynomial with the first `i` challenges bound.
#[verifier::spinoff_prover]
proof fn lemma_run_claim<F: BinaryField>(
    polys: Seq<BatchedPolynomial<F>>,
    claims: Seq<F>,
    point: Seq<F>,
    challenges: Seq<F>,
    i: int,
)
    requires
        0 <= i <= point.len(),
        is_honest_run(polys, claims, point, challenges),
        polys[0].wf(pow2(point.len())),
        claims[0] == claim_of(polys[0], point),
        forall|k: int| 0 <= k < point.len() ==> #[trigger] point[k] != F::one_of(),
    ensures
        claims[i] == claim_of(polys[i], point.take(point.len() - i)),
    decreases i,
{
    let n = point.len() as int;
    if i == 0 {
        assert(point.take(n) =~= point);
    } else {
        let j = i - 1;
        lemma_run_claim(polys, claims, point, challenges, j);
        lemma_run_tables(polys, claims, point, challenges, j);
        let here = point.take(n - j);
        assert(is_honest_round(
            polys[j],
            claims[j],
            polys[j + 1],
            claims[j + 1],
            here,
            challenges[j],
        ));
        assert(here.last() == point[n - j - 1]);
        lemma_round_keeps_claim(polys[j], polys[j + 1], here, challenges[j]);
        lemma_next_point(point, challenges, j);
    }
}

/// Once every variable is bound, each table is left with its multilinear extension at the
/// challenges, the last one first, whatever the claim was.
pub proof fn lemma_honest_tables<F: BinaryField>(
    polys: Seq<BatchedPolynomial<F>>,
    claims: Seq<F>,
    point: Seq<F>,
    challenges: Seq<F>,
)
    requires
        is_honest_run(polys, claims, point, challenges),
        polys[0].wf(pow2(point.len())),
    ensures
        polys.last().bit_weights == polys[0].bit_weights,
        polys.last().tables@.len() == polys[0].tables@.len(),
        forall|k: int|
            0 <= k < polys[0].tables@.len() ==> (#[trigger] polys.last().tables@[k]).block(0)
                == table_at(polys[0].tables@[k], challenges.reverse()),
{
    let n = point.len() as int;
    lemma_run_tables(polys, claims, point, challenges, n);
    lemma2_to64();
    let last = polys[n];
    assert(challenges.skip(n).reverse() =~= Seq::<F>::empty());
    assert forall|k: int| 0 <= k < polys[0].tables@.len() implies (
    #[trigger] last.tables@[k]).block(0) == table_at(
        polys[0].tables@[k],
        challenges.reverse(),
    ) by {
        assert(last.tables@[k].wf() && last.tables@[k].size() == 1);
        lemma_table_single(last.tables@[k]);
    }
}

/// The last claim of an honest run on a true claim is the polynomial on the tables at the
/// challenges, the last one first, where no coordinate of the point is one.
pub proof fn lemma_honest_run<F: BinaryField>(
    polys: Seq<BatchedPolynomial<F>>,
    claims: Seq<F>,
    point: Seq<F>,
    challenges: Seq<F>,
)
    requires
        is_honest_run(polys, claims, point, challenges),
        polys[0].wf(pow2(point.len())),
        claims[0] == claim_of(polys[0], point),
        forall|k: int| 0 <= k < point.len() ==> #[trigger] point[k] != F::one_of(),
    ensures
        claims.last() == batched_value(
            |t: int| table_at(polys[0].tables@[t], challenges.reverse()),
            polys[0].round_terms@,
            polys[0].output_terms@,
            polys[0].bit_weights@,
        ),
{
    let n = point.len() as int;
    lemma_run_claim(polys, claims, point, challenges, n);
    lemma_run_tables(polys, claims, point, challenges, n);
    lemma_honest_tables(polys, claims, point, challenges);
    lemma2_to64();
    let last = polys[n];
    let empty = Seq::<F>::empty();
    assert(point.take(0) =~= empty);
    let blocks = |t: int| table_at(polys[0].tables@[t], challenges.reverse());
    // the claim at the empty point is the value on the only instance
    let f = |i: int| eq_weight(empty, i).times(last.value(i));
    assert(sum(f, 1) == sum(f, 0).plus(f(0)));
    lemma_zero(last.value(0));
    lemma_zero(f(0));
    assert(claim_of(last, empty) == last.value(0)) by {
        lemma_sum_ext(|i: int| eq_weight(empty, i).times(last.value(i)), f, 1);
    }
    lemma_same_blocks(last.blocks_at(0), blocks, polys[0]);
}

proof fn lemma_same_blocks<F: BinaryField>(
    a: spec_fn(int) -> Seq<F>,
    b: spec_fn(int) -> Seq<F>,
    poly: BatchedPolynomial<F>,
)
    requires
        forall|k: int| 0 <= k < poly.tables@.len() ==> #[trigger] a(k) == b(k),
        forall|t: int|
            0 <= t < poly.round_terms@.len() ==> (#[trigger] poly.round_terms@[t]).table
                < poly.tables@.len(),
        forall|t: int|
            0 <= t < poly.output_terms@.len() ==> (#[trigger] poly.output_terms@[t]).table
                < poly.tables@.len(),
    ensures
        batched_value(a, poly.round_terms@, poly.output_terms@, poly.bit_weights@)
            == batched_value(b, poly.round_terms@, poly.output_terms@, poly.bit_weights@),
{
    let (rounds, outs, bw) = (poly.round_terms@, poly.output_terms@, poly.bit_weights@);
    let ra = |t: int|
        rounds[t].coeff.times(
            round_value(
                a(rounds[t].table as int),
                rounds[t].lane_weights@,
                rounds[t].round as int,
                bw,
            ),
        );
    let rb = |t: int|
        rounds[t].coeff.times(
            round_value(
                b(rounds[t].table as int),
                rounds[t].lane_weights@,
                rounds[t].round as int,
                bw,
            ),
        );
    assert forall|t: int| 0 <= t < rounds.len() implies #[trigger] ra(t) == rb(t) by {
        assert(a(rounds[t].table as int) == b(rounds[t].table as int));
    }
    lemma_sum_ext(ra, rb, rounds.len());
    let oa = |u: int|
        outs[u].coeff.times(output_value(a(outs[u].table as int), outs[u].lane_weights@, bw));
    let ob = |u: int|
        outs[u].coeff.times(output_value(b(outs[u].table as int), outs[u].lane_weights@, bw));
    assert forall|u: int| 0 <= u < outs.len() implies #[trigger] oa(u) == ob(u) by {
        assert(a(outs[u].table as int) == b(outs[u].table as int));
    }
    lemma_sum_ext(oa, ob, outs.len());
}

/// An honest group proof on a valid trace is accepted, where no coordinate of the point is one:
/// every round polynomial passes its check, the value that must be zero is zero, and both sides end
/// with the folded lane evaluations of the group's input at the reduced point.
pub proof fn lemma_group_complete<F: BinaryField>(
    polys: Seq<BatchedPolynomial<F>>,
    claims: Seq<F>,
    point: Seq<F>,
    challenges: Seq<F>,
    round_inputs: Seq<&[State]>,
    outputs: Seq<State>,
    bit_weights: [F; 64],
    lane_weights: [F; 25],
    tw: Seq<F>,
    round_start: int,
)
    requires
        round_inputs.len() > 0,
        0 <= round_start,
        round_start + round_inputs.len() <= 24,
        is_honest_run(polys, claims, point, challenges),
        polys[0].wf(pow2(point.len())),
        is_group_polynomial(polys[0], round_inputs, bit_weights, lane_weights, tw, round_start),
        claims[0] == mixed_eval_of(
            lane_weights@,
            folded_lanes(words_at(outputs, point), bit_weights@),
        ),
        forall|r: int, i: int|
            0 <= r < round_inputs.len() && 0 <= i < pow2(point.len()) ==> (if r + 1
                < round_inputs.len() {
                round_inputs[r + 1]@[i]@
            } else {
                outputs[i]@
            }) == round_state((#[trigger] round_inputs[r]@[i])@, round_start + r),
        forall|k: int| 0 <= k < point.len() ==> #[trigger] point[k] != F::one_of(),
    ensures
        group_value(
            inputs_at(round_inputs, challenges.reverse()),
            lane_weights@,
            tw,
            round_start,
            round_inputs.len() as int,
            bit_weights@,
        ).plus(claims.last()) == F::zero_of(),
        rounds_pass(point, claims[0], honest_messages(polys, claims, point), challenges),
        claim_before(
            claims[0],
            honest_messages(polys, claims, point),
            challenges,
            point.len() as int,
        ) == claims.last(),
        folded_lanes(polys.last().tables@[0].block(0), polys.last().bit_weights@) == folded_lanes(
            words_at(round_inputs[0]@, challenges.reverse()),
            bit_weights@,
        ),
{
    let k = round_inputs.len() as int;
    let poly = polys[0];
    lemma_honest_rounds_pass(polys, claims, point, challenges);
    lemma_honest_tables(polys, claims, point, challenges);
    lemma_group_claim(
        poly,
        round_inputs,
        outputs,
        point,
        bit_weights,
        lane_weights,
        tw,
        round_start,
    );
    lemma_honest_run(polys, claims, point, challenges);
    let rp = challenges.reverse();
    let a = |t: int| table_at(poly.tables@[t], rp);
    let b = inputs_at(round_inputs, rp);
    assert forall|t: int| 0 <= t < poly.tables@.len() implies #[trigger] a(t) == b(t) by {
        let w = poly.tables@[t]->Words_0;
        assert(poly.tables@[t] is Words);
        assert(poly.tables@[t] == Table::<F>::Words(w));
        assert(poly.tables@[t].size() == pow2(point.len()));
        lemma_words_at::<F>(w, rp);
    }
    assert(polys.last().tables@[0].block(0) == a(0) && a(0) == b(0));
    lemma_same_blocks(a, b, poly);
    lemma_group_terms_value(
        b,
        poly.round_terms@,
        poly.output_terms@,
        lane_weights,
        tw,
        round_start,
        k,
        bit_weights@,
    );
    let v = group_value(b, lane_weights@, tw, round_start, k, bit_weights@);
    lemma_equal(v, claims.last());
}

/// A group reduction is accepted as a whole: where its claim is the lane claim of the group's output
/// on a valid trace, and no coordinate of the claim's point is one, the verifier's rounds pass on
/// what an honest prover sends, its value that must be zero is zero, and the input evaluations of
/// both sides are those of the lane claim of the group's input at the reduced point.
pub proof fn lemma_group_reduction_accepted<F: BinaryField>(
    polys: Seq<BatchedPolynomial<F>>,
    claims: Seq<F>,
    challenges: Seq<F>,
    round_inputs: Seq<&[State]>,
    outputs: Seq<State>,
    reduction: GroupedRoundReduction<F>,
)
    requires
        reduction_fault(round_inputs, outputs.len(), reduction) is None,
        is_honest_run(polys, claims, reduction.output_claim.high_point@, challenges),
        polys[0].wf(pow2(reduction.output_claim.high_point@.len())),
        polys[0].bit_weights@ == bit_weights_of(reduction.output_claim.bit_challenge),
        is_group_polynomial(
            polys[0],
            round_inputs,
            polys[0].bit_weights,
            reduction.output_claim.lane_weights,
            reduction.transition_weights@,
            reduction.round_start as int,
        ),
        claims[0] == reduction.output_claim.mixed_eval,
        is_bit_claim(
            reduction.output_claim,
            reduction.output_claim.bit_challenge,
            reduction.output_claim.high_point@,
            reduction.output_claim.lane_weights@,
            folded_lanes(
                words_at(outputs, reduction.output_claim.high_point@),
                bit_weights_of(reduction.output_claim.bit_challenge),
            ),
        ),
        forall|r: int, i: int|
            0 <= r < round_inputs.len() && 0 <= i < outputs.len() ==> (if r + 1
                < round_inputs.len() {
                round_inputs[r + 1]@[i]@
            } else {
                outputs[i]@
            }) == round_state((#[trigger] round_inputs[r]@[i])@, reduction.round_start + r),
        forall|k: int|
            0 <= k < reduction.output_claim.high_point@.len()
                ==> #[trigger] reduction.output_claim.high_point@[k] != F::one_of(),
    ensures
        rounds_pass(
            reduction.output_claim.high_point@,
            reduction.output_claim.mixed_eval,
            honest_messages(polys, claims, reduction.output_claim.high_point@),
            challenges,
        ),
        group_value(
            inputs_at(round_inputs, challenges.reverse()),
            reduction.output_claim.lane_weights@,
            reduction.transition_weights@,
            reduction.round_start as int,
            reduction.group_size as int,
            bit_weights_of(reduction.output_claim.bit_challenge),
        ).plus(
            claim_before(
                reduction.output_claim.mixed_eval,
                honest_messages(polys, claims, reduction.output_claim.high_point@),
                challenges,
                challenges.len() as int,
            ),
        ) == F::zero_of(),
        folded_lanes(polys.last().tables@[0].block(0), polys.last().bit_weights@) == folded_lanes(
            words_at(round_inputs[0]@, challenges.reverse()),
            bit_weights_of(reduction.output_claim.bit_challenge),
        ),
{
    lemma_group_complete(
        polys,
        claims,
        reduction.output_claim.high_point@,
        challenges,
        round_inputs,
        outputs,
        polys[0].bit_weights,
        reduction.output_claim.lane_weights,
        reduction.transition_weights@,
        reduction.round_start as int,
    );
}

/// An honest proof of a layer of the parallel protocol on a valid trace is accepted, where no
/// coordinate of the point is one: every round polynomial passes its check, and the value that must
/// be zero is zero.
pub proof fn lemma_layer_complete<F: BinaryField>(
    p: ParallelProtocol<'_, F>,
    polys: Seq<BatchedPolynomial<F>>,
    claims: Seq<F>,
    point: Seq<F>,
    challenges: Seq<F>,
)
    requires
        p.wf(),
        p.phase is MleCheck,
        p.trace.valid(),
        is_honest_run(polys, claims, point, challenges),
        polys[0].wf(pow2(point.len())),
        p.is_layer_polynomial(polys[0]),
        polys[0].bit_weights == p.bit_weights,
        claims[0] == batched_claim(p.batch_weights@, p.claims@),
        pow2(point.len()) == p.trace.final_output@.len(),
        forall|g: int|
            0 <= g < p.n_groups ==> is_bit_claim(
                #[trigger] p.claims@[g],
                p.bit_challenge,
                point,
                p.claims@[g].lane_weights@,
                folded_lanes(
                    words_at(
                        p.trace.states(
                            round_at(g, p.group_size as int, p.layer as int) + 1,
                        ),
                        point,
                    ),
                    p.bit_weights@,
                ),
            ),
        forall|k: int| 0 <= k < point.len() ==> #[trigger] point[k] != F::one_of(),
    ensures
        layer_value(
            *p.trace,
            p.group_size as int,
            p.layer as int,
            p.claims@,
            p.batch_weights@,
            p.residual_weights@,
            p.bit_weights@,
            challenges.reverse(),
        ).plus(claims.last()) == F::zero_of(),
        rounds_pass(point, claims[0], honest_messages(polys, claims, point), challenges),
        claim_before(
            claims[0],
            honest_messages(polys, claims, point),
            challenges,
            point.len() as int,
        ) == claims.last(),
{
    let poly = polys[0];
    lemma_honest_rounds_pass(polys, claims, point, challenges);
    lemma_layer_claim(p, poly, point);
    lemma_honest_run(polys, claims, point, challenges);
    let rp = challenges.reverse();
    lemma_layer_value(p, poly, rp);
    let a = |t: int| table_at(poly.tables@[t], rp);
    let b = |t: int| words_at(poly.tables@[t]->Words_0@, rp);
    assert forall|t: int| 0 <= t < poly.tables@.len() implies #[trigger] a(t) == b(t) by {
        let w = poly.tables@[t]->Words_0;
        if t >= p.n_groups {
            let m = t - p.n_groups;
            assert(poly.tables@[p.n_groups + m] is Words);
        }
        assert(poly.tables@[t] is Words);
        assert(poly.tables@[t] == Table::<F>::Words(w));
        assert(poly.tables@[t].size() == pow2(point.len()));
        lemma_words_at::<F>(w, rp);
    }
    lemma_same_blocks(a, b, poly);
    let v = layer_value(
        *p.trace,
        p.group_size as int,
        p.layer as int,
        p.claims@,
        p.batch_weights@,
        p.residual_weights@,
        p.bit_weights@,
        rp,
    );
    lemma_equal(v, claims.last());
}

} // verus!
