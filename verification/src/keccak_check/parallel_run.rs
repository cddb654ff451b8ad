//! Whole runs of the parallel protocol: the claims of every layer are true of the trace, so that the
//! endpoint claims are those of the permutation's input and output, and the verifier accepts what an
//! honest prover sends.
use super::batch::{BatchedPolynomial, Table};
use super::claims::{folded_lanes, is_bit_claim, lemma_words_at, words_at, BitIndexedMixedClaim};
use super::completeness::{honest_messages, is_honest_run, lemma_honest_tables, lemma_layer_complete};
use super::parallel_groups::{lemma_group_bounds, round_at};
use super::protocol::{batched_claim, group_share, layer_value, same_claim, ParallelProtocol, Phase};
use super::rotation::bit_weights_of;
use super::round_check::{claim_before, rounds_pass};
use super::sumcheck::RoundCoeffs;
use super::sumcheck_laws::table_at;
use crate::field::BinaryField;
use crate::keccak_prove::trace::State;
use crate::math::sums::lemma_sum_ext;
use vstd::arithmetic::power2::pow2;
use vstd::prelude::*;

verus! {

/// Whether the claim of every group is true at a point: it holds the folded lane evaluations of the
/// states after the group's round of the layer.
pub open spec fn claims_hold<F: BinaryField>(p: ParallelProtocol<'_, F>, point: Seq<F>) -> bool {
    &&& p.bit_weights@ == bit_weights_of(p.bit_challenge)
    &&& pow2(point.len()) == p.trace.final_output@.len()
    &&& forall|g: int|
        0 <= g < p.n_groups ==> is_bit_claim(
            #[trigger] p.claims@[g],
            p.bit_challenge,
            point,
            p.claims@[g].lane_weights@,
            folded_lanes(
                words_at(
                    p.trace.states(round_at(g, p.group_size as int, p.layer as int) + 1),
                    point,
                ),
                p.bit_weights@,
            ),
        )
}

/// Whether a claim is the lane claim of a batch of states at its own point and weights.
pub open spec fn is_lane_claim<F: BinaryField>(
    c: BitIndexedMixedClaim<F>,
    words: Seq<State>,
    bit_challenge: F,
) -> bool {
    is_bit_claim(
        c,
        bit_challenge,
        c.high_point@,
        c.lane_weights@,
        folded_lanes(words_at(words, c.high_point@), bit_weights_of(bit_challenge)),
    )
}

/// After the setup the claims of the first layer are true, and the claim on the output is the lane
/// claim of the permutation's output.
pub proof fn lemma_setup_claims<F: BinaryField>(
    pre: ParallelProtocol<'_, F>,
    post: ParallelProtocol<'_, F>,
    bit_challenge: F,
    high_point: Seq<F>,
    weights: Seq<[F; 25]>,
)
    requires
        pre.layer == 0,
        pow2(high_point.len()) == pre.trace.final_output@.len(),
        post.set_up_by(pre, bit_challenge, high_point, weights),
    ensures
        claims_hold(post, high_point),
        is_lane_claim(post.output_claim->Some_0, post.trace.final_output@, bit_challenge),
        post.output_claim->Some_0.high_point@ == high_point,
{
    let (n, size) = (post.n_groups as int, post.group_size as int);
    assert forall|g: int| 0 <= g < n implies is_bit_claim(
        #[trigger] post.claims@[g],
        post.bit_challenge,
        high_point,
        post.claims@[g].lane_weights@,
        folded_lanes(
            words_at(post.trace.states(round_at(g, size, 0) + 1), high_point),
            post.bit_weights@,
        ),
    ) by {
        lemma_group_bounds(g, size, n, 0);
    }
    lemma_group_bounds(n - 1, size, n, 0);
    assert(is_bit_claim(
        post.claims@[n - 1],
        bit_challenge,
        high_point,
        weights[n - 1]@,
        folded_lanes(
            words_at(post.trace.states((n - 1 + 1) * size), high_point),
            bit_weights_of(bit_challenge),
        ),
    ));
}

/// Where the evaluations of a layer are true, so are the claims that they are turned into: those of
/// the next layer, or at the last layer the lane claim of the permutation's input.
pub proof fn lemma_next_claims<F: BinaryField>(
    pre: ParallelProtocol<'_, F>,
    post: ParallelProtocol<'_, F>,
    weights: Seq<[F; 25]>,
)
    requires
        pre.wf(),
        pre.phase is NextWeights,
        pre.evals_hold(),
        pre.bit_weights@ == bit_weights_of(pre.bit_challenge),
        post.took_next_weights(pre, weights),
    ensures
        pre.layer < pre.group_size - 1 ==> claims_hold(post, pre.reduced_point@),
        pre.layer == pre.group_size - 1 ==> is_lane_claim(
            post.input_claim->Some_0,
            post.trace.round_inputs@[0]@,
            post.bit_challenge,
        ) && post.input_claim->Some_0.high_point@ == pre.reduced_point@,
{
    let (n, size, layer) = (pre.n_groups as int, pre.group_size as int, pre.layer as int);
    if layer < size - 1 {
        assert forall|g: int| 0 <= g < n implies is_bit_claim(
            #[trigger] post.claims@[g],
            post.bit_challenge,
            pre.reduced_point@,
            post.claims@[g].lane_weights@,
            folded_lanes(
                words_at(post.trace.states(round_at(g, size, layer + 1) + 1), pre.reduced_point@),
                post.bit_weights@,
            ),
        ) by {
            lemma_group_bounds(g, size, n, layer);
            assert(round_at(g, size, layer + 1) + 1 == round_at(g, size, layer));
            assert(pre.input_evals@[g]@ == folded_lanes(
                words_at(
                    pre.trace.round_inputs@[round_at(g, size, layer)]@,
                    pre.reduced_point@,
                ),
                pre.bit_weights@,
            ));
        }
    } else {
        assert(round_at(0, size, layer) == 0);
        assert(pre.input_evals@[0]@ == folded_lanes(
            words_at(pre.trace.round_inputs@[0]@, pre.reduced_point@),
            pre.bit_weights@,
        ));
    }
}

/// One layer of an honest prover's run.
pub struct ProverLayer<'a, F> {
    /// The state in which the weights of the layer are due.
    pub due: ParallelProtocol<'a, F>,
    /// The state in which the evaluation check is due.
    pub weighted: ParallelProtocol<'a, F>,
    /// The state in which the lane weights are due.
    pub reduced: ParallelProtocol<'a, F>,
    /// The batched polynomial before every round of the check, and after the last.
    pub polys: Seq<BatchedPolynomial<F>>,
    /// The claim before every round of the check, and after the last.
    pub claims: Seq<F>,
    /// The challenges of the check.
    pub challenges: Seq<F>,
    /// The lane weights of the reduced claims.
    pub lane_weights: Seq<[F; 25]>,
}

impl<'a, F: BinaryField> ProverLayer<'a, F> {
    /// The point of the layer's claim.
    pub open spec fn point(self) -> Seq<F> {
        self.weighted.claims@[0].high_point@
    }

    /// The round polynomials that are sent.
    pub open spec fn messages(self) -> Seq<RoundCoeffs<F>> {
        honest_messages(self.polys, self.claims, self.point())
    }

    /// Whether the layer was run as the prover runs it.
    pub open spec fn is_run(self) -> bool {
        &&& self.due.wf()
        &&& self.due.phase is LayerWeights
        &&& self.weighted.took_layer_weights(self.due)
        &&& is_honest_run(self.polys, self.claims, self.point(), self.challenges)
        &&& self.polys[0].wf(pow2(self.point().len()))
        &&& self.polys[0].bit_weights == self.weighted.bit_weights
        &&& self.weighted.is_layer_polynomial(self.polys[0])
        &&& self.claims[0] == batched_claim(self.weighted.batch_weights@, self.weighted.claims@)
        &&& self.reduced.took_evals(self.weighted, self.challenges)
        &&& forall|g: int|
            0 <= g < self.reduced.n_groups ==> (#[trigger] self.reduced.input_evals@[g])@
                == folded_lanes(
                self.polys.last().tables@[g].block(0),
                self.polys.last().bit_weights@,
            )
    }
}

/// The evaluations of an honest prover are those of the inputs of the layer's rounds at the reduced
/// point, whatever the trace.
pub proof fn lemma_prover_evals<F: BinaryField>(l: ProverLayer<'_, F>)
    requires
        l.is_run(),
    ensures
        l.reduced.evals_hold(),
{
    let p = l.weighted;
    let rp = l.challenges.reverse();
    lemma_honest_tables(l.polys, l.claims, l.point(), l.challenges);
    assert forall|g: int| 0 <= g < p.n_groups implies (#[trigger] l.reduced.input_evals@[g])@
        == folded_lanes(
        words_at(
            p.trace.round_inputs@[round_at(g, p.group_size as int, p.layer as int)]@,
            rp,
        ),
        p.bit_weights@,
    ) by {
        let t = l.polys[0].tables@[g];
        assert(t is Words);
        assert(t == Table::<F>::Words(t->Words_0));
        assert(t.size() == pow2(l.point().len()));
        lemma_words_at::<F>(t->Words_0, rp);
        assert(l.polys.last().tables@[g].block(0) == table_at(t, rp));
    }
}

/// A run of an honest prover.
pub struct ProverRun<'a, F> {
    /// The first state.
    pub start: ParallelProtocol<'a, F>,
    /// The bit challenge.
    pub bit_challenge: F,
    /// The instance point.
    pub high_point: Seq<F>,
    /// The lane weights of the groups.
    pub weights: Seq<[F; 25]>,
    /// The layers, from the output.
    pub layers: Seq<ProverLayer<'a, F>>,
    /// The last state.
    pub end: ParallelProtocol<'a, F>,
}

impl<'a, F: BinaryField> ProverRun<'a, F> {
    /// Whether the run was taken step by step, whatever the trace.
    pub open spec fn is_run(self) -> bool {
        let n = self.layers.len() as int;
        &&& self.start.wf()
        &&& self.start.phase is Setup
        &&& self.start.layer == 0
        &&& pow2(self.high_point.len()) == self.start.trace.final_output@.len()
        &&& n == self.start.group_size
        &&& self.layers[0].due.set_up_by(
            self.start,
            self.bit_challenge,
            self.high_point,
            self.weights,
        )
        &&& forall|i: int| 0 <= i < n ==> (#[trigger] self.layers[i]).is_run()
        &&& forall|i: int|
            0 <= i < n - 1 ==> self.layers[i + 1].due.took_next_weights(
                (#[trigger] self.layers[i]).reduced,
                self.layers[i].lane_weights,
            )
        &&& self.end.took_next_weights(self.layers[n - 1].reduced, self.layers[n - 1].lane_weights)
    }
}

/// Every layer of an honest run starts from true claims, at the reduced point of the layer before.
pub proof fn lemma_layer_claims_hold<F: BinaryField>(run: ProverRun<'_, F>, i: int)
    requires
        run.is_run(),
        0 <= i < run.layers.len(),
    ensures
        run.layers[i].due.same_setting(run.start),
        run.layers[i].due.bit_challenge == run.bit_challenge,
        run.layers[i].due.layer == i,
        run.layers[i].due.output_claim == run.layers[0].due.output_claim,
        claims_hold(
            run.layers[i].due,
            if i == 0 {
                run.high_point
            } else {
                run.layers[i - 1].challenges.reverse()
            },
        ),
        run.layers[i].point() == (if i == 0 {
            run.high_point
        } else {
            run.layers[i - 1].challenges.reverse()
        }),
    decreases i,
{
    let l = run.layers[i];
    assert(l.is_run());
    if i == 0 {
        lemma_setup_claims(
            run.start,
            l.due,
            run.bit_challenge,
            run.high_point,
            run.weights,
        );
    } else {
        lemma_layer_claims_hold(run, i - 1);
        let before = run.layers[i - 1];
        assert(before.is_run());
        lemma_prover_evals(before);
        assert(run.layers[i - 1 + 1].due.took_next_weights(before.reduced, before.lane_weights));
        lemma_next_claims(before.reduced, l.due, before.lane_weights);
    }
    assert(is_bit_claim(
        l.due.claims@[0],
        l.due.bit_challenge,
        l.point(),
        l.due.claims@[0].lane_weights@,
        l.due.claims@[0].lane_evals@,
    ));
}

/// The endpoint claims of an honest run, whatever the trace: the output claim is the lane claim of
/// the final output at the sampled point, and the input claim that of the first round's inputs at
/// the last reduced point, both for the one bit challenge.
pub proof fn lemma_endpoint_claims<F: BinaryField>(run: ProverRun<'_, F>)
    requires
        run.is_run(),
    ensures
        run.end.phase is Finished,
        run.end.trace == run.start.trace,
        is_lane_claim(
            run.end.output_claim->Some_0,
            run.start.trace.final_output@,
            run.bit_challenge,
        ),
        run.end.output_claim->Some_0.high_point@ == run.high_point,
        is_lane_claim(
            run.end.input_claim->Some_0,
            run.start.trace.round_inputs@[0]@,
            run.bit_challenge,
        ),
        run.end.input_claim->Some_0.high_point@ == run.layers.last().challenges.reverse(),
{
    let n = run.layers.len() as int;
    let (first, last) = (run.layers[0], run.layers[n - 1]);
    assert(first.is_run() && last.is_run());
    lemma_layer_claims_hold(run, n - 1);
    lemma_setup_claims(
        run.start,
        first.due,
        run.bit_challenge,
        run.high_point,
        run.weights,
    );
    lemma_prover_evals(last);
    lemma_next_claims(last.reduced, run.end, last.lane_weights);
}

/// One layer of a verifier's run.
pub struct VerifierLayer<'a, F> {
    /// The state in which the weights of the layer are due.
    pub due: ParallelProtocol<'a, F>,
    /// The state in which the evaluation check is due.
    pub weighted: ParallelProtocol<'a, F>,
    /// The state in which a value is to be zero.
    pub checked: ParallelProtocol<'a, F>,
    /// The state in which the lane weights are due.
    pub reduced: ParallelProtocol<'a, F>,
    /// The round polynomials that were received.
    pub messages: Seq<RoundCoeffs<F>>,
    /// The challenges of the check.
    pub challenges: Seq<F>,
    /// The lane weights of the reduced claims.
    pub lane_weights: Seq<[F; 25]>,
}

impl<'a, F: BinaryField> VerifierLayer<'a, F> {
    /// The point of the layer's claim.
    pub open spec fn point(self) -> Seq<F> {
        self.weighted.claims@[0].high_point@
    }

    /// The layer's claim.
    pub open spec fn claim(self) -> F {
        batched_claim(self.weighted.batch_weights@, self.weighted.claims@)
    }

    /// The evaluation that is left by the rounds.
    pub open spec fn eval(self) -> F {
        claim_before(self.claim(), self.messages, self.challenges, self.messages.len() as int)
    }

    /// Whether the states of the layer follow from each other as the verifier takes them.
    pub open spec fn is_run(self) -> bool {
        &&& self.due.wf()
        &&& self.due.phase is LayerWeights
        &&& self.weighted.took_layer_weights(self.due)
        &&& self.checked.took_check(self.weighted, self.challenges, self.eval())
        &&& self.reduced.took_zero(self.checked)
    }

    /// Whether the verifier has nothing to refuse in the layer: every round polynomial passes its
    /// check, and the value that must be zero is zero.
    pub open spec fn accepts(self) -> bool {
        &&& rounds_pass(self.point(), self.claim(), self.messages, self.challenges)
        &&& self.checked.phase == Phase::ZeroCheck(F::zero_of())
    }

    /// Whether the layer reads what a prover's layer sent, on the same challenges.
    pub open spec fn replays(self, l: ProverLayer<'_, F>) -> bool {
        &&& self.messages == l.messages()
        &&& self.challenges == l.challenges
        &&& self.lane_weights == l.lane_weights
        &&& self.weighted.batch_weights@ == l.weighted.batch_weights@
        &&& self.weighted.residual_weights@ == l.weighted.residual_weights@
    }
}

/// A run of a verifier.
pub struct VerifierRun<'a, F> {
    /// The first state.
    pub start: ParallelProtocol<'a, F>,
    /// The layers, from the output.
    pub layers: Seq<VerifierLayer<'a, F>>,
    /// The last state.
    pub end: ParallelProtocol<'a, F>,
}

impl<'a, F: BinaryField> VerifierRun<'a, F> {
    /// Whether the run was taken step by step on what a prover's run sent, on the same challenges.
    pub open spec fn replays(self, run: ProverRun<'_, F>) -> bool {
        let n = self.layers.len() as int;
        &&& self.start.same_setting(run.start)
        &&& self.start.layer == 0
        &&& n == run.layers.len()
        &&& self.layers[0].due.set_up_by(
            self.start,
            run.bit_challenge,
            run.high_point,
            run.weights,
        )
        &&& forall|i: int|
            0 <= i < n ==> (#[trigger] self.layers[i]).is_run() && self.layers[i].replays(
                run.layers[i],
            )
        &&& forall|i: int|
            0 <= i < n - 1 ==> self.layers[i + 1].due.took_next_weights(
                (#[trigger] self.layers[i]).reduced,
                self.layers[i].lane_weights,
            )
        &&& self.end.took_next_weights(self.layers[n - 1].reduced, self.layers[n - 1].lane_weights)
    }
}

/// Whether two states stand for the same claims, all of them true at a point.
pub open spec fn same_claims<F: BinaryField>(
    a: ParallelProtocol<'_, F>,
    b: ParallelProtocol<'_, F>,
    point: Seq<F>,
) -> bool {
    &&& a.same_setting(b)
    &&& a.layer == b.layer
    &&& a.bit_challenge == b.bit_challenge
    &&& claims_hold(a, point)
    &&& claims_hold(b, point)
    &&& forall|g: int|
        0 <= g < a.n_groups ==> (#[trigger] a.claims@[g]).lane_weights@
            == b.claims@[g].lane_weights@
}

/// States with the same true claims have the same batched claim and layer polynomial.
proof fn lemma_same_layer<F: BinaryField>(
    a: ParallelProtocol<'_, F>,
    b: ParallelProtocol<'_, F>,
    point: Seq<F>,
    at: Seq<F>,
)
    requires
        a.wf(),
        b.wf(),
        a.phase is MleCheck,
        b.phase is MleCheck,
        same_claims(a, b, point),
        a.batch_weights@ == b.batch_weights@,
        a.residual_weights@ == b.residual_weights@,
    ensures
        a.claims@[0].high_point@ == b.claims@[0].high_point@,
        batched_claim(a.batch_weights@, a.claims@) == batched_claim(b.batch_weights@, b.claims@),
        layer_value(
            *a.trace,
            a.group_size as int,
            a.layer as int,
            a.claims@,
            a.batch_weights@,
            a.residual_weights@,
            a.bit_weights@,
            at,
        ) == layer_value(
            *b.trace,
            b.group_size as int,
            b.layer as int,
            b.claims@,
            b.batch_weights@,
            b.residual_weights@,
            b.bit_weights@,
            at,
        ),
{
    let n = a.claims@.len();
    let (batch, residual) = (a.batch_weights@, a.residual_weights@);
    let fa = |g: int| batch[g].times(a.claims@[g].mixed_eval);
    let fb = |g: int| batch[g].times(b.claims@[g].mixed_eval);
    assert forall|g: int| 0 <= g < n implies #[trigger] fa(g) == fb(g) by {
        assert(a.claims@[g].lane_weights@ == b.claims@[g].lane_weights@);
        assert(b.claims@[g].mixed_eval == a.claims@[g].mixed_eval);
    }
    lemma_sum_ext(fa, fb, n);
    let (size, layer, bw) = (a.group_size as int, a.layer as int, a.bit_weights@);
    let ga = |g: int| group_share(*a.trace, size, layer, a.claims@, batch, residual, bw, at, g);
    let gb = |g: int| group_share(*b.trace, size, layer, b.claims@, batch, residual, bw, at, g);
    assert forall|g: int| 0 <= g < n implies #[trigger] ga(g) == gb(g) by {
        assert(a.claims@[g].lane_weights@ == b.claims@[g].lane_weights@);
    }
    lemma_sum_ext(ga, gb, n);
    assert(a.claims@[0].lane_weights@ == b.claims@[0].lane_weights@);
    assert(b.claims@[0].high_point@ == point);
}

/// Layer by layer, a verifier that replays an honest run has the prover's claims before it.
proof fn lemma_replay_claims<F: BinaryField>(run: ProverRun<'_, F>, v: VerifierRun<'_, F>, i: int)
    requires
        run.is_run(),
        v.replays(run),
        0 <= i < run.layers.len(),
    ensures
        same_claims(v.layers[i].due, run.layers[i].due, run.layers[i].point()),
        same_claim(
            v.layers[i].due.output_claim->Some_0,
            run.layers[i].due.output_claim->Some_0,
        ),
    decreases i,
{
    let (l, w) = (run.layers[i], v.layers[i]);
    assert(l.is_run() && w.is_run());
    lemma_layer_claims_hold(run, i);
    if i == 0 {
        lemma_setup_claims(run.start, l.due, run.bit_challenge, run.high_point, run.weights);
        lemma_setup_claims(v.start, w.due, run.bit_challenge, run.high_point, run.weights);
        let last = w.due.n_groups - 1;
        assert(is_bit_claim(
            w.due.claims@[last],
            run.bit_challenge,
            run.high_point,
            run.weights[last]@,
            w.due.claims@[last].lane_evals@,
        ));
        assert(is_bit_claim(
            l.due.claims@[last],
            run.bit_challenge,
            run.high_point,
            run.weights[last]@,
            l.due.claims@[last].lane_evals@,
        ));
        assert forall|g: int| 0 <= g < w.due.n_groups implies (
        #[trigger] w.due.claims@[g]).lane_weights@ == l.due.claims@[g].lane_weights@ by {
            assert(l.due.claims@[g].lane_weights@ == run.weights[g]@);
        }
    } else {
        let (lb, wb) = (run.layers[i - 1], v.layers[i - 1]);
        assert(lb.is_run() && wb.is_run() && wb.replays(lb));
        lemma_replay_claims(run, v, i - 1);
        assert(run.layers[i - 1 + 1].due.took_next_weights(lb.reduced, lb.lane_weights));
        assert(v.layers[i - 1 + 1].due.took_next_weights(wb.reduced, wb.lane_weights));
        lemma_layer_claims_hold(run, i - 1);
        assert(wb.reduced.evals_hold());
        lemma_next_claims(wb.reduced, w.due, wb.lane_weights);
        assert forall|g: int| 0 <= g < w.due.n_groups implies (
        #[trigger] w.due.claims@[g]).lane_weights@ == l.due.claims@[g].lane_weights@ by {
            assert(l.due.claims@[g].lane_weights@ == lb.lane_weights[g]@);
        }
    }
}

/// The verifier accepts what an honest prover sends on a valid trace, where no coordinate of a
/// layer's point is one: no layer gives it anything to refuse, and it ends with the prover's
/// endpoint claims.
pub proof fn lemma_honest_proof_accepted<F: BinaryField>(
    run: ProverRun<'_, F>,
    v: VerifierRun<'_, F>,
)
    requires
        run.is_run(),
        v.replays(run),
        run.start.trace.valid(),
        forall|i: int, k: int|
            0 <= i < run.layers.len() && 0 <= k < run.layers[i].point().len()
                ==> #[trigger] run.layers[i].point()[k] != F::one_of(),
    ensures
        forall|i: int| 0 <= i < v.layers.len() ==> (#[trigger] v.layers[i]).accepts(),
        v.end.phase is Finished,
        same_claim(v.end.output_claim->Some_0, run.end.output_claim->Some_0),
        same_claim(v.end.input_claim->Some_0, run.end.input_claim->Some_0),
{
    let n = run.layers.len() as int;
    assert forall|i: int| 0 <= i < n implies (#[trigger] v.layers[i]).accepts() by {
        let (l, w) = (run.layers[i], v.layers[i]);
        assert(l.is_run() && w.is_run() && w.replays(l));
        lemma_layer_claims_hold(run, i);
        lemma_replay_claims(run, v, i);
        assert(claims_hold(l.weighted, l.point()));
        assert forall|k: int| 0 <= k < l.point().len() implies #[trigger] l.point()[k]
            != F::one_of() by {
            assert(run.layers[i].point()[k] != F::one_of());
        }
        lemma_layer_complete(l.weighted, l.polys, l.claims, l.point(), l.challenges);
        assert(same_claims(w.weighted, l.weighted, l.point()));
        lemma_same_layer(w.weighted, l.weighted, l.point(), l.challenges.reverse());
    }
    let (l, w) = (run.layers[n - 1], v.layers[n - 1]);
    assert(l.is_run() && w.is_run() && w.replays(l));
    lemma_endpoint_claims(run);
    lemma_layer_claims_hold(run, n - 1);
    lemma_replay_claims(run, v, n - 1);
    assert(w.reduced.evals_hold());
    lemma_next_claims(w.reduced, v.end, w.lane_weights);
}

} // verus!
