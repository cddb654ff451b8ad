//! The first prover message of the chi relation: the weighted residuals of all round traces on
//! the upper half of the doubled domain.
use super::bit_ntt::{
    folded_residual, lemma_chi_operand_lanes, upper_half_residual_evals, NttLookup,
    CHI_OPERAND_LANES,
};
use super::constants::{N_LANES, N_ROUNDS, ROUND_CONSTANTS};
use super::operands::{lemma_residual_zero_iff_round, residual_word};
use super::shift_evals::{fold_word, lemma_fold_xor};
use super::trace::{chi_iota_of, iota_word, right_of, RoundTrace};
use crate::field::{BinaryField, ExtensionOf};
use crate::math::lagrange::{
    embed_all, lagrange, lagrange_evals_scalars, lagrange_of, lemma_embed_lagrange,
    lemma_embed_points, lemma_interpolation, lemma_lagrange_one, lemma_lagrange_poly,
    lemma_lagrange_vanishes, lemma_times_lagrange_poly,
};
use crate::math::poly::lemma_poly_same;
use crate::math::subspace::{subspace_point, subspace_points, BinarySubspace};
use crate::math::sums::{
    keep_if, lemma_distr, lemma_plus_swap, lemma_sum_blocks, lemma_sum_exchange, lemma_sum_ext,
    lemma_sum_plus, lemma_sum_scale, lemma_sum_single, lemma_sum_split, lemma_sum_zero, lemma_zero,
    sum,
};
use crate::parallel::par_map_indices;
use crate::verify::shift_laws::bit64;
use vstd::arithmetic::power2::lemma2_to64;
use vstd::prelude::*;

verus! {

/// One evaluation per output point.
pub type Message<F> = [F; 64];

/// The residual of lane `k % 25` of trace `k / 25`, extended by the bit weights `w`.
pub open spec fn indexed_residual<F: BinaryField>(traces: Seq<RoundTrace>, w: Seq<F>, k: int) -> F {
    let t = traces[k / 25];
    folded_residual(w, t.pre_chi@, t.output@, (k / 25) % 24, k % 25)
}

/// The weighted sum of all residuals at one output point.
pub open spec fn message_at<F: ExtensionOf<S>, S: BinaryField>(
    traces: Seq<RoundTrace>,
    weights: Seq<F>,
    w: Seq<S>,
) -> F {
    sum(
        |k: int| weights[k].times(F::embed_of(indexed_residual(traces, w, k))),
        25 * traces.len(),
    )
}

/// The part of the message that trace `i` adds.
pub open spec fn trace_share<F: ExtensionOf<S>, S: BinaryField>(
    traces: Seq<RoundTrace>,
    weights: Seq<F>,
    w: Seq<S>,
    i: int,
) -> F {
    sum(
        |l: int|
            weights[25 * i + l].times(F::embed_of(indexed_residual(traces, w, 25 * i + l))),
        25,
    )
}

/// Whether a message is the part that trace `i` adds.
pub open spec fn is_share_of<F: ExtensionOf<S>, S: BinaryField>(
    lookup: NttLookup<S>,
    traces: Seq<RoundTrace>,
    weights: Seq<F>,
    i: usize,
    share: Seq<F>,
) -> bool {
    forall|x: int|
        0 <= x < 64 ==> #[trigger] share[x] == trace_share(
            traces,
            weights,
            lookup.weights(x),
            i as int,
        )
}

fn accumulate_round_trace<F: ExtensionOf<S>, S: BinaryField>(
    lookup: &NttLookup<S>,
    round_traces: &[RoundTrace],
    trace_idx: usize,
    eq_weights: &[F],
) -> (acc: [F; 64])
    requires
        lookup.wf(),
        trace_idx < round_traces@.len(),
        eq_weights@.len() == 25 * round_traces@.len(),
    ensures
        forall|x: int|
            0 <= x < 64 ==> #[trigger] acc[x] == trace_share(
                round_traces@,
                eq_weights@,
                lookup.weights(x),
                trace_idx as int,
            ),
{
    let n: usize = eq_weights.len();
    let round: usize = trace_idx % N_ROUNDS;
    let t = &round_traces[trace_idx];
    let residuals = upper_half_residual_evals(lookup, &t.pre_chi, &t.output, round);
    let mut acc: [F; 64] = [F::zero(); 64];
    for lane in 0..N_LANES
        invariant
            lookup.wf(),
            n == eq_weights@.len(),
            trace_idx < round_traces@.len(),
            n == 25 * round_traces@.len(),
            round == trace_idx % 24,
            *t == round_traces@[trace_idx as int],
            residuals@.len() == 25,
            forall|l: int, x: int|
                0 <= l < 25 && 0 <= x < 64 ==> #[trigger] residuals@[l][x] == folded_residual(
                    lookup.weights(x),
                    t.pre_chi@,
                    t.output@,
                    round as int,
                    l,
                ),
            forall|x: int|
                0 <= x < 64 ==> #[trigger] acc[x] == sum(
                    |l: int|
                        eq_weights@[25 * trace_idx + l].times(
                            F::embed_of(
                                indexed_residual(
                                    round_traces@,
                                    lookup.weights(x),
                                    25 * trace_idx + l,
                                ),
                            ),
                        ),
                    lane as nat,
                ),
    {
        let weight = eq_weights[25 * trace_idx + lane];
        let row = residuals[lane];
        let ghost before = acc@;
        for x in 0..64
            invariant
                before.len() == 64,
                forall|k: int|
                    0 <= k < x ==> #[trigger] acc[k] == before[k].plus(
                        weight.times(F::embed_of(row[k])),
                    ),
                forall|k: int| x <= k < 64 ==> #[trigger] acc[k] == before[k],
        {
            acc[x] = acc[x].add(weight.mul(F::embed(row[x])));
        }
        proof {
            assert forall|x: int| 0 <= x < 64 implies #[trigger] acc[x] == sum(
                |l: int|
                    eq_weights@[25 * trace_idx + l].times(
                        F::embed_of(
                            indexed_residual(round_traces@, lookup.weights(x), 25 * trace_idx + l),
                        ),
                    ),
                (lane + 1) as nat,
            ) by {
                let f = |l: int|
                    eq_weights@[25 * trace_idx + l].times(
                        F::embed_of(
                            indexed_residual(round_traces@, lookup.weights(x), 25 * trace_idx + l),
                        ),
                    );
                let k = 25 * trace_idx + lane;
                assert(k / 25 == trace_idx && k % 25 == lane);
                assert(row[x] == residuals@[lane as int][x]);
                assert(before[x] == sum(f, lane as nat));
                assert(sum(f, (lane + 1) as nat) == sum(f, lane as nat).plus(f(lane as int)));
            }
        }
    }
    acc
}

fn add_into<F: BinaryField>(acc: &mut [F; 64], rhs: &[F; 64])
    ensures
        forall|x: int|
            0 <= x < 64 ==> #[trigger] final(acc)[x] == old(acc)[x].plus(rhs[x]),
{
    let ghost before = acc@;
    for x in 0..64
        invariant
            before.len() == 64,
            forall|k: int| 0 <= k < x ==> #[trigger] acc[k] == before[k].plus(rhs[k]),
            forall|k: int| x <= k < 64 ==> #[trigger] acc[k] == before[k],
    {
        acc[x] = acc[x].add(rhs[x]);
    }
}

proof fn lemma_message_shares<F: ExtensionOf<S>, S: BinaryField>(
    traces: Seq<RoundTrace>,
    weights: Seq<F>,
    w: Seq<S>,
)
    ensures
        message_at(traces, weights, w) == sum(
            |i: int| trace_share(traces, weights, w, i),
            traces.len(),
        ),
{
    let f = |k: int| weights[k].times(F::embed_of(indexed_residual(traces, w, k)));
    let n = traces.len();
    lemma_sum_blocks(f, n, 25);
    assert(n * 25 == 25 * n);
    let blocks = |i: int| sum(|j: int| f(i * 25nat + j), 25);
    let shares = |i: int| trace_share(traces, weights, w, i);
    assert forall|i: int| 0 <= i < n implies #[trigger] blocks(i) == shares(i) by {
        let g = |l: int|
            weights[25 * i + l].times(F::embed_of(indexed_residual(traces, w, 25 * i + l)));
        lemma_sum_ext(|j: int| f(i * 25nat + j), g, 25);
    }
    lemma_sum_ext(blocks, shares, n);
}

/// Accumulates the chi residuals of the round traces, one weight per trace and lane. Trace `i` is
/// of round `i % 24`.
pub fn upper_half_round_message<F: ExtensionOf<S>, S: BinaryField>(
    lookup: &NttLookup<S>,
    round_traces: &[RoundTrace],
    eq_weights: &[F],
) -> (acc: [F; 64])
    requires
        lookup.wf(),
        eq_weights@.len() == 25 * round_traces@.len(),
    ensures
        forall|x: int|
            0 <= x < 64 ==> #[trigger] acc[x] == message_at(
                round_traces@,
                eq_weights@,
                lookup.weights(x),
            ),
{
    let mut acc: [F; 64] = [F::zero(); 64];
    let n: usize = round_traces.len();
    for i in 0..n
        invariant
            lookup.wf(),
            n == round_traces@.len(),
            eq_weights@.len() == 25 * n,
            forall|x: int|
                0 <= x < 64 ==> #[trigger] acc[x] == sum(
                    |i: int| trace_share(round_traces@, eq_weights@, lookup.weights(x), i),
                    i as nat,
                ),
    {
        let share = accumulate_round_trace(lookup, round_traces, i, eq_weights);
        let ghost before = acc;
        add_into(&mut acc, &share);
        proof {
            assert forall|x: int| 0 <= x < 64 implies #[trigger] acc[x] == sum(
                |i: int| trace_share(round_traces@, eq_weights@, lookup.weights(x), i),
                (i + 1) as nat,
            ) by {
                let f = |i: int| trace_share(round_traces@, eq_weights@, lookup.weights(x), i);
                assert(before[x] == sum(f, i as nat));
                assert(sum(f, (i + 1) as nat) == sum(f, i as nat).plus(f(i as int)));
            }
        }
    }
    proof {
        assert forall|x: int| 0 <= x < 64 implies #[trigger] acc[x] == message_at(
            round_traces@,
            eq_weights@,
            lookup.weights(x),
        ) by {
            lemma_message_shares(round_traces@, eq_weights@, lookup.weights(x));
        }
    }
    acc
}

/// Parallel variant of [`upper_half_round_message`].
pub fn par_upper_half_round_message<F: ExtensionOf<S> + Send + Sync, S: BinaryField + Send + Sync>(
    lookup: &NttLookup<S>,
    round_traces: &[RoundTrace],
    eq_weights: &[F],
) -> (acc: [F; 64])
    requires
        lookup.wf(),
        eq_weights@.len() == 25 * round_traces@.len(),
    ensures
        forall|x: int|
            0 <= x < 64 ==> #[trigger] acc[x] == message_at(
                round_traces@,
                eq_weights@,
                lookup.weights(x),
            ),
{
    let n: usize = round_traces.len();
    let share_of = |i: usize| -> (share: Message<F>)
        requires
            n > i,
        ensures
            is_share_of(*lookup, round_traces@, eq_weights@, i, share@),
    {
        accumulate_round_trace(lookup, round_traces, i, eq_weights)
    };
    let shares = par_map_indices(n, share_of);
    let mut acc: [F; 64] = [F::zero(); 64];
    for i in 0..n
        invariant
            n == round_traces@.len(),
            shares@.len() == n,
            forall|k: int|
                0 <= k < n ==> is_share_of(
                    *lookup,
                    round_traces@,
                    eq_weights@,
                    k as usize,
                    (#[trigger] shares@[k])@,
                ),
            forall|x: int|
                0 <= x < 64 ==> #[trigger] acc[x] == sum(
                    |i: int| trace_share(round_traces@, eq_weights@, lookup.weights(x), i),
                    i as nat,
                ),
    {
        let ghost before = acc;
        add_into(&mut acc, &shares[i]);
        proof {
            assert forall|x: int| 0 <= x < 64 implies #[trigger] acc[x] == sum(
                |i: int| trace_share(round_traces@, eq_weights@, lookup.weights(x), i),
                (i + 1) as nat,
            ) by {
                let f = |i: int| trace_share(round_traces@, eq_weights@, lookup.weights(x), i);
                assert(before[x] == sum(f, i as nat));
                assert(is_share_of(
                    *lookup,
                    round_traces@,
                    eq_weights@,
                    i,
                    shares@[i as int]@,
                ));
                assert(shares@[i as int]@[x] == f(i as int));
                assert(sum(f, (i + 1) as nat) == sum(f, i as nat).plus(f(i as int)));
            }
        }
    }
    proof {
        assert forall|x: int| 0 <= x < 64 implies #[trigger] acc[x] == message_at(
            round_traces@,
            eq_weights@,
            lookup.weights(x),
        ) by {
            lemma_message_shares(round_traces@, eq_weights@, lookup.weights(x));
        }
    }
    acc
}

/// Copies a message into the larger field.
fn embed_message<F: ExtensionOf<S>, S: BinaryField>(message: &Message<S>) -> (r: Message<F>)
    ensures
        forall|x: int| 0 <= x < 64 ==> #[trigger] r[x] == F::embed_of(message[x]),
{
    let mut r: Message<F> = [F::zero(); 64];
    for x in 0..64
        invariant
            forall|k: int| 0 <= k < x ==> #[trigger] r[k] == F::embed_of(message[k]),
    {
        r[x] = F::embed(message[x]);
    }
    r
}

/// Accumulates a message with weights in the small field, and copies it into the larger field at
/// the end.
pub fn upper_half_round_message_small_weights<F: ExtensionOf<S>, S: BinaryField>(
    lookup: &NttLookup<S>,
    round_traces: &[RoundTrace],
    eq_weights: &[S],
) -> (r: Message<F>)
    requires
        lookup.wf(),
        eq_weights@.len() == 25 * round_traces@.len(),
    ensures
        forall|x: int|
            0 <= x < 64 ==> #[trigger] r[x] == F::embed_of(
                message_at::<S, S>(round_traces@, eq_weights@, lookup.weights(x)),
            ),
{
    let acc: Message<S> = upper_half_round_message::<S, S>(lookup, round_traces, eq_weights);
    embed_message(&acc)
}

/// Parallel variant of [`upper_half_round_message_small_weights`].
pub fn par_upper_half_round_message_small_weights<
    F: ExtensionOf<S>,
    S: BinaryField + Send + Sync,
>(lookup: &NttLookup<S>, round_traces: &[RoundTrace], eq_weights: &[S]) -> (r: Message<F>)
    requires
        lookup.wf(),
        eq_weights@.len() == 25 * round_traces@.len(),
    ensures
        forall|x: int|
            0 <= x < 64 ==> #[trigger] r[x] == F::embed_of(
                message_at::<S, S>(round_traces@, eq_weights@, lookup.weights(x)),
            ),
{
    let acc: Message<S> = par_upper_half_round_message::<S, S>(lookup, round_traces, eq_weights);
    embed_message(&acc)
}

/// Builds the full message: zeros on the original domain, where valid residuals vanish, then the
/// evaluations on the upper half.
pub fn first_round_message_evals<F: BinaryField>(upper_half_message: &Message<F>) -> (r: Vec<F>)
    ensures
        r@ == Seq::new(
            128,
            |i: int|
                if i < 64 {
                    F::zero_of()
                } else {
                    upper_half_message@[i - 64]
                },
        ),
{
    let mut evals: Vec<F> = Vec::new();
    for i in 0..128
        invariant
            evals@.len() == i,
            forall|k: int|
                0 <= k < i ==> #[trigger] evals@[k] == (if k < 64 {
                    F::zero_of()
                } else {
                    upper_half_message@[k - 64]
                }),
    {
        if i < 64 {
            evals.push(F::zero());
        } else {
            evals.push(upper_half_message[i - 64]);
        }
    }
    assert(evals@ =~= Seq::new(
        128,
        |i: int|
            if i < 64 {
                F::zero_of()
            } else {
                upper_half_message@[i - 64]
            },
    ));
    evals
}

/// Extrapolates the first-round message at the challenge, from the 128 Lagrange evaluations of
/// the doubled domain at the challenge.
pub fn next_sum_claim_from_lagrange_evals<F: BinaryField>(
    upper_half_message: &Message<F>,
    domain_lagrange_evals: &[F],
) -> (r: F)
    requires
        domain_lagrange_evals@.len() == 128,
    ensures
        r == sum(
            |x: int| domain_lagrange_evals@[64 + x].times(upper_half_message@[x]),
            64,
        ),
{
    let evals = first_round_message_evals(upper_half_message);
    let r = crate::math::sums::inner_product(domain_lagrange_evals, evals.as_slice());
    proof {
        let l = domain_lagrange_evals@;
        let f = |i: int| l[i].times(evals@[i]);
        let g = |x: int| l[64 + x].times(upper_half_message@[x]);
        assert forall|i: int| 0 <= i < 64 implies #[trigger] f(i) == F::zero_of() by {
            lemma_zero(l[i]);
        }
        lemma_sum_zero(f, 64);
        lemma_sum_split(f, 64, 64);
        lemma_sum_ext(|i: int| f(64nat + i), g, 64);
        lemma_zero(sum(g, 64));
    }
    r
}

/// The first-round message extrapolated at the challenge: zero on the lower half of the domain,
/// the message on the upper half.
pub open spec fn claim_from_upper_half<F: BinaryField>(
    basis: Seq<F>,
    message: spec_fn(int) -> F,
    challenge: F,
) -> F {
    sum(|x: int| lagrange(subspace_points(basis), 64 + x, challenge).times(message(x)), 64)
}

/// Extrapolates the first-round message at the challenge.
pub fn next_sum_claim_from_upper_half<F: BinaryField>(
    upper_half_message: &Message<F>,
    challenge: F,
    prover_message_domain: &BinarySubspace<F>,
) -> (r: F)
    requires
        prover_message_domain.basis@.len() == 7,
    ensures
        r == claim_from_upper_half(
            prover_message_domain.basis@,
            |x: int| upper_half_message@[x],
            challenge,
        ),
{
    proof {
        lemma2_to64();
    }
    let evals = lagrange_evals_scalars(prover_message_domain, challenge);
    let r = next_sum_claim_from_lagrange_evals(upper_half_message, evals.as_slice());
    proof {
        let message = |x: int| upper_half_message@[x];
        let points = subspace_points(prover_message_domain.basis@);
        lemma_sum_ext(
            |x: int| evals@[64 + x].times(upper_half_message@[x]),
            |x: int| lagrange(points, 64 + x, challenge).times(message(x)),
            64,
        );
    }
    r
}

/// The first-round flow: the parallel message with small weights, extrapolated at the challenge.
pub fn par_first_round_claim_small_weights<
    F: ExtensionOf<S>,
    S: BinaryField + Send + Sync,
>(
    lookup: &NttLookup<S>,
    round_traces: &[RoundTrace],
    eq_weights: &[S],
    challenge: F,
    prover_message_domain: &BinarySubspace<F>,
) -> (r: F)
    requires
        lookup.wf(),
        eq_weights@.len() == 25 * round_traces@.len(),
        prover_message_domain.basis@.len() == 7,
    ensures
        r == claim_from_upper_half(
            prover_message_domain.basis@,
            |x: int|
                F::embed_of(
                    message_at::<S, S>(round_traces@, eq_weights@, lookup.weights(x)),
                ),
            challenge,
        ),
{
    let message: Message<F> = par_upper_half_round_message_small_weights(
        lookup,
        round_traces,
        eq_weights,
    );
    let r = next_sum_claim_from_upper_half(&message, challenge, prover_message_domain);
    proof {
        let points = subspace_points(prover_message_domain.basis@);
        let m1 = |x: int| message@[x];
        let m2 = |x: int|
            F::embed_of(
                message_at::<S, S>(round_traces@, eq_weights@, lookup.weights(x)),
            );
        lemma_sum_ext(
            |x: int| lagrange(points, 64 + x, challenge).times(m1(x)),
            |x: int| lagrange(points, 64 + x, challenge).times(m2(x)),
            64,
        );
    }
    r
}

/// Computes the claim after the first challenge by folding each lane word with the Lagrange
/// polynomials of the lower half of the domain at the challenge.
pub fn folded_next_sum_claim_small_weights<F: ExtensionOf<S>, S: BinaryField>(
    round_traces: &[RoundTrace],
    eq_weights: &[S],
    challenge: F,
    prover_message_domain: &BinarySubspace<F>,
) -> (claim: F)
    requires
        eq_weights@.len() == 25 * round_traces@.len(),
        prover_message_domain.basis@.len() == 7,
    ensures
        claim == folded_claim(
            round_traces@,
            eq_weights@,
            lagrange_of(subspace_points(prover_message_domain.basis@.take(6)), challenge),
        ),
{
    proof {
        lemma2_to64();
    }
    let input_domain = prover_message_domain.reduce_dim(6);
    let evals = lagrange_evals_scalars(&input_domain, challenge);
    folded_claim_from_lagrange_evals(round_traces, eq_weights, evals.as_slice())
}

/// The claim after the first challenge, from the folded words: the weighted residuals with the
/// bit weights at the challenge.
pub open spec fn folded_claim<F: ExtensionOf<S>, S: BinaryField>(
    traces: Seq<RoundTrace>,
    weights: Seq<S>,
    l: Seq<F>,
) -> F {
    sum(
        |k: int| indexed_residual(traces, l, k).times(F::embed_of(weights[k])),
        25 * traces.len(),
    )
}

/// Computes the claim after the first challenge by folding each lane word with the 64 Lagrange
/// evaluations of the input domain at the challenge.
pub fn folded_claim_from_lagrange_evals<F: ExtensionOf<S>, S: BinaryField>(
    round_traces: &[RoundTrace],
    eq_weights: &[S],
    lagrange_evals: &[F],
) -> (claim: F)
    requires
        eq_weights@.len() == 25 * round_traces@.len(),
        lagrange_evals@.len() == 64,
    ensures
        claim == folded_claim(round_traces@, eq_weights@, lagrange_evals@),
{
    let n: usize = eq_weights.len();
    let mut claim = F::zero();
    let ghost l = lagrange_evals@;
    let ghost f = |k: int|
        indexed_residual(round_traces@, l, k).times(F::embed_of(eq_weights@[k]));
    for k in 0..n
        invariant
            n == eq_weights@.len(),
            n == 25 * round_traces@.len(),
            l == lagrange_evals@,
            l.len() == 64,
            f == (|k: int|
                indexed_residual(round_traces@, l, k).times(F::embed_of(eq_weights@[k]))),
            claim == sum(f, k as nat),
    {
        let trace_idx: usize = k / 25;
        let lane_idx: usize = k % 25;
        let round: usize = trace_idx % N_ROUNDS;
        let t = &round_traces[trace_idx];
        proof {
            lemma_chi_operand_lanes(lane_idx as int);
            assert(sum(f, (k + 1) as nat) == sum(f, k as nat).plus(f(k as int)));
        }
        let (p_lane, q_lane, r_lane) = CHI_OPERAND_LANES[lane_idx];
        let p = fold_lane_word(!t.pre_chi[p_lane], lagrange_evals);
        let q = fold_lane_word(t.pre_chi[q_lane], lagrange_evals);
        let r = fold_lane_word(t.pre_chi[r_lane], lagrange_evals);
        let next = fold_lane_word(t.output[lane_idx], lagrange_evals);
        let iota = fold_lane_word(
            if lane_idx == 0 {
                ROUND_CONSTANTS[round]
            } else {
                0
            },
            lagrange_evals,
        );
        let residual = p.mul(q).add(r).add(next).add(iota);
        claim = claim.add(residual.mul(F::embed(eq_weights[k])));
    }
    claim
}

fn fold_lane_word<F: BinaryField>(word: u64, lagrange_evals: &[F]) -> (r: F)
    requires
        lagrange_evals@.len() == 64,
    ensures
        r == fold_word(word, lagrange_evals@),
{
    super::shift_evals::fold_word_with_lagrange(word, lagrange_evals)
}

proof fn lemma_embed_sum<F: ExtensionOf<S>, S: BinaryField>(f: spec_fn(int) -> S, n: nat)
    ensures
        F::embed_of(sum(f, n)) == sum(|i: int| F::embed_of(f(i)), n),
    decreases n,
{
    let g = |i: int| F::embed_of(f(i));
    F::lemma_embed(S::zero_of(), S::zero_of());
    if n > 0 {
        lemma_embed_sum::<F, S>(f, (n - 1) as nat);
        F::lemma_embed(sum(f, (n - 1) as nat), f(n - 1));
        assert(sum(g, n) == sum(g, (n - 1) as nat).plus(g(n - 1)));
    }
}

/// Accumulating with small weights gives what accumulating with the embedded weights gives.
pub proof fn lemma_small_weights_match<F: ExtensionOf<S>, S: BinaryField>(
    traces: Seq<RoundTrace>,
    weights: Seq<S>,
    w: Seq<S>,
)
    requires
        weights.len() == 25 * traces.len(),
    ensures
        F::embed_of(message_at::<S, S>(traces, weights, w)) == message_at::<F, S>(
            traces,
            Seq::new(weights.len(), |k: int| F::embed_of(weights[k])),
            w,
        ),
{
    let n = 25 * traces.len();
    let big = Seq::new(weights.len(), |k: int| F::embed_of(weights[k]));
    let f = |k: int| weights[k].times(S::embed_of(indexed_residual(traces, w, k)));
    let g = |k: int| big[k].times(F::embed_of(indexed_residual(traces, w, k)));
    let ef = |k: int| F::embed_of(f(k));
    lemma_embed_sum::<F, S>(f, n);
    assert forall|k: int| 0 <= k < n implies #[trigger] ef(k) == g(k) by {
        let r = indexed_residual(traces, w, k);
        F::lemma_embed(weights[k], r);
    }
    lemma_sum_ext(ef, g, n);
}

/// How the bit weights at a challenge relate to those at the points of the doubled domain, for
/// Lagrange evaluations: `low` and `up` weigh the two halves of the doubled domain at the
/// challenge, `w[x]` weighs the bits at upper point `x`, and `l` weighs the bits at the challenge.
/// Bits extend linearly, and products of two extensions interpolate exactly on the doubled
/// domain.
spec fn interpolates<F: BinaryField>(
    low: Seq<F>,
    up: Seq<F>,
    w: Seq<Seq<F>>,
    l: Seq<F>,
) -> bool {
    &&& forall|i: int|
        0 <= i < 64 ==> #[trigger] l[i] == low[i].plus(sum(|x: int| up[x].times(w[x][i]), 64))
    &&& forall|i: int, j: int|
        0 <= i < 64 && 0 <= j < 64 ==> #[trigger] l[i].times(l[j]) == keep_if(i == j, low[i]).plus(
            sum(|x: int| up[x].times(w[x][i].times(w[x][j])), 64),
        )
}

spec fn bit_times<F: BinaryField>(a: u64, f: spec_fn(int) -> F) -> F {
    sum(|i: int| keep_if(bit64(a, i), f(i)), 64)
}

proof fn lemma_bit_times_scale<F: BinaryField>(a: u64, c: F, f: spec_fn(int) -> F)
    ensures
        bit_times(a, |i: int| c.times(f(i))) == c.times(bit_times(a, f)),
{
    let g = |i: int| keep_if(bit64(a, i), f(i));
    let h = |i: int| keep_if(bit64(a, i), (|i: int| c.times(f(i)))(i));
    assert forall|i: int| 0 <= i < 64 implies #[trigger] h(i) == c.times(g(i)) by {
        lemma_zero(c);
    }
    lemma_sum_ext(h, |i: int| c.times(g(i)), 64);
    lemma_sum_scale(c, g, 64);
}

proof fn lemma_bit_times_ext<F: BinaryField>(
    a: u64,
    f: spec_fn(int) -> F,
    g: spec_fn(int) -> F,
)
    requires
        forall|i: int| 0 <= i < 64 ==> #[trigger] f(i) == g(i),
    ensures
        bit_times(a, f) == bit_times(a, g),
{
    let x = |i: int| keep_if(bit64(a, i), f(i));
    let y = |i: int| keep_if(bit64(a, i), g(i));
    assert forall|i: int| 0 <= i < 64 implies #[trigger] x(i) == y(i) by {
        assert(f(i) == g(i));
    }
    lemma_sum_ext(x, y, 64);
}

proof fn lemma_bit_times_plus<F: BinaryField>(a: u64, f: spec_fn(int) -> F, g: spec_fn(int) -> F)
    ensures
        bit_times(a, |i: int| f(i).plus(g(i))) == bit_times(a, f).plus(bit_times(a, g)),
{
    let x = |i: int| keep_if(bit64(a, i), f(i));
    let y = |i: int| keep_if(bit64(a, i), g(i));
    let z = |i: int| keep_if(bit64(a, i), (|i: int| f(i).plus(g(i)))(i));
    assert forall|i: int| 0 <= i < 64 implies #[trigger] z(i) == x(i).plus(y(i)) by {
        lemma_zero(F::zero_of());
    }
    lemma_sum_ext(z, |i: int| x(i).plus(y(i)), 64);
    lemma_sum_plus(x, y, 64);
}

proof fn lemma_bit_times_sum<F: BinaryField>(a: u64, f: spec_fn(int, int) -> F)
    ensures
        sum(|x: int| bit_times(a, |i: int| f(x, i)), 64) == bit_times(
            a,
            |i: int| sum(|x: int| f(x, i), 64),
        ),
{
    let g = |x: int, i: int| keep_if(bit64(a, i), f(x, i));
    lemma_sum_exchange(g, 64, 64);
    let left = |x: int| bit_times(a, |i: int| f(x, i));
    let left2 = |x: int| sum(|i: int| g(x, i), 64);
    assert forall|x: int| 0 <= x < 64 implies #[trigger] left(x) == left2(x) by {
        lemma_sum_ext(
            |i: int| keep_if(bit64(a, i), (|i: int| f(x, i))(i)),
            |i: int| g(x, i),
            64,
        );
    }
    lemma_sum_ext(left, left2, 64);
    let right = |i: int| sum(|x: int| g(x, i), 64);
    let cols = |i: int| sum(|x: int| f(x, i), 64);
    let right2 = |i: int| keep_if(bit64(a, i), cols(i));
    assert forall|i: int| 0 <= i < 64 implies #[trigger] right(i) == right2(i) by {
        let gx = |x: int| g(x, i);
        if bit64(a, i) {
            lemma_sum_ext(gx, |x: int| f(x, i), 64);
        } else {
            lemma_sum_zero(gx, 64);
        }
    }
    lemma_sum_ext(right, right2, 64);
    assert((|i: int| sum(|x: int| f(x, i), 64)) =~= cols);
}

proof fn lemma_fold_is_bit_times<F: BinaryField>(a: u64, l: Seq<F>)
    requires
        l.len() == 64,
    ensures
        fold_word(a, l) == bit_times(a, |i: int| l[i]),
{
    lemma_sum_ext(
        |i: int| keep_if(bit64(a, i), l[i]),
        |i: int| keep_if(bit64(a, i), (|i: int| l[i])(i)),
        64,
    );
}

/// A folded word at the challenge is its interpolation from the doubled domain.
proof fn lemma_fold_interpolates<F: BinaryField>(
    a: u64,
    low: Seq<F>,
    up: Seq<F>,
    w: Seq<Seq<F>>,
    l: Seq<F>,
)
    requires
        interpolates(low, up, w, l),
        low.len() == 64,
        l.len() == 64,
        w.len() == 64,
        forall|x: int| 0 <= x < 64 ==> (#[trigger] w[x]).len() == 64,
    ensures
        fold_word(a, l) == fold_word(a, low).plus(
            sum(|x: int| up[x].times(fold_word(a, w[x])), 64),
        ),
{
    lemma_fold_is_bit_times(a, l);
    lemma_fold_is_bit_times(a, low);
    let fl = |i: int| l[i];
    let flow = |i: int| low[i];
    let term = |x: int, i: int| up[x].times(w[x][i]);
    let cols = |i: int| sum(|x: int| term(x, i), 64);
    assert forall|i: int| 0 <= i < 64 implies #[trigger] fl(i) == flow(i).plus(cols(i)) by {
        assert(l[i] == low[i].plus(sum(|x: int| up[x].times(w[x][i]), 64)));
        lemma_sum_ext(|x: int| up[x].times(w[x][i]), |x: int| term(x, i), 64);
    }
    lemma_bit_times_ext(a, fl, |i: int| flow(i).plus(cols(i)));
    lemma_bit_times_plus(a, flow, cols);
    lemma_bit_times_sum(a, term);
    let by_point = |x: int| bit_times(a, |i: int| term(x, i));
    let want = |x: int| up[x].times(fold_word(a, w[x]));
    assert forall|x: int| 0 <= x < 64 implies #[trigger] by_point(x) == want(x) by {
        let wx = |i: int| w[x][i];
        lemma_bit_times_scale(a, up[x], wx);
        lemma_bit_times_ext(a, |i: int| term(x, i), |i: int| up[x].times(wx(i)));
        assert(w[x].len() == 64);
        lemma_fold_is_bit_times(a, w[x]);
    }
    lemma_sum_ext(by_point, want, 64);
    assert((|i: int| sum(|x: int| term(x, i), 64)) =~= cols);
}

/// The product of two folded words at the challenge is the interpolation of their products from
/// the doubled domain.
proof fn lemma_product_interpolates<F: BinaryField>(
    a: u64,
    b: u64,
    low: Seq<F>,
    up: Seq<F>,
    w: Seq<Seq<F>>,
    l: Seq<F>,
)
    requires
        interpolates(low, up, w, l),
        low.len() == 64,
        l.len() == 64,
        w.len() == 64,
        forall|x: int| 0 <= x < 64 ==> (#[trigger] w[x]).len() == 64,
    ensures
        fold_word(a, l).times(fold_word(b, l)) == fold_word(a & b, low).plus(
            sum(|x: int| up[x].times(fold_word(a, w[x]).times(fold_word(b, w[x]))), 64),
        ),
{
    let fl = |i: int| l[i];
    lemma_fold_is_bit_times(a, l);
    lemma_fold_is_bit_times(b, l);
    let bl = bit_times(b, fl);
    // a(z) b(z) = sum_i a_i sum_j b_j l_i l_j
    let inner = |i: int| bit_times(b, |j: int| l[i].times(l[j]));
    lemma_bit_times_scale(a, bl, fl);
    F::lemma_times(bit_times(a, fl), bl, bl);
    assert forall|i: int| 0 <= i < 64 implies #[trigger] inner(i) == bl.times(fl(i)) by {
        lemma_bit_times_scale(b, l[i], fl);
        lemma_bit_times_ext(b, |j: int| l[i].times(l[j]), |j: int| l[i].times(fl(j)));
        F::lemma_times(l[i], bl, bl);
    }
    lemma_bit_times_ext(a, inner, |i: int| bl.times(fl(i)));
    // each product interpolates
    let diag = |i: int| keep_if(bit64(b, i), low[i]);
    let term = |x: int, i: int| bit_times(b, |j: int| up[x].times(w[x][i].times(w[x][j])));
    let cols = |i: int| sum(|x: int| term(x, i), 64);
    assert forall|i: int| 0 <= i < 64 implies #[trigger] inner(i) == diag(i).plus(cols(i)) by {
        let d = |j: int| keep_if(i == j, low[i]);
        let c = |j: int| sum(|x: int| up[x].times(w[x][i].times(w[x][j])), 64);
        let ll = |j: int| l[i].times(l[j]);
        assert forall|j: int| 0 <= j < 64 implies #[trigger] ll(j) == d(j).plus(c(j)) by {
            assert(l[i].times(l[j]) == keep_if(i == j, low[i]).plus(
                sum(|x: int| up[x].times(w[x][i].times(w[x][j])), 64),
            ));
        }
        lemma_bit_times_ext(b, ll, |j: int| d(j).plus(c(j)));
        lemma_bit_times_plus(b, d, c);
        let dd = |j: int| keep_if(bit64(b, j), d(j));
        assert forall|j: int| 0 <= j < 64 && j != i implies #[trigger] dd(j) == F::zero_of() by {}
        lemma_sum_single(dd, i, 64);
        let e = |x: int, j: int| up[x].times(w[x][i].times(w[x][j]));
        lemma_bit_times_sum(b, e);
        let ec = |j: int| sum(|x: int| e(x, j), 64);
        assert forall|j: int| 0 <= j < 64 implies #[trigger] c(j) == ec(j) by {
            lemma_sum_ext(
                |x: int| up[x].times(w[x][i].times(w[x][j])),
                |x: int| e(x, j),
                64,
            );
        }
        lemma_bit_times_ext(b, c, ec);
        assert((|j: int| sum(|x: int| e(x, j), 64)) =~= ec);
        let t1 = |x: int| bit_times(b, |j: int| e(x, j));
        let t2 = |x: int| term(x, i);
        assert forall|x: int| 0 <= x < 64 implies #[trigger] t1(x) == t2(x) by {
            lemma_bit_times_ext(
                b,
                |j: int| e(x, j),
                |j: int| up[x].times(w[x][i].times(w[x][j])),
            );
        }
        lemma_sum_ext(t1, t2, 64);
    }
    lemma_bit_times_ext(a, inner, |i: int| diag(i).plus(cols(i)));
    lemma_bit_times_plus(a, diag, cols);
    // the diagonal is the AND of the words on the original domain
    let da = |i: int| keep_if(bit64(a, i), diag(i));
    let dab = |i: int| keep_if(bit64(a & b, i), low[i]);
    assert forall|i: int| 0 <= i < 64 implies #[trigger] da(i) == dab(i) by {
        lemma_bit_and(a, b, i as u64);
    }
    lemma_sum_ext(da, dab, 64);
    // the rest is the sum over the upper points
    lemma_bit_times_sum(a, term);
    assert((|i: int| sum(|x: int| term(x, i), 64)) =~= cols);
    let by_point = |x: int| bit_times(a, |i: int| term(x, i));
    let want = |x: int| up[x].times(fold_word(a, w[x]).times(fold_word(b, w[x])));
    assert forall|x: int| 0 <= x < 64 implies #[trigger] by_point(x) == want(x) by {
        let wx = |i: int| w[x][i];
        assert(w[x].len() == 64);
        lemma_fold_is_bit_times(a, w[x]);
        lemma_fold_is_bit_times(b, w[x]);
        let bw = bit_times(b, wx);
        let u = up[x];
        let ubw = u.times(bw);
        let tx = |i: int| term(x, i);
        assert forall|i: int| 0 <= i < 64 implies #[trigger] tx(i) == ubw.times(wx(i)) by {
            let c = u.times(wx(i));
            lemma_bit_times_scale(b, c, wx);
            let uij = |j: int| up[x].times(w[x][i].times(w[x][j]));
            assert forall|j: int| 0 <= j < 64 implies #[trigger] uij(j) == c.times(wx(j)) by {
                F::lemma_times(u, wx(i), wx(j));
            }
            lemma_bit_times_ext(b, uij, |j: int| c.times(wx(j)));
            F::lemma_times(u, wx(i), bw);
            F::lemma_times(wx(i), bw, bw);
            F::lemma_times(u, bw, wx(i));
        }
        lemma_bit_times_ext(a, tx, |i: int| ubw.times(wx(i)));
        lemma_bit_times_scale(a, ubw, wx);
        let aw = bit_times(a, wx);
        F::lemma_times(u, bw, aw);
        F::lemma_times(bw, aw, aw);
    }
    lemma_sum_ext(by_point, want, 64);
}

proof fn lemma_bit_and(a: u64, b: u64, i: u64)
    by (bit_vector)
    requires
        i < 64,
    ensures
        (((a & b) >> i) & 1 == 1) == (((a >> i) & 1 == 1) && ((b >> i) & 1 == 1)),
        (0u64 >> i) & 1 != 1,
        a ^ 0 == a,
{
}

/// Where the residual word of a lane is zero, its residual at the challenge is the interpolation
/// of its residuals on the upper half alone.
proof fn lemma_residual_interpolates<F: BinaryField>(
    low: Seq<F>,
    up: Seq<F>,
    w: Seq<Seq<F>>,
    l: Seq<F>,
    pre_chi: Seq<u64>,
    next: Seq<u64>,
    round: int,
    lane: int,
)
    requires
        interpolates(low, up, w, l),
        low.len() == 64,
        l.len() == 64,
        w.len() == 64,
        forall|x: int| 0 <= x < 64 ==> (#[trigger] w[x]).len() == 64,
        0 <= lane < 25,
        residual_word(pre_chi, next, round, lane) == 0,
    ensures
        folded_residual(l, pre_chi, next, round, lane) == sum(
            |x: int| up[x].times(folded_residual(w[x], pre_chi, next, round, lane)),
            64,
        ),
{
    let p = !pre_chi[right_of(lane, 1)];
    let q = pre_chi[right_of(lane, 2)];
    let (r, n, c) = (pre_chi[lane], next[lane], iota_word(round, lane));
    lemma_product_interpolates(p, q, low, up, w, l);
    lemma_fold_interpolates(r, low, up, w, l);
    lemma_fold_interpolates(n, low, up, w, l);
    lemma_fold_interpolates(c, low, up, w, l);
    let fpq = |x: int| up[x].times(fold_word(p, w[x]).times(fold_word(q, w[x])));
    let fr = |x: int| up[x].times(fold_word(r, w[x]));
    let fnx = |x: int| up[x].times(fold_word(n, w[x]));
    let fc = |x: int| up[x].times(fold_word(c, w[x]));
    let all = |x: int| up[x].times(folded_residual(w[x], pre_chi, next, round, lane));
    let s2 = |x: int| fpq(x).plus(fr(x));
    let s3 = |x: int| s2(x).plus(fnx(x));
    let s4 = |x: int| s3(x).plus(fc(x));
    assert forall|x: int| 0 <= x < 64 implies #[trigger] all(x) == s4(x) by {
        let pq = fold_word(p, w[x]).times(fold_word(q, w[x]));
        let (a, b, d) = (fold_word(r, w[x]), fold_word(n, w[x]), fold_word(c, w[x]));
        lemma_distr(pq.plus(a).plus(b), d, up[x]);
        lemma_distr(pq.plus(a), b, up[x]);
        lemma_distr(pq, a, up[x]);
    }
    lemma_sum_ext(all, s4, 64);
    lemma_sum_plus(s3, fc, 64);
    lemma_sum_plus(s2, fnx, 64);
    lemma_sum_plus(fpq, fr, 64);
    // on the original domain the four parts cancel
    let (lpq, lr, ln, lc) = (
        fold_word(p & q, low),
        fold_word(r, low),
        fold_word(n, low),
        fold_word(c, low),
    );
    lemma_fold_xor(p & q, r, low);
    lemma_fold_xor((p & q) ^ r, n, low);
    lemma_fold_xor((p & q) ^ r ^ n, c, low);
    assert((p & q) ^ r ^ n ^ c == 0) by {
        lemma_bit_and((p & q) ^ r ^ n, 0, 0);
    }
    assert(fold_word(0, low) == F::zero_of()) by {
        let z = |i: int| keep_if(bit64(0, i), low[i]);
        assert forall|i: int| 0 <= i < 64 implies #[trigger] z(i) == F::zero_of() by {
            lemma_bit_and(0, 0, i as u64);
        }
        lemma_sum_zero(z, 64);
    }
    let (spq, sr, sn, sc) = (sum(fpq, 64), sum(fr, 64), sum(fnx, 64), sum(fc, 64));
    lemma_plus_swap(lpq, spq, lr, sr);
    lemma_plus_swap(lpq.plus(lr), spq.plus(sr), ln, sn);
    lemma_plus_swap(lpq.plus(lr).plus(ln), spq.plus(sr).plus(sn), lc, sc);
    lemma_zero(spq.plus(sr).plus(sn).plus(sc));
}

/// Where every output is chi and iota of its pre-chi state, the first-round claim is the folded
/// claim: extrapolating the message of the upper half at the challenge gives the weighted residuals of the words folded at the
/// challenge.
proof fn lemma_first_round_claim<F: BinaryField>(
    traces: Seq<RoundTrace>,
    weights: Seq<F>,
    low: Seq<F>,
    up: Seq<F>,
    w: Seq<Seq<F>>,
    l: Seq<F>,
)
    requires
        interpolates(low, up, w, l),
        low.len() == 64,
        l.len() == 64,
        w.len() == 64,
        forall|x: int| 0 <= x < 64 ==> (#[trigger] w[x]).len() == 64,
        forall|i: int|
            0 <= i < traces.len() ==> (#[trigger] traces[i]).output@ == chi_iota_of(
                traces[i].pre_chi@,
                i % 24,
            ),
    ensures
        sum(|x: int| up[x].times(message_at::<F, F>(traces, weights, w[x])), 64)
            == folded_claim::<F, F>(traces, weights, l),
{
    let n = 25 * traces.len();
    let g = |x: int, k: int| up[x].times(weights[k].times(indexed_residual(traces, w[x], k)));
    lemma_sum_exchange(g, 64, n);
    let left = |x: int| up[x].times(message_at::<F, F>(traces, weights, w[x]));
    let left2 = |x: int| sum(|k: int| g(x, k), n);
    assert forall|x: int| 0 <= x < 64 implies #[trigger] left(x) == left2(x) by {
        let f = |k: int| weights[k].times(F::embed_of(indexed_residual(traces, w[x], k)));
        lemma_sum_scale(up[x], f, n);
        lemma_sum_ext(|k: int| up[x].times(f(k)), |k: int| g(x, k), n);
    }
    lemma_sum_ext(left, left2, 64);
    let right = |k: int| sum(|x: int| g(x, k), 64);
    let right2 = |k: int| indexed_residual(traces, l, k).times(F::embed_of(weights[k]));
    assert forall|k: int| 0 <= k < n implies #[trigger] right(k) == right2(k) by {
        let t = traces[k / 25];
        let (round, lane) = ((k / 25) % 24, k % 25);
        assert(traces[k / 25].output@ == chi_iota_of(t.pre_chi@, round));
        assert(t.pre_chi@.len() == 25 && t.output@.len() == 25);
        lemma_residual_zero_iff_round(t.pre_chi@, t.output@, round);
        assert(residual_word(t.pre_chi@, t.output@, round, lane) == 0);
        lemma_residual_interpolates(low, up, w, l, t.pre_chi@, t.output@, round, lane);
        let h = |x: int| up[x].times(folded_residual(w[x], t.pre_chi@, t.output@, round, lane));
        let wk = weights[k];
        lemma_sum_scale(wk, h, 64);
        let gk = |x: int| g(x, k);
        assert forall|x: int| 0 <= x < 64 implies #[trigger] gk(x) == wk.times(h(x)) by {
            let r = folded_residual(w[x], t.pre_chi@, t.output@, round, lane);
            F::lemma_times(up[x], wk, r);
            F::lemma_times(wk, up[x], r);
        }
        lemma_sum_ext(gk, |x: int| wk.times(h(x)), 64);
        F::lemma_times(wk, indexed_residual(traces, l, k), wk);
    }
    lemma_sum_ext(right, right2, n);
}

/// The points of the lower half of a domain are the points of the domain spanned by all but the
/// last basis element.
proof fn lemma_lower_half<F: BinaryField>(basis: Seq<F>, i: int)
    requires
        basis.len() == 7,
        0 <= i < 64,
    ensures
        subspace_points(basis).len() == 128,
        subspace_points(basis.take(6)).len() == 64,
        subspace_points(basis)[i] == subspace_points(basis.take(6))[i],
        subspace_points(basis)[64 + i] == subspace_point(basis, 64 + i),
{
    lemma2_to64();
    assert(basis.drop_last() =~= basis.take(6));
}

/// The Lagrange polynomials of the lower half interpolate from the whole domain, alone and in
/// products.
proof fn lemma_domain_interpolates<F: BinaryField>(basis: Seq<F>, z: F)
    requires
        basis.len() == 7,
        subspace_points(basis).no_duplicates(),
    ensures
        interpolates(
            lagrange_of(subspace_points(basis), z).take(64),
            lagrange_of(subspace_points(basis), z).skip(64),
            Seq::new(
                64,
                |x: int|
                    lagrange_of(subspace_points(basis.take(6)), subspace_point(basis, 64 + x)),
            ),
            lagrange_of(subspace_points(basis.take(6)), z),
        ),
{
    let d = subspace_points(basis);
    let h = subspace_points(basis.take(6));
    lemma_lower_half(basis, 0);
    let low = lagrange_of(d, z).take(64);
    let up = lagrange_of(d, z).skip(64);
    let w = Seq::new(64, |x: int| lagrange_of(h, subspace_point(basis, 64 + x)));
    let l = lagrange_of(h, z);
    assert(h.no_duplicates()) by {
        assert forall|i: int, j: int| 0 <= i < h.len() && 0 <= j < h.len() && i != j implies h[i]
            != h[j] by {
            lemma_lower_half(basis, i);
            lemma_lower_half(basis, j);
            assert(d[i] != d[j]);
        }
    }
    assert forall|i: int| 0 <= i < 64 implies #[trigger] l[i] == low[i].plus(
        sum(|x: int| up[x].times(w[x][i]), 64),
    ) by {
        let f = |y: F| lagrange(h, i, y);
        lemma_lagrange_poly(h, i);
        lemma_poly_same(f, f, 64, 128);
        lemma_interpolation(f, d, z);
        let t = |k: int| lagrange(d, k, z).times(f(d[k]));
        lemma_sum_split(t, 64, 64);
        // on the lower half only point i counts
        assert forall|k: int| 0 <= k < 64 && k != i implies #[trigger] t(k) == F::zero_of() by {
            lemma_lower_half(basis, k);
            lemma_lagrange_vanishes(h, i, k);
            lemma_zero(lagrange(d, k, z));
        }
        lemma_sum_single(t, i, 64);
        lemma_lower_half(basis, i);
        lemma_lagrange_one(h, i);
        lemma_zero(lagrange(d, i, z));
        let upper = |x: int| t(64nat + x);
        let want = |x: int| up[x].times(w[x][i]);
        assert forall|x: int| 0 <= x < 64 implies #[trigger] upper(x) == want(x) by {
            lemma_lower_half(basis, x);
        }
        lemma_sum_ext(upper, want, 64);
    }
    assert forall|i: int, j: int| 0 <= i < 64 && 0 <= j < 64 implies #[trigger] l[i].times(l[j])
        == keep_if(i == j, low[i]).plus(
        sum(|x: int| up[x].times(w[x][i].times(w[x][j])), 64),
    ) by {
        let f0 = |y: F| lagrange(h, i, y);
        lemma_lagrange_poly(h, i);
        lemma_times_lagrange_poly(f0, h, j, 64);
        let f = |y: F| f0(y).times(lagrange(h, j, y));
        lemma_poly_same(f, f, 127, 128);
        lemma_interpolation(f, d, z);
        let t = |k: int| lagrange(d, k, z).times(f(d[k]));
        lemma_sum_split(t, 64, 64);
        assert forall|k: int| 0 <= k < 64 && (k != i || i != j) implies #[trigger] t(k)
            == F::zero_of() by {
            lemma_lower_half(basis, k);
            if k != i {
                lemma_lagrange_vanishes(h, i, k);
            } else {
                lemma_lagrange_vanishes(h, j, k);
            }
            lemma_zero(lagrange(h, j, h[k]));
            lemma_zero(lagrange(h, i, h[k]));
            lemma_zero(lagrange(d, k, z));
        }
        if i == j {
            lemma_sum_single(t, i, 64);
            lemma_lower_half(basis, i);
            lemma_lagrange_one(h, i);
            lemma_zero(F::one_of());
            lemma_zero(lagrange(d, i, z));
        } else {
            lemma_sum_zero(t, 64);
        }
        let upper = |x: int| t(64nat + x);
        let want = |x: int| up[x].times(w[x][i].times(w[x][j]));
        assert forall|x: int| 0 <= x < 64 implies #[trigger] upper(x) == want(x) by {
            lemma_lower_half(basis, x);
        }
        lemma_sum_ext(upper, want, 64);
    }
}

proof fn lemma_embed_fold<F: ExtensionOf<S>, S: BinaryField>(a: u64, w: Seq<S>)
    requires
        w.len() == 64,
    ensures
        F::embed_of(fold_word(a, w)) == fold_word(a, embed_all::<F, S>(w)),
{
    let f = |i: int| keep_if(bit64(a, i), w[i]);
    let e = embed_all::<F, S>(w);
    let g = |i: int| keep_if(bit64(a, i), e[i]);
    lemma_embed_sum::<F, S>(f, 64);
    F::lemma_embed(S::zero_of(), S::zero_of());
    lemma_sum_ext(|i: int| F::embed_of(f(i)), g, 64);
}

proof fn lemma_embed_residual<F: ExtensionOf<S>, S: BinaryField>(
    traces: Seq<RoundTrace>,
    w: Seq<S>,
    k: int,
)
    requires
        w.len() == 64,
    ensures
        F::embed_of(indexed_residual(traces, w, k)) == indexed_residual(
            traces,
            embed_all::<F, S>(w),
            k,
        ),
{
    let t = traces[k / 25];
    let (pre_chi, next, round, lane) = (t.pre_chi@, t.output@, (k / 25) % 24, k % 25);
    let (p, q) = (!pre_chi[right_of(lane, 1)], pre_chi[right_of(lane, 2)]);
    let (r, n, c) = (pre_chi[lane], next[lane], iota_word(round, lane));
    lemma_embed_fold::<F, S>(p, w);
    lemma_embed_fold::<F, S>(q, w);
    lemma_embed_fold::<F, S>(r, w);
    lemma_embed_fold::<F, S>(n, w);
    lemma_embed_fold::<F, S>(c, w);
    let (fp, fq, fr, fnext, fc) = (
        fold_word(p, w),
        fold_word(q, w),
        fold_word(r, w),
        fold_word(n, w),
        fold_word(c, w),
    );
    F::lemma_embed(fp, fq);
    F::lemma_embed(fp.times(fq), fr);
    F::lemma_embed(fp.times(fq).plus(fr), fnext);
    F::lemma_embed(fp.times(fq).plus(fr).plus(fnext), fc);
}

/// Where every output is chi and iota of its pre-chi state, the first-round claim is the folded
/// claim, over any domain of different points: extrapolating the small-field message of the upper half at the challenge gives the
/// weighted residuals of the words folded at the challenge.
pub proof fn lemma_first_round_claim_over_domain<F: ExtensionOf<S>, S: BinaryField>(
    traces: Seq<RoundTrace>,
    weights: Seq<S>,
    basis: Seq<S>,
    lookup: NttLookup<S>,
    challenge: F,
)
    requires
        basis.len() == 7,
        subspace_points(basis).no_duplicates(),
        lookup.extends_to_upper_half(basis),
        weights.len() == 25 * traces.len(),
        forall|i: int|
            0 <= i < traces.len() ==> (#[trigger] traces[i]).output@ == chi_iota_of(
                traces[i].pre_chi@,
                i % 24,
            ),
    ensures
        claim_from_upper_half(
            embed_all::<F, S>(basis),
            |x: int|
                F::embed_of(message_at::<S, S>(traces, weights, lookup.weights(x))),
            challenge,
        ) == folded_claim::<F, S>(
            traces,
            weights,
            lagrange_of(subspace_points(embed_all::<F, S>(basis).take(6)), challenge),
        ),
{
    let eb = embed_all::<F, S>(basis);
    let ew = embed_all::<F, S>(weights);
    lemma_embed_points::<F, S>(basis);
    lemma_embed_points::<F, S>(basis.take(6));
    assert(eb.take(6) =~= embed_all::<F, S>(basis.take(6)));
    lemma_lower_half(basis, 0);
    lemma_lower_half(eb, 0);
    let d = subspace_points(eb);
    let h = subspace_points(eb.take(6));
    let low = lagrange_of(d, challenge).take(64);
    let up = lagrange_of(d, challenge).skip(64);
    let w = Seq::new(64, |x: int| lagrange_of(h, subspace_point(eb, 64 + x)));
    let l = lagrange_of(h, challenge);
    lemma_domain_interpolates(eb, challenge);
    lemma_first_round_claim(traces, ew, low, up, w, l);
    // the embedded lookup weights are those of the embedded domain
    let m1 = |x: int| F::embed_of(message_at::<S, S>(traces, weights, lookup.weights(x)));
    let left = |x: int| lagrange(d, 64 + x, challenge).times(m1(x));
    let right = |x: int| up[x].times(message_at::<F, F>(traces, ew, w[x]));
    assert forall|x: int| 0 <= x < 64 implies #[trigger] left(x) == right(x) by {
        let ws = lookup.weights(x);
        let hs = subspace_points(basis.take(6));
        let point = subspace_point(basis, 64 + x);
        assert(ws == lagrange_of(hs, point));
        crate::math::lagrange::lemma_embed_point::<F, S>(basis, 64 + x);
        assert(w[x] =~= embed_all::<F, S>(ws)) by {
            assert forall|i: int| 0 <= i < 64 implies #[trigger] w[x][i] == embed_all::<F, S>(
                ws,
            )[i] by {
                lemma_embed_lagrange::<F, S>(hs, i, point);
            }
        }
        lemma_small_weights_match::<F, S>(traces, weights, ws);
        let f = |k: int| ew[k].times(F::embed_of(indexed_residual(traces, ws, k)));
        let g = |k: int| ew[k].times(<F as ExtensionOf<F>>::embed_of(indexed_residual(traces, w[x], k)));
        assert(Seq::new(weights.len(), |k: int| F::embed_of(weights[k])) =~= ew);
        assert forall|k: int| 0 <= k < 25 * traces.len() implies #[trigger] f(k) == g(k) by {
            lemma_embed_residual::<F, S>(traces, ws, k);
        }
        lemma_sum_ext(f, g, 25 * traces.len());
        assert(up[x] == lagrange(d, 64 + x, challenge));
    }
    lemma_sum_ext(left, right, 64);
    let a = |k: int| indexed_residual(traces, l, k).times(<F as ExtensionOf<F>>::embed_of(ew[k]));
    let b = |k: int| indexed_residual(traces, l, k).times(F::embed_of(weights[k]));
    lemma_sum_ext(a, b, 25 * traces.len());
}

/// The three first-round flows agree where every output is chi and iota of its pre-chi state:
/// extrapolating any message that has the evaluations of the upper half, the parallel flow and the
/// folded words give one claim.
pub proof fn lemma_first_round_flows_agree<F: ExtensionOf<S>, S: BinaryField>(
    message: Message<F>,
    traces: Seq<RoundTrace>,
    weights: Seq<S>,
    basis: Seq<S>,
    lookup: NttLookup<S>,
    challenge: F,
)
    requires
        basis.len() == 7,
        subspace_points(basis).no_duplicates(),
        lookup.extends_to_upper_half(basis),
        weights.len() == 25 * traces.len(),
        forall|i: int|
            0 <= i < traces.len() ==> (#[trigger] traces[i]).output@ == chi_iota_of(
                traces[i].pre_chi@,
                i % 24,
            ),
        forall|x: int|
            0 <= x < 64 ==> #[trigger] message[x] == F::embed_of(
                message_at::<S, S>(traces, weights, lookup.weights(x)),
            ),
    ensures
        claim_from_upper_half(embed_all::<F, S>(basis), |x: int| message@[x], challenge)
            == folded_claim::<F, S>(
            traces,
            weights,
            lagrange_of(subspace_points(embed_all::<F, S>(basis).take(6)), challenge),
        ),
        claim_from_upper_half(
            embed_all::<F, S>(basis),
            |x: int| F::embed_of(message_at::<S, S>(traces, weights, lookup.weights(x))),
            challenge,
        ) == folded_claim::<F, S>(
            traces,
            weights,
            lagrange_of(subspace_points(embed_all::<F, S>(basis).take(6)), challenge),
        ),
{
    lemma_first_round_claim_over_domain::<F, S>(traces, weights, basis, lookup, challenge);
    let points = subspace_points(embed_all::<F, S>(basis));
    let m1 = |x: int| message@[x];
    let m2 = |x: int| F::embed_of(message_at::<S, S>(traces, weights, lookup.weights(x)));
    let left = |x: int| lagrange(points, 64 + x, challenge).times(m1(x));
    let right = |x: int| lagrange(points, 64 + x, challenge).times(m2(x));
    assert forall|x: int| 0 <= x < 64 implies #[trigger] left(x) == right(x) by {
        assert(message[x] == m2(x));
    }
    lemma_sum_ext(left, right, 64);
}

} // verus!
