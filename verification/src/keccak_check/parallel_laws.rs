//! Laws of the parallel protocol: on valid traces the claim of every layer is true, and what the
//! verifier recomputes is the prover's polynomial.
use super::batch::{batched_value, BatchedPolynomial};
use super::blocks::{bit_block, lemma_round_of_words, output_value, round_value};
use super::claims::{folded_lanes, is_bit_claim, words_at, BitIndexedMixedClaim};
use super::grouped_round::lemma_mixed_eval_of_words;
use super::parallel_groups::{effective, lemma_group_bounds, round_at};
use super::protocol::{batched_claim, group_share, layer_value, ParallelProtocol};
use super::sumcheck::claim_of;
use crate::field::BinaryField;
use crate::keccak_prove::trace::round_state;
use crate::math::multilinear::eq_weight;
use crate::math::sums::{
    keep_if, lemma_distr, lemma_sum_exchange, lemma_sum_ext, lemma_sum_plus, lemma_sum_scale,
    lemma_sum_tail, lemma_zero, sum,
};
use vstd::arithmetic::power2::pow2;
use vstd::prelude::*;

verus! {

/// The value of a layer's polynomial on blocks for the groups' inputs and for the boundaries.
pub open spec fn layer_blocks_value<F: BinaryField>(
    inputs: spec_fn(int) -> Seq<F>,
    bounds: spec_fn(int) -> Seq<F>,
    claims: Seq<BitIndexedMixedClaim<F>>,
    batch: Seq<F>,
    residual: Seq<F>,
    group_size: int,
    layer: int,
    bw: Seq<F>,
) -> F {
    sum(
        |g: int|
            effective(batch, residual, g).times(
                round_value(
                    inputs(g),
                    claims[g].lane_weights@,
                    round_at(g, group_size, layer),
                    bw,
                ),
            ).plus(
                keep_if(
                    g < residual.len(),
                    residual[g].times(output_value(bounds(g), claims[g].lane_weights@, bw)),
                ),
            ),
        claims.len(),
    )
}

/// The batched value of a layer's terms, group by group.
pub proof fn lemma_layer_terms_value<F: BinaryField>(
    p: ParallelProtocol<'_, F>,
    poly: BatchedPolynomial<F>,
    blocks: spec_fn(int) -> Seq<F>,
    bw: Seq<F>,
)
    requires
        p.wf(),
        p.phase is MleCheck,
        p.is_layer_polynomial(poly),
    ensures
        batched_value(blocks, poly.round_terms@, poly.output_terms@, bw) == layer_blocks_value(
            blocks,
            |g: int| blocks(p.n_groups + g),
            p.claims@,
            p.batch_weights@,
            p.residual_weights@,
            p.group_size as int,
            p.layer as int,
            bw,
        ),
{
    let n = p.n_groups as nat;
    let m = p.residual_weights@.len();
    let (rt, ot) = (poly.round_terms@, poly.output_terms@);
    let (batch, res) = (p.batch_weights@, p.residual_weights@);
    let (size, layer) = (p.group_size as int, p.layer as int);
    let f = |t: int|
        rt[t].coeff.times(
            round_value(
                blocks(rt[t].table as int),
                rt[t].lane_weights@,
                rt[t].round as int,
                bw,
            ),
        );
    let h = |u: int|
        ot[u].coeff.times(output_value(blocks(ot[u].table as int), ot[u].lane_weights@, bw));
    let bounds = |g: int| blocks(p.n_groups + g);
    let a = |g: int|
        effective(batch, res, g).times(
            round_value(blocks(g), p.claims@[g].lane_weights@, round_at(g, size, layer), bw),
        );
    let b = |g: int|
        keep_if(
            g < res.len(),
            res[g].times(output_value(bounds(g), p.claims@[g].lane_weights@, bw)),
        );
    assert forall|g: int| 0 <= g < n implies #[trigger] f(g) == a(g) by {
        assert(rt[g].table == g);
    }
    assert forall|g: int| 0 <= g < m implies #[trigger] h(g) == b(g) by {
        assert(ot[g].table == n + g);
    }
    lemma_sum_ext(f, a, n);
    lemma_sum_ext(h, b, m);
    lemma_sum_tail(b, m, n);
    lemma_sum_plus(a, b, n);
    lemma_sum_ext(
        |g: int| a(g).plus(b(g)),
        |g: int|
            effective(batch, res, g).times(
                round_value(blocks(g), p.claims@[g].lane_weights@, round_at(g, size, layer), bw),
            ).plus(
                keep_if(
                    g < res.len(),
                    res[g].times(output_value(bounds(g), p.claims@[g].lane_weights@, bw)),
                ),
            ),
        n,
    );
}

/// What the verifier recomputes at the reduced point is the prover's polynomial on the tables
/// evaluated there.
pub proof fn lemma_layer_value<F: BinaryField>(
    p: ParallelProtocol<'_, F>,
    poly: BatchedPolynomial<F>,
    point: Seq<F>,
)
    requires
        p.wf(),
        p.phase is MleCheck,
        p.is_layer_polynomial(poly),
    ensures
        layer_value(
            *p.trace,
            p.group_size as int,
            p.layer as int,
            p.claims@,
            p.batch_weights@,
            p.residual_weights@,
            p.bit_weights@,
            point,
        ) == batched_value(
            |t: int| words_at(poly.tables@[t]->Words_0@, point),
            poly.round_terms@,
            poly.output_terms@,
            p.bit_weights@,
        ),
{
    let blocks = |t: int| words_at(poly.tables@[t]->Words_0@, point);
    let bounds = |g: int| blocks(p.n_groups + g);
    let bw = p.bit_weights@;
    lemma_layer_terms_value(p, poly, blocks, bw);
    let f = |g: int|
        group_share(
            *p.trace,
            p.group_size as int,
            p.layer as int,
            p.claims@,
            p.batch_weights@,
            p.residual_weights@,
            bw,
            point,
            g,
        );
    let h = |g: int|
        effective(p.batch_weights@, p.residual_weights@, g).times(
            round_value(
                blocks(g),
                p.claims@[g].lane_weights@,
                round_at(g, p.group_size as int, p.layer as int),
                bw,
            ),
        ).plus(
            keep_if(
                g < p.residual_weights@.len(),
                p.residual_weights@[g].times(
                    output_value(bounds(g), p.claims@[g].lane_weights@, bw),
                ),
            ),
        );
    assert forall|g: int| 0 <= g < p.n_groups implies #[trigger] f(g) == h(g) by {
        assert(poly.tables@[g]->Words_0@ == p.trace.round_inputs@[round_at(
            g,
            p.group_size as int,
            p.layer as int,
        )]@);
        if g < p.residual_weights@.len() {
            assert(poly.tables@[p.n_groups + g]->Words_0@ == p.trace.states(
                (g + 1) * p.group_size,
            ));
        }
    }
    lemma_sum_ext(f, h, p.n_groups as nat);
}

/// On a valid trace the claim of a layer is true: where the claim of every group is the mixed
/// evaluation at a point of the states after its round of the layer, the multilinear extension of
/// the layer's polynomial at that point is the batched claim.
pub proof fn lemma_layer_claim<F: BinaryField>(
    p: ParallelProtocol<'_, F>,
    poly: BatchedPolynomial<F>,
    point: Seq<F>,
)
    requires
        p.wf(),
        p.phase is MleCheck,
        p.trace.valid(),
        p.is_layer_polynomial(poly),
        poly.bit_weights == p.bit_weights,
        pow2(point.len()) == p.trace.final_output@.len(),
        forall|g: int|
            0 <= g < p.n_groups ==> is_bit_claim(
                #[trigger] p.claims@[g],
                p.bit_challenge,
                point,
                p.claims@[g].lane_weights@,
                folded_lanes(
                    words_at(
                        p.trace.states(
                            round_at(g, p.group_size as int, p.layer as int) + 1,
                        ),
                        point,
                    ),
                    p.bit_weights@,
                ),
            ),
    ensures
        claim_of(poly, point) == batched_claim(p.batch_weights@, p.claims@),
{
    let n = p.n_groups as nat;
    let inst = pow2(point.len());
    let bw = p.bit_weights@;
    let (batch, res) = (p.batch_weights@, p.residual_weights@);
    let (size, layer) = (p.group_size as int, p.layer as int);
    let next = |g: int| p.trace.states(round_at(g, size, layer) + 1);
    let out = |g: int, i: int|
        output_value(bit_block::<F>(next(g)[i]@), p.claims@[g].lane_weights@, bw);
    let term = |i: int, g: int| eq_weight(point, i).times(batch[g].times(out(g, i)));
    let f = |i: int| eq_weight(point, i).times(poly.value(i));
    let f2 = |i: int| sum(|g: int| term(i, g), n);
    assert forall|i: int| 0 <= i < inst implies #[trigger] f(i) == f2(i) by {
        let blocks = poly.blocks_at(i);
        lemma_layer_terms_value(p, poly, blocks, bw);
        let bounds = |g: int| blocks(p.n_groups + g);
        let a = |g: int|
            effective(batch, res, g).times(
                round_value(blocks(g), p.claims@[g].lane_weights@, round_at(g, size, layer), bw),
            ).plus(
                keep_if(
                    g < res.len(),
                    res[g].times(output_value(bounds(g), p.claims@[g].lane_weights@, bw)),
                ),
            );
        let b = |g: int| batch[g].times(out(g, i));
        assert forall|g: int| 0 <= g < n implies #[trigger] a(g) == b(g) by {
            lemma_group_bounds(g, size, n as int, layer);
            let r = round_at(g, size, layer);
            let lw = p.claims@[g].lane_weights@;
            assert(poly.tables@[g]->Words_0@ == p.trace.round_inputs@[r]@);
            let s = p.trace.states(r)[i]@;
            assert(blocks(g) == bit_block::<F>(s));
            assert(p.trace.states(r + 1)[i]@ == round_state(s, r));
            lemma_round_of_words(s, lw, r, bw);
            let x = out(g, i);
            if g < res.len() {
                lemma_group_bounds(g, size, n as int, 0);
                assert(layer == 0);
                assert(r + 1 == (g + 1) * size);
                assert(poly.tables@[p.n_groups + g]->Words_0@ == p.trace.states(
                    (g + 1) * p.group_size,
                ));
                assert(bounds(g) == bit_block::<F>(next(g)[i]@));
                lemma_distr(batch[g], res[g], x);
                F::lemma_plus(batch[g].times(x), res[g].times(x), res[g].times(x));
                F::lemma_plus(res[g].times(x), res[g].times(x), res[g].times(x));
                lemma_zero(batch[g].times(x));
            } else {
                lemma_zero(batch[g].times(x));
            }
        }
        lemma_sum_ext(a, b, n);
        lemma_sum_scale(eq_weight(point, i), b, n);
        lemma_sum_ext(|g: int| eq_weight(point, i).times(b(g)), |g: int| term(i, g), n);
    }
    lemma_sum_ext(f, f2, inst);
    lemma_sum_exchange(term, inst, n);
    let c = |g: int| sum(|i: int| term(i, g), inst);
    let d = |g: int| batch[g].times(p.claims@[g].mixed_eval);
    assert forall|g: int| 0 <= g < n implies #[trigger] c(g) == d(g) by {
        let lw = p.claims@[g].lane_weights@;
        lemma_mixed_eval_of_words(next(g), point, lw, bw);
        let e = |i: int| eq_weight(point, i).times(out(g, i));
        let col = |i: int| term(i, g);
        assert forall|i: int| 0 <= i < inst implies #[trigger] col(i) == batch[g].times(e(i)) by {
            F::lemma_times(eq_weight(point, i), batch[g], out(g, i));
            F::lemma_times(batch[g], eq_weight(point, i), out(g, i));
        }
        lemma_sum_ext(col, |i: int| batch[g].times(e(i)), inst);
        lemma_sum_scale(batch[g], e, inst);
        lemma_sum_ext(
            e,
            |i: int|
                eq_weight(point, i).times(output_value(bit_block::<F>(next(g)[i]@), lw, bw)),
            inst,
        );
        assert(is_bit_claim(
            p.claims@[g],
            p.bit_challenge,
            point,
            lw,
            folded_lanes(words_at(next(g), point), bw),
        ));
    }
    lemma_sum_ext(c, d, n);
}

} // verus!
