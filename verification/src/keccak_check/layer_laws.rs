//! Laws of the division into groups and layers: which arguments fit, that every round is checked once,
//! and that every boundary between groups is checked.
use super::batch::BatchedPolynomial;
use super::claims::CompactTrace;
use super::grouped_round::{reduction_fault, GroupedRoundReduction};
use super::parallel_groups::{parallel_fault, round_at};
use super::protocol::ParallelProtocol;
use crate::field::BinaryField;
use crate::keccak_prove::trace::State;
use crate::verify::repeated_monster::is_pow2;
use vstd::arithmetic::power2::pow2;
use vstd::prelude::*;

verus! {

/// The layers of all groups together check every round, each in one layer of one group.
pub proof fn lemma_every_round_checked_once(group_size: int, n_groups: int, r: int) -> (at: (int, int))
    requires
        group_size > 0,
        n_groups * group_size == 24,
        0 <= r < 24,
    ensures
        0 <= at.0 < n_groups,
        0 <= at.1 < group_size,
        round_at(at.0, group_size, at.1) == r,
        forall|g: int, layer: int|
            0 <= g < n_groups && 0 <= layer < group_size && #[trigger] round_at(
                g,
                group_size,
                layer,
            ) == r ==> g == at.0 && layer == at.1,
{
    let (q, m) = (r / group_size, r % group_size);
    vstd::arithmetic::div_mod::lemma_fundamental_div_mod(r, group_size);
    vstd::arithmetic::div_mod::lemma_mod_bound(r, group_size);
    assert(q < n_groups) by (nonlinear_arith)
        requires
            group_size * q + m < n_groups * group_size,
            m >= 0,
            group_size > 0,
    ;
    assert(q >= 0) by (nonlinear_arith)
        requires
            group_size * q + m >= 0,
            m < group_size,
            group_size > 0,
    ;
    assert(group_size * q == q * group_size) by (nonlinear_arith);
    assert forall|g: int, layer: int|
        0 <= g < n_groups && 0 <= layer < group_size && #[trigger] round_at(g, group_size, layer)
            == r implies g == q && layer == group_size - 1 - m by {
        vstd::arithmetic::div_mod::lemma_fundamental_div_mod_converse(
            r,
            group_size,
            g,
            group_size - 1 - layer,
        );
    }
    (q, group_size - 1 - m)
}

/// In the first layer every boundary between two groups is checked: the state before round `r`, for
/// each multiple `r` of the group size inside the permutation, enters the polynomial with a residual
/// weight of its own.
pub proof fn lemma_every_boundary_checked<F: BinaryField>(
    p: ParallelProtocol<F>,
    poly: BatchedPolynomial<F>,
    r: int,
)
    requires
        p.wf(),
        p.phase is MleCheck,
        p.layer == 0,
        p.is_layer_polynomial(poly),
        0 < r < 24,
        r % p.group_size as int == 0,
    ensures
        ({
            let b = r / p.group_size as int - 1;
            let term = poly.output_terms@[b];
            &&& 0 <= b < poly.output_terms@.len() == p.residual_weights@.len()
            &&& term.coeff == p.residual_weights@[b]
            &&& term.lane_weights == p.claims@[b].lane_weights
            &&& poly.tables@[term.table as int] is Words
            &&& poly.tables@[term.table as int]->Words_0@ == p.trace.round_inputs@[r]@
        }),
{
    let (gs, n) = (p.group_size as int, p.n_groups as int);
    let q = r / gs;
    vstd::arithmetic::div_mod::lemma_fundamental_div_mod(r, gs);
    assert(gs * q == q * gs) by (nonlinear_arith);
    assert(0 < q < n) by (nonlinear_arith)
        requires
            0 < q * gs < n * gs,
            gs > 0,
    ;
    let b = q - 1;
    assert((b + 1) * gs == r);
    let term = poly.output_terms@[b];
    assert(poly.tables@[n + b] is Words);
    assert(term.table == n + b);
}

/// A parallel proof takes exactly the traces of 24 rounds whose states are as many in every round, a
/// power of two, together with the group sizes that divide the rounds.
pub proof fn lemma_parallel_arguments(trace: CompactTrace, group_size: int)
    requires
        group_size >= 0,
    ensures
        parallel_fault(trace, group_size) is None <==> (trace.round_inputs@.len() == 24 && is_pow2(
            trace.final_output@.len(),
        ) && (forall|r: int|
            0 <= r < 24 ==> (#[trigger] trace.round_inputs@[r])@.len()
                == trace.final_output@.len()) && (exists|n: int| #[trigger] (n * group_size) == 24)),
{
    if group_size > 0 {
        vstd::arithmetic::div_mod::lemma_fundamental_div_mod(24, group_size);
        let q = 24int / group_size;
        assert(group_size * q == q * group_size) by (nonlinear_arith);
        if 24int % group_size == 0 {
            assert(q * group_size == 24);
        }
        if exists|n: int| #[trigger] (n * group_size) == 24 {
            let n = choose|n: int| #[trigger] (n * group_size) == 24;
            vstd::arithmetic::div_mod::lemma_fundamental_div_mod_converse(24, group_size, n, 0);
        }
    } else {
        assert forall|n: int| #[trigger] (n * group_size) != 24 by {
            assert(n * 0 == 0) by (nonlinear_arith);
        }
    }
    if trace.round_inputs@.len() == 24 && (forall|r: int|
        0 <= r < 24 ==> (#[trigger] trace.round_inputs@[r])@.len() == trace.final_output@.len()) {
        assert(trace.round_inputs@[0]@.len() == trace.final_output@.len());
    }
    if parallel_fault(trace, group_size) is None {
        assert forall|r: int| 0 <= r < 24 implies (#[trigger] trace.round_inputs@[r])@.len()
            == trace.final_output@.len() by {
            assert(trace.round_inputs@[r]@.len() == trace.round_inputs@[0]@.len());
        }
    }
}

/// A grouped reduction takes exactly a group of at least one round that ends within the permutation,
/// with as many lists of inputs as rounds, one transition weight less, and a state for every instance
/// in each list and in the output.
pub proof fn lemma_group_arguments<F>(
    round_inputs: Seq<&[State]>,
    outputs: nat,
    red: GroupedRoundReduction<F>,
)
    ensures
        reduction_fault(round_inputs, outputs, red) is None <==> (1 <= red.group_size
            && red.round_start + red.group_size <= 24 && round_inputs.len() == red.group_size
            && red.transition_weights@.len() + 1 == red.group_size && (forall|r: int|
            0 <= r < red.group_size ==> (#[trigger] round_inputs[r])@.len() == outputs)
            && outputs == pow2(red.output_claim.high_point@.len())),
{
    let n = pow2(red.output_claim.high_point@.len());
    if reduction_fault(round_inputs, outputs, red) is None {
        assert forall|r: int| 0 <= r < red.group_size implies (#[trigger] round_inputs[r])@.len()
            == outputs by {
            assert(!((round_inputs[r])@.len() != n));
        }
    }
}

} // verus!
