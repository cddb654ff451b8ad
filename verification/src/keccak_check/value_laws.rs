//! Laws of the values that are checked: what an evaluation reads at the points of the instances, and
//! that every transition, boundary and group enters with its own weight.
use super::batch::{batched_value, BatchedPolynomial, OutputTerm, RoundTerm};
use super::blocks::{output_value, round_value};
use super::claims::{words_at, BitIndexedMixedClaim, CompactTrace};
use super::grouped_round::group_value;
use super::parallel_groups::effective;
use super::protocol::{batched_claim, layer_value};
use super::round_check::{claim_before, round_passes, rounds_pass};
use super::sumcheck::{claim_of, coeffs_at, RoundCoeffs};
use crate::field::BinaryField;
use crate::keccak_prove::trace::State;
use crate::math::multilinear::{bit_point, eq_weight, lemma_eq_weight_vertex};
use crate::math::sums::{
    keep_if, lemma_distr, lemma_plus_swap, lemma_sum_ext, lemma_sum_plus, lemma_sum_single,
    lemma_sum_zero, lemma_zero, sum,
};
use crate::verify::shift_laws::{bit64, indicator, line};
use vstd::arithmetic::power2::pow2;
use vstd::prelude::*;

verus! {

proof fn lemma_reads_at_vertex<F: BinaryField>(f: spec_fn(int) -> F, n: nat, i: int)
    requires
        0 <= i < pow2(n),
    ensures
        sum(|j: int| eq_weight(bit_point::<F>(n, i), j).times(f(j)), pow2(n)) == f(i),
{
    let g = |j: int| eq_weight(bit_point::<F>(n, i), j).times(f(j));
    assert forall|j: int| 0 <= j < pow2(n) && j != i implies #[trigger] g(j) == F::zero_of() by {
        lemma_eq_weight_vertex::<F>(n, i, j);
        lemma_zero(f(j));
    }
    lemma_sum_single(g, i, pow2(n));
    lemma_eq_weight_vertex::<F>(n, i, i);
    lemma_zero(f(i));
}

/// At the point of instance `i` the evaluation of a batch of states is the bits of state `i`.
pub proof fn lemma_words_at_instance<F: BinaryField>(words: Seq<State>, n: nat, i: int, l: int, b: int)
    requires
        0 <= i < pow2(n),
        0 <= l < 25,
        0 <= b < 64,
    ensures
        words_at(words, bit_point::<F>(n, i))[64 * l + b] == indicator::<F>(
            bit64(words[i]@[l], b),
        ),
{
    let j = 64 * l + b;
    let point = bit_point::<F>(n, i);
    lemma_eq_weight_vertex::<F>(n, i, i);
    let f = |k: int| indicator::<F>(bit64(words[k]@[j / 64], j % 64));
    lemma_reads_at_vertex(f, n, i);
    lemma_sum_ext(
        |k: int| eq_weight(point, k).times(indicator::<F>(bit64(words[k]@[j / 64], j % 64))),
        |k: int| eq_weight(point, k).times(f(k)),
        pow2(n),
    );
    assert(j / 64 == l && j % 64 == b);
}

/// At the point of instance `i` the claim of a polynomial is its value on instance `i`.
pub proof fn lemma_claim_at_instance<F: BinaryField>(poly: BatchedPolynomial<F>, n: nat, i: int)
    requires
        0 <= i < pow2(n),
    ensures
        claim_of(poly, bit_point::<F>(n, i)) == poly.value(i),
{
    let point = bit_point::<F>(n, i);
    lemma_eq_weight_vertex::<F>(n, i, i);
    let f = |k: int| poly.value(k);
    lemma_reads_at_vertex(f, n, i);
    lemma_sum_ext(
        |k: int| eq_weight(point, k).times(poly.value(k)),
        |k: int| eq_weight(point, k).times(f(k)),
        pow2(n),
    );
}

/// Two sums that differ in one term differ by what that term differs by.
proof fn lemma_sums_differ<F: BinaryField>(
    f: spec_fn(int) -> F,
    g: spec_fn(int) -> F,
    j: int,
    n: nat,
)
    requires
        0 <= j < n,
        forall|i: int| 0 <= i < n && i != j ==> #[trigger] f(i) == g(i),
    ensures
        sum(f, n).plus(sum(g, n)) == f(j).plus(g(j)),
{
    let h = |i: int| f(i).plus(g(i));
    assert forall|i: int| 0 <= i < n && i != j implies #[trigger] h(i) == F::zero_of() by {
        F::lemma_plus(f(i), f(i), f(i));
        assert(f(i) == g(i));
    }
    lemma_sum_plus(f, g, n);
    lemma_sum_single(h, j, n);
}

/// Every transition inside a group counts with its own weight: a change of the weight of transition
/// `j` changes the value by that change times what round `j` makes of its input plus the input of round
/// `j + 1`.
pub proof fn lemma_each_transition_counts<F: BinaryField>(
    blocks: spec_fn(int) -> Seq<F>,
    lw: Seq<F>,
    tw: Seq<F>,
    other: Seq<F>,
    round_start: int,
    k: int,
    bw: Seq<F>,
    j: int,
)
    requires
        0 <= j < k - 1,
        tw.len() == k - 1,
        other.len() == k - 1,
        forall|r: int| 0 <= r < k - 1 && r != j ==> #[trigger] tw[r] == other[r],
    ensures
        group_value(blocks, lw, tw, round_start, k, bw).plus(
            group_value(blocks, lw, other, round_start, k, bw),
        ) == tw[j].plus(other[j]).times(
            round_value(blocks(j), lw, round_start + j, bw).plus(
                output_value(blocks(j + 1), lw, bw),
            ),
        ),
{
    let m = (k - 1) as nat;
    let last = round_value(blocks(k - 1), lw, round_start + k - 1, bw);
    let step = |r: int|
        round_value(blocks(r), lw, round_start + r, bw).plus(output_value(blocks(r + 1), lw, bw));
    let f = |r: int| tw[r].times(step(r));
    let g = |r: int| other[r].times(step(r));
    lemma_sum_ext(
        |r: int|
            tw[r].times(
                round_value(blocks(r), lw, round_start + r, bw).plus(
                    output_value(blocks(r + 1), lw, bw),
                ),
            ),
        f,
        m,
    );
    lemma_sum_ext(
        |r: int|
            other[r].times(
                round_value(blocks(r), lw, round_start + r, bw).plus(
                    output_value(blocks(r + 1), lw, bw),
                ),
            ),
        g,
        m,
    );
    lemma_sums_differ(f, g, j, m);
    lemma_plus_swap(last, sum(f, m), last, sum(g, m));
    F::lemma_plus(last, last, last);
    lemma_zero(sum(f, m).plus(sum(g, m)));
    lemma_distr(tw[j], other[j], step(j));
}

/// Without transition weights the value of a group is that of its last round.
pub proof fn lemma_group_without_weights<F: BinaryField>(
    blocks: spec_fn(int) -> Seq<F>,
    lw: Seq<F>,
    tw: Seq<F>,
    round_start: int,
    k: int,
    bw: Seq<F>,
)
    requires
        k > 0,
        forall|r: int| 0 <= r < k - 1 ==> #[trigger] tw[r] == F::zero_of(),
    ensures
        group_value(blocks, lw, tw, round_start, k, bw) == round_value(
            blocks(k - 1),
            lw,
            round_start + k - 1,
            bw,
        ),
{
    let f = |r: int|
        tw[r].times(
            round_value(blocks(r), lw, round_start + r, bw).plus(
                output_value(blocks(r + 1), lw, bw),
            ),
        );
    assert forall|r: int| 0 <= r < k - 1 implies #[trigger] f(r) == F::zero_of() by {
        assert(tw[r] == F::zero_of());
        lemma_zero(
            round_value(blocks(r), lw, round_start + r, bw).plus(
                output_value(blocks(r + 1), lw, bw),
            ),
        );
    }
    lemma_sum_zero(f, (k - 1) as nat);
    lemma_zero(round_value(blocks(k - 1), lw, round_start + k - 1, bw));
}

/// The round that group `g` checks in a layer, counted from the first of all rounds: the groups hold
/// `group_size` rounds each, and the layers go from the last round of a group to its first.
pub open spec fn checked_round(g: int, group_size: int, layer: int) -> int {
    (g + 1) * group_size - 1 - layer
}

/// Every group counts in a layer: where the weights of two layers agree but for those of group `g`,
/// their values differ by the difference of the batching weights times what the group's round makes of
/// its input, plus the difference of the residual weights times that and the state behind the group.
pub proof fn lemma_each_group_counts<F: BinaryField>(
    trace: CompactTrace,
    group_size: int,
    layer: int,
    claims: Seq<BitIndexedMixedClaim<F>>,
    batch: Seq<F>,
    batch2: Seq<F>,
    residual: Seq<F>,
    residual2: Seq<F>,
    bw: Seq<F>,
    point: Seq<F>,
    g: int,
)
    requires
        0 <= g < claims.len(),
        residual.len() == residual2.len(),
        forall|h: int| 0 <= h < claims.len() && h != g ==> #[trigger] batch[h] == batch2[h],
        forall|h: int| 0 <= h < residual.len() && h != g ==> #[trigger] residual[h] == residual2[h],
    ensures
        ({
            let r = checked_round(g, group_size, layer);
            let lw = claims[g].lane_weights@;
            let made = round_value(words_at(trace.round_inputs@[r]@, point), lw, r, bw);
            let kept = output_value(words_at(trace.states((g + 1) * group_size), point), lw, bw);
            layer_value(trace, group_size, layer, claims, batch, residual, bw, point).plus(
                layer_value(trace, group_size, layer, claims, batch2, residual2, bw, point),
            ) == batch[g].plus(batch2[g]).times(made).plus(
                if g < residual.len() {
                    residual[g].plus(residual2[g]).times(made.plus(kept))
                } else {
                    F::zero_of()
                },
            )
        }),
{
    let n = claims.len();
    let f = |h: int|
        super::protocol::group_share(
            trace,
            group_size,
            layer,
            claims,
            batch,
            residual,
            bw,
            point,
            h,
        );
    let f2 = |h: int|
        super::protocol::group_share(
            trace,
            group_size,
            layer,
            claims,
            batch2,
            residual2,
            bw,
            point,
            h,
        );
    assert forall|h: int| 0 <= h < n && h != g implies #[trigger] f(h) == f2(h) by {
        assert(batch[h] == batch2[h]);
        if h < residual.len() {
            assert(residual[h] == residual2[h]);
        }
    }
    lemma_sums_differ(f, f2, g, n);
    let r = checked_round(g, group_size, layer);
    assert((g + 1) * group_size == g * group_size + group_size) by (nonlinear_arith);
    let lw = claims[g].lane_weights@;
    let made = round_value(words_at(trace.round_inputs@[r]@, point), lw, r, bw);
    let kept = output_value(words_at(trace.states((g + 1) * group_size), point), lw, bw);
    let (e, e2) = (effective(batch, residual, g), effective(batch2, residual2, g));
    let (s, s2) = (
        keep_if(g < residual.len(), residual[g].times(kept)),
        keep_if(g < residual.len(), residual2[g].times(kept)),
    );
    assert(f(g) == e.times(made).plus(s));
    assert(f2(g) == e2.times(made).plus(s2));
    lemma_plus_swap(e.times(made), s, e2.times(made), s2);
    lemma_distr(e, e2, made);
    let d = batch[g].plus(batch2[g]);
    if g < residual.len() {
        let c = residual[g].plus(residual2[g]);
        lemma_plus_swap(batch[g], residual[g], batch2[g], residual2[g]);
        lemma_distr(residual[g], residual2[g], kept);
        lemma_distr(d, c, made);
        F::lemma_plus(d.times(made), c.times(made), c.times(kept));
        lemma_distr(made, kept, c);
    } else {
        lemma_zero(F::zero_of());
        lemma_zero(d.times(made));
    }
}

/// Without weights a layer claims nothing.
pub proof fn lemma_layer_without_weights<F: BinaryField>(
    trace: CompactTrace,
    group_size: int,
    layer: int,
    claims: Seq<BitIndexedMixedClaim<F>>,
    batch: Seq<F>,
    residual: Seq<F>,
    bw: Seq<F>,
    point: Seq<F>,
)
    requires
        forall|h: int| 0 <= h < claims.len() ==> #[trigger] batch[h] == F::zero_of(),
        forall|h: int| 0 <= h < residual.len() ==> #[trigger] residual[h] == F::zero_of(),
    ensures
        layer_value(trace, group_size, layer, claims, batch, residual, bw, point) == F::zero_of(),
        batched_claim(batch, claims) == F::zero_of(),
{
    let f = |h: int|
        super::protocol::group_share(
            trace,
            group_size,
            layer,
            claims,
            batch,
            residual,
            bw,
            point,
            h,
        );
    assert forall|h: int| 0 <= h < claims.len() implies #[trigger] f(h) == F::zero_of() by {
        assert(batch[h] == F::zero_of());
        let r = super::parallel_groups::round_at(h, group_size, layer);
        let lw = claims[h].lane_weights@;
        lemma_zero(F::zero_of());
        lemma_zero(round_value(words_at(trace.round_inputs@[r]@, point), lw, r, bw));
        lemma_zero(output_value(words_at(trace.states((h + 1) * group_size), point), lw, bw));
        if h < residual.len() {
            assert(residual[h] == F::zero_of());
        }
    }
    lemma_sum_zero(f, claims.len());
    let c = |h: int| batch[h].times(claims[h].mixed_eval);
    assert forall|h: int| 0 <= h < claims.len() implies #[trigger] c(h) == F::zero_of() by {
        assert(batch[h] == F::zero_of());
        lemma_zero(claims[h].mixed_eval);
    }
    lemma_sum_zero(c, claims.len());
}

/// Every claim of a layer enters the batched claim with its own weight.
pub proof fn lemma_each_claim_counts<F: BinaryField>(
    batch: Seq<F>,
    claims: Seq<BitIndexedMixedClaim<F>>,
    other: Seq<BitIndexedMixedClaim<F>>,
    g: int,
)
    requires
        0 <= g < claims.len(),
        other.len() == claims.len(),
        forall|h: int|
            0 <= h < claims.len() && h != g ==> (#[trigger] claims[h]).mixed_eval
                == other[h].mixed_eval,
    ensures
        batched_claim(batch, claims).plus(batched_claim(batch, other)) == batch[g].times(
            claims[g].mixed_eval.plus(other[g].mixed_eval),
        ),
{
    let f = |h: int| batch[h].times(claims[h].mixed_eval);
    let f2 = |h: int| batch[h].times(other[h].mixed_eval);
    assert forall|h: int| 0 <= h < claims.len() && h != g implies #[trigger] f(h) == f2(h) by {
        assert(claims[h].mixed_eval == other[h].mixed_eval);
    }
    lemma_sums_differ(f, f2, g, claims.len());
    lemma_distr(claims[g].mixed_eval, other[g].mixed_eval, batch[g]);
}

/// Every term enters a batched value: one more round term adds its coefficient times its round of its
/// table, one more output term its coefficient times its table.
pub proof fn lemma_each_term_counts<F: BinaryField>(
    blocks: spec_fn(int) -> Seq<F>,
    rounds: Seq<RoundTerm<F>>,
    outs: Seq<OutputTerm<F>>,
    round: RoundTerm<F>,
    out: OutputTerm<F>,
    bw: Seq<F>,
)
    ensures
        batched_value(blocks, rounds.push(round), outs, bw) == batched_value(
            blocks,
            rounds,
            outs,
            bw,
        ).plus(
            round.coeff.times(
                round_value(
                    blocks(round.table as int),
                    round.lane_weights@,
                    round.round as int,
                    bw,
                ),
            ),
        ),
        batched_value(blocks, rounds, outs.push(out), bw) == batched_value(
            blocks,
            rounds,
            outs,
            bw,
        ).plus(
            out.coeff.times(output_value(blocks(out.table as int), out.lane_weights@, bw)),
        ),
        batched_value(blocks, Seq::empty(), Seq::empty(), bw) == F::zero_of(),
{
    let rf = |ts: Seq<RoundTerm<F>>|
        |t: int|
            ts[t].coeff.times(
                round_value(
                    blocks(ts[t].table as int),
                    ts[t].lane_weights@,
                    ts[t].round as int,
                    bw,
                ),
            );
    let of = |us: Seq<OutputTerm<F>>|
        |u: int|
            us[u].coeff.times(
                output_value(blocks(us[u].table as int), us[u].lane_weights@, bw),
            );
    let (n, m) = (rounds.len(), outs.len());
    let (rs, os) = (rounds.push(round), outs.push(out));
    lemma_sum_ext(rf(rs), rf(rounds), n);
    lemma_sum_ext(of(os), of(outs), m);
    let (a, b) = (sum(rf(rounds), n), sum(of(outs), m));
    let x = rf(rs)(n as int);
    let y = of(os)(m as int);
    assert(sum(rf(rs), n + 1) == a.plus(x));
    assert(sum(of(os), m + 1) == b.plus(y));
    F::lemma_plus(a, x, b);
    F::lemma_plus(x, b, b);
    F::lemma_plus(a, b, x);
    F::lemma_plus(a, b, y);
    assert(batched_value(blocks, rs, outs, bw) == sum(rf(rs), n + 1).plus(sum(of(outs), m)));
    assert(batched_value(blocks, rounds, os, bw) == sum(rf(rounds), n).plus(sum(of(os), m + 1)));
    assert(batched_value(blocks, rounds, outs, bw) == a.plus(b));
    lemma_zero(F::zero_of());
}

/// A round polynomial at zero, at one and at a challenge is the polynomial of its coefficients.
pub proof fn lemma_coeffs_are_a_polynomial<F: BinaryField>(c: RoundCoeffs<F>, t: F)
    ensures
        coeffs_at(c, F::zero_of()) == c.c0,
        coeffs_at(c, F::one_of()) == c.c0.plus(c.c1).plus(c.c2),
        coeffs_at(c, t) == c.c0.plus(c.c1.times(t)).plus(c.c2.times(t.times(t))),
{
    let (c0, c1, c2) = (c.c0, c.c1, c.c2);
    lemma_zero(c1.plus(F::zero_of().times(c2)));
    lemma_zero(c0);
    lemma_zero(c2);
    lemma_zero(c1.plus(c2));
    F::lemma_plus(c0, c1, c2);
    lemma_distr(c1, t.times(c2), t);
    F::lemma_times(c1, t, t);
    F::lemma_times(t, t, c2);
    F::lemma_times(t.times(t), c2, c2);
    F::lemma_plus(c0, c1.times(t), c2.times(t.times(t)));
}

/// A round fixes the constant coefficient by the claim and the others: a message passes exactly where
/// that coefficient is the claim plus the coordinate times the sum of the other two.
pub proof fn lemma_round_fixes_constant<F: BinaryField>(
    c: RoundCoeffs<F>,
    alpha: F,
    claim: F,
)
    ensures
        round_passes(c, alpha, claim) <==> c.c0 == claim.plus(alpha.times(c.c1.plus(c.c2))),
{
    let (c0, s) = (c.c0, c.c1.plus(c.c2));
    lemma_coeffs_are_a_polynomial(c, alpha);
    F::lemma_plus(c0, c.c1, c.c2);
    let one = F::one_of();
    // (1 + alpha) c0 + alpha (c0 + s) = c0 + alpha s
    let v = line(c0, c0.plus(s), alpha);
    lemma_distr(one, alpha, c0);
    lemma_zero(c0);
    lemma_distr(c0, s, alpha);
    let (p, q) = (alpha.times(c0), alpha.times(s));
    F::lemma_times(c0, alpha, alpha);
    F::lemma_plus(c0.plus(p), p, q);
    F::lemma_plus(c0, p, p);
    F::lemma_plus(p, p, p);
    F::lemma_plus(c0.plus(p), p.plus(q), q);
    F::lemma_plus(c0, q, q);
    F::lemma_plus(q, q, q);
    F::lemma_plus(claim, q, q);
    lemma_zero(claim);
    lemma_zero(q);
    assert(v == c0.plus(q));
}

/// Of two runs with the same challenges whose messages agree but for the constant coefficient of
/// round `i`, one at most passes, whichever round it is.
pub proof fn lemma_each_round_is_checked<F: BinaryField>(
    point: Seq<F>,
    claim: F,
    messages: Seq<RoundCoeffs<F>>,
    other: Seq<RoundCoeffs<F>>,
    challenges: Seq<F>,
    i: int,
)
    requires
        0 <= i < messages.len(),
        other.len() == messages.len(),
        forall|k: int| 0 <= k < messages.len() && k != i ==> #[trigger] messages[k] == other[k],
        messages[i].c1 == other[i].c1,
        messages[i].c2 == other[i].c2,
        messages[i].c0 != other[i].c0,
    ensures
        !(rounds_pass(point, claim, messages, challenges) && rounds_pass(
            point,
            claim,
            other,
            challenges,
        )),
{
    let alpha = point[point.len() - 1 - i];
    if i > 0 {
        assert(messages[i - 1] == other[i - 1]);
    }
    let before = claim_before(claim, messages, challenges, i);
    assert(before == claim_before(claim, other, challenges, i));
    lemma_round_fixes_constant(messages[i], alpha, before);
    lemma_round_fixes_constant(other[i], alpha, before);
    if rounds_pass(point, claim, messages, challenges) && rounds_pass(
        point,
        claim,
        other,
        challenges,
    ) {
        assert(round_passes(messages[i], alpha, before));
        assert(round_passes(other[i], alpha, before));
    }
}

} // verus!
