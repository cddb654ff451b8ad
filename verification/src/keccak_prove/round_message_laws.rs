//! Laws of the first prover message: every round trace enters with its own residuals and weights.
use super::bit_ntt::folded_residual;
use super::operands::residual_word;
use super::round_message::{folded_claim, indexed_residual, message_at};
use super::shift_evals::{fold_word, lemma_fold_xor};
use super::trace::{iota_word, right_of, RoundTrace};
use crate::field::{BinaryField, ExtensionOf};
use crate::math::sums::{
    keep_if, lemma_distr, lemma_sum_ext, lemma_sum_plus, lemma_sum_single, lemma_sum_split,
    lemma_zero, sum,
};
use crate::verify::shift_laws::{bit64, indicator};
use vstd::prelude::*;

verus! {

/// Appending a trace adds the weighted residuals of that trace, of the round that its position
/// gives, and nothing else; a message without traces is zero.
pub proof fn lemma_message_appends<F: ExtensionOf<S>, S: BinaryField>(
    traces: Seq<RoundTrace>,
    t: RoundTrace,
    weights: Seq<F>,
    own: Seq<F>,
    w: Seq<S>,
)
    requires
        weights.len() == 25 * traces.len(),
        own.len() == 25,
    ensures
        message_at::<F, S>(Seq::empty(), weights, w) == F::zero_of(),
        message_at::<F, S>(traces.push(t), weights + own, w) == message_at::<F, S>(
            traces,
            weights,
            w,
        ).plus(
            sum(
                |l: int|
                    own[l].times(
                        F::embed_of(
                            folded_residual(
                                w,
                                t.pre_chi@,
                                t.output@,
                                traces.len() as int % 24,
                                l,
                            ),
                        ),
                    ),
                25,
            ),
        ),
{
    let n = traces.len();
    let (all, ws) = (traces.push(t), weights + own);
    let f = |k: int| ws[k].times(F::embed_of(indexed_residual(all, w, k)));
    let g = |k: int| weights[k].times(F::embed_of(indexed_residual(traces, w, k)));
    lemma_sum_split(f, 25 * n, 25);
    assert forall|k: int| 0 <= k < 25 * n implies #[trigger] f(k) == g(k) by {
        assert(all[k / 25] == traces[k / 25]);
    }
    lemma_sum_ext(f, g, 25 * n);
    let tail = |l: int| f((25 * n) as nat + l);
    let want = |l: int|
        own[l].times(
            F::embed_of(folded_residual(w, t.pre_chi@, t.output@, n as int % 24, l)),
        );
    assert forall|l: int| 0 <= l < 25 implies #[trigger] tail(l) == want(l) by {
        let k = 25 * n + l;
        assert(k / 25 == n && k % 25 == l);
        assert(all[k / 25] == t);
    }
    lemma_sum_ext(tail, want, 25);
}

/// Appending a trace adds to the folded claim the weighted residuals of that trace, of the round that
/// its position gives, and nothing else; a claim without traces is zero.
pub proof fn lemma_folded_claim_appends<F: ExtensionOf<S>, S: BinaryField>(
    traces: Seq<RoundTrace>,
    t: RoundTrace,
    weights: Seq<S>,
    own: Seq<S>,
    l: Seq<F>,
)
    requires
        weights.len() == 25 * traces.len(),
        own.len() == 25,
    ensures
        folded_claim::<F, S>(Seq::empty(), weights, l) == F::zero_of(),
        folded_claim::<F, S>(traces.push(t), weights + own, l) == folded_claim::<F, S>(
            traces,
            weights,
            l,
        ).plus(
            sum(
                |i: int|
                    folded_residual(
                        l,
                        t.pre_chi@,
                        t.output@,
                        traces.len() as int % 24,
                        i,
                    ).times(F::embed_of(own[i])),
                25,
            ),
        ),
{
    let n = traces.len();
    let (all, ws) = (traces.push(t), weights + own);
    let f = |k: int| indexed_residual(all, l, k).times(F::embed_of(ws[k]));
    let g = |k: int| indexed_residual(traces, l, k).times(F::embed_of(weights[k]));
    lemma_sum_split(f, 25 * n, 25);
    assert forall|k: int| 0 <= k < 25 * n implies #[trigger] f(k) == g(k) by {
        assert(all[k / 25] == traces[k / 25]);
    }
    lemma_sum_ext(f, g, 25 * n);
    let tail = |i: int| f((25 * n) as nat + i);
    let want = |i: int|
        folded_residual(l, t.pre_chi@, t.output@, n as int % 24, i).times(F::embed_of(own[i]));
    assert forall|i: int| 0 <= i < 25 implies #[trigger] tail(i) == want(i) by {
        let k = 25 * n + i;
        assert(k / 25 == n && k % 25 == i);
        assert(all[k / 25] == t);
    }
    lemma_sum_ext(tail, want, 25);
}

/// Changing one output lane of one trace by a word changes the message by the weight of that lane
/// times the folded word, whichever trace of the batch it is.
pub proof fn lemma_message_follows_outputs<F: ExtensionOf<S>, S: BinaryField>(
    traces: Seq<RoundTrace>,
    changed: RoundTrace,
    weights: Seq<F>,
    w: Seq<S>,
    i: int,
    lane: int,
    d: u64,
)
    requires
        0 <= i < traces.len(),
        0 <= lane < 25,
        w.len() == 64,
        weights.len() == 25 * traces.len(),
        changed.pre_chi@ == traces[i].pre_chi@,
        changed.output@ == traces[i].output@.update(lane, traces[i].output@[lane] ^ d),
    ensures
        message_at::<F, S>(traces.update(i, changed), weights, w) == message_at::<F, S>(
            traces,
            weights,
            w,
        ).plus(weights[25 * i + lane].times(F::embed_of(fold_word(d, w)))),
{
    let n = 25 * traces.len();
    let all = traces.update(i, changed);
    let f = |k: int| weights[k].times(F::embed_of(indexed_residual(traces, w, k)));
    let g = |k: int| weights[k].times(F::embed_of(indexed_residual(all, w, k)));
    let k0 = 25 * i + lane;
    let change = weights[k0].times(F::embed_of(fold_word(d, w)));
    let e = |k: int| keep_if(k == k0, change);
    assert forall|k: int| 0 <= k < n implies #[trigger] g(k) == f(k).plus(e(k)) by {
        lemma_zero(f(k));
        if k / 25 != i {
            assert(all[k / 25] == traces[k / 25]);
        } else {
            let l = k % 25;
            let (t, round) = (traces[i], i % 24);
            assert(all[i] == changed);
            if l == lane {
                assert(k == k0);
                let old_next = t.output@[lane];
                lemma_fold_xor(old_next, d, w);
                let a = fold_word(!t.pre_chi@[right_of(l, 1)], w).times(
                    fold_word(t.pre_chi@[right_of(l, 2)], w),
                ).plus(fold_word(t.pre_chi@[l], w));
                let (b, c, z) = (
                    fold_word(old_next, w),
                    fold_word(d, w),
                    fold_word(iota_word(round, l), w),
                );
                // (a + (b + c)) + z = ((a + b) + z) + c
                S::lemma_plus(a, b, c);
                S::lemma_plus(a.plus(b), c, z);
                S::lemma_plus(c, z, z);
                S::lemma_plus(a.plus(b), z, c);
                let r = folded_residual(w, t.pre_chi@, t.output@, round, l);
                assert(folded_residual(w, changed.pre_chi@, changed.output@, round, l) == r.plus(
                    c,
                ));
                F::lemma_embed(r, c);
                lemma_distr(F::embed_of(r), F::embed_of(c), weights[k]);
            } else {
                assert(changed.output@[l] == t.output@[l]);
            }
        }
    }
    lemma_sum_ext(g, |k: int| f(k).plus(e(k)), n);
    lemma_sum_plus(f, e, n);
    lemma_sum_single(e, k0, n);
}

proof fn lemma_residual_bits(p: u64, q: u64, r: u64, n: u64, c: u64, i: u64)
    by (bit_vector)
    requires
        i < 64,
    ensures
        ((((p & q) ^ r ^ n ^ c) >> i) & 1 == 1) == ((((((p >> i) & 1 == 1) && ((q >> i) & 1 == 1))
            != ((r >> i) & 1 == 1)) != ((n >> i) & 1 == 1)) != ((c >> i) & 1 == 1)),
        ((p & q) ^ r ^ n) ^ 0 == (p & q) ^ r ^ n,
{
}

proof fn lemma_fold_at_bit<F: BinaryField>(word: u64, i: int)
    requires
        0 <= i < 64,
    ensures
        fold_word(word, Seq::new(64, |k: int| indicator::<F>(k == i))) == indicator::<F>(
            bit64(word, i),
        ),
{
    let w = Seq::new(64, |k: int| indicator::<F>(k == i));
    let f = |k: int| keep_if(bit64(word, k), w[k]);
    lemma_sum_single(f, i, 64);
}

/// With all weight on bit `i`, the folded residual of a lane is bit `i` of its residual word: the AND
/// of its right neighbours, the first one complemented, with the lane, the next state and the round
/// constant added.
pub proof fn lemma_folded_residual_at_bit<F: BinaryField>(
    pre_chi: Seq<u64>,
    next: Seq<u64>,
    round: int,
    lane: int,
    i: int,
)
    requires
        pre_chi.len() == 25,
        0 <= lane < 25,
        0 <= i < 64,
    ensures
        folded_residual(
            Seq::new(64, |k: int| indicator::<F>(k == i)),
            pre_chi,
            next,
            round,
            lane,
        ) == indicator::<F>(bit64(residual_word(pre_chi, next, round, lane), i)),
{
    let (p, q) = (!pre_chi[right_of(lane, 1)], pre_chi[right_of(lane, 2)]);
    let (r, n, c) = (pre_chi[lane], next[lane], iota_word(round, lane));
    lemma_fold_at_bit::<F>(p, i);
    lemma_fold_at_bit::<F>(q, i);
    lemma_fold_at_bit::<F>(r, i);
    lemma_fold_at_bit::<F>(n, i);
    lemma_fold_at_bit::<F>(c, i);
    lemma_residual_bits(p, q, r, n, c, i as u64);
    lemma_zero(F::one_of());
    lemma_zero(F::zero_of());
    F::lemma_plus(F::one_of(), F::one_of(), F::one_of());
}

} // verus!
