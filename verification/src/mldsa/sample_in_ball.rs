//! `SampleInBall` with a bounded number of draws.
use super::bits::{bit_of, lemma_sign_bit};
use super::hint::packed_bytes;
use super::params::MldsaParams;
use super::types::{MldsaSampleInBallFixedCap, MldsaSampleInBallFixedCapSparse};
use super::util::{
    assert_true_cond, constant_index, iadd_wrapping, isub_one, iw, ix, select_indexed_wire_unchecked,
    unpack_bytes_from_words,
};
use crate::circuit::word::{add64, byte_of, lemma_mask_and, mask};
use crate::circuit::{lemma_vals_kept, CircuitBuilder, Wire};
use crate::keccak::shake::{shake256, shake256_of};
use vstd::prelude::*;

verus! {

/// The number of draws consumed before round `r`.
pub open spec fn cursor_of(counts: Seq<u64>, r: int) -> int
    decreases r,
{
    if r <= 0 {
        0
    } else {
        cursor_of(counts, r - 1) + counts[r - 1]
    }
}

/// The draw that round `r` accepts.
pub open spec fn accepted_draw(draws: Seq<u64>, counts: Seq<u64>, r: int) -> u64 {
    draws[cursor_of(counts, r + 1) - 1]
}

/// Whether round `r` consumes at least one draw and none beyond the cap, accepts a draw that is at
/// most `bound`, and skips only draws above `bound`.
pub open spec fn round_ok(draws: Seq<u64>, counts: Seq<u64>, bound: int, r: int) -> bool {
    &&& counts[r] >= 1
    &&& cursor_of(counts, r + 1) <= draws.len()
    &&& accepted_draw(draws, counts, r) <= bound
    &&& forall|q: int|
        cursor_of(counts, r) <= q < cursor_of(counts, r + 1) - 1 ==> #[trigger] draws[q] > bound
}

/// Whether the first `m` rounds follow the rejection rule. Round `r` samples for coefficient
/// `n - tau + r`.
pub open spec fn sampled(
    draws: Seq<u64>,
    counts: Seq<u64>,
    n: int,
    tau: int,
    m: int,
) -> bool {
    forall|r: int| 0 <= r < m ==> #[trigger] round_ok(draws, counts, n - tau + r, r)
}

/// The positions with `from` replaced by `to`.
pub open spec fn moved(positions: Seq<u64>, from: u64, to: int) -> Seq<u64> {
    Seq::new(
        positions.len(),
        |t: int|
            if positions[t] == from {
                to as u64
            } else {
                positions[t]
            },
    )
}

/// The positions of the nonzero coefficients after `m` rounds, in update order.
pub open spec fn positions_of(
    draws: Seq<u64>,
    counts: Seq<u64>,
    n: int,
    tau: int,
    m: nat,
) -> Seq<u64>
    decreases m,
{
    if m == 0 {
        Seq::empty()
    } else {
        let j = accepted_draw(draws, counts, m - 1);
        moved(positions_of(draws, counts, n, tau, (m - 1) as nat), j, n - tau + m - 1).push(j)
    }
}

/// The sign of round `r`: `-1` where the bit is set.
pub open spec fn sign_of(sign_word: u64, r: int) -> u64 {
    if bit_of(sign_word, r) {
        u64::MAX
    } else {
        1
    }
}

/// The signs of the first `m` rounds.
pub open spec fn signs_of(sign_word: u64, m: nat) -> Seq<u64> {
    Seq::new(m, |r: int| sign_of(sign_word, r))
}

/// The sign of the last of the first `m` entries at position `x`, or zero.
pub open spec fn coeff_at(positions: Seq<u64>, signs: Seq<u64>, x: int, m: nat) -> u64
    decreases m,
{
    if m == 0 {
        0
    } else if positions[m - 1] == x {
        signs[m - 1]
    } else {
        coeff_at(positions, signs, x, (m - 1) as nat)
    }
}

/// The coefficients of a sparse polynomial.
pub open spec fn expanded_of(positions: Seq<u64>, signs: Seq<u64>, n: int) -> Seq<u64> {
    Seq::new(n as nat, |x: int| coeff_at(positions, signs, x, positions.len()))
}

/// The draws of a stream: the bytes behind the sign word.
pub open spec fn draws_of(stream: Seq<u64>, cap: int) -> Seq<u64> {
    packed_bytes(stream.skip(1), cap)
}

/// Like `round_ok`, with only the draws from `lo` to `hi` held to the rejection rule.
spec fn windowed_round_ok(
    draws: Seq<u64>,
    counts: Seq<u64>,
    bound: int,
    r: int,
    lo: int,
    hi: int,
) -> bool {
    &&& counts[r] >= 1
    &&& cursor_of(counts, r + 1) <= draws.len()
    &&& accepted_draw(draws, counts, r) <= bound
    &&& forall|q: int|
        lo <= q < hi && cursor_of(counts, r) <= q < cursor_of(counts, r + 1) - 1
            ==> #[trigger] draws[q] > bound
}

/// The first `m` rounds, each held to the draws that it can reach.
spec fn windowed_sampled(
    draws: Seq<u64>,
    counts: Seq<u64>,
    n: int,
    tau: int,
    m: int,
) -> bool {
    forall|r: int|
        0 <= r < m ==> #[trigger] windowed_round_ok(
            draws,
            counts,
            n - tau + r,
            r,
            r,
            draws.len() - tau + r + 1,
        )
}

proof fn lemma_cursor_low(draws: Seq<u64>, counts: Seq<u64>, n: int, tau: int, m: int, r: int)
    requires
        0 <= r <= m,
        windowed_sampled(draws, counts, n, tau, m),
    ensures
        cursor_of(counts, r) >= r,
        r > 0 ==> cursor_of(counts, r) <= draws.len(),
    decreases r,
{
    if r > 0 {
        lemma_cursor_low(draws, counts, n, tau, m, r - 1);
        let p = r - 1;
        assert(windowed_round_ok(draws, counts, n - tau + p, p, p, draws.len() - tau + p + 1));
    }
}

proof fn lemma_cursor_high(draws: Seq<u64>, counts: Seq<u64>, n: int, tau: int, r: int)
    requires
        0 < r <= tau,
        windowed_sampled(draws, counts, n, tau, tau),
    ensures
        cursor_of(counts, r) <= draws.len() - tau + r,
    decreases tau - r,
{
    if r == tau {
        lemma_cursor_low(draws, counts, n, tau, tau, r);
    } else {
        lemma_cursor_high(draws, counts, n, tau, r + 1);
        assert(windowed_round_ok(draws, counts, n - tau + r, r, r, draws.len() - tau + r + 1));
    }
}

proof fn lemma_windows_suffice(draws: Seq<u64>, counts: Seq<u64>, n: int, tau: int)
    requires
        0 < tau,
    ensures
        windowed_sampled(draws, counts, n, tau, tau) == sampled(draws, counts, n, tau, tau),
{
    if windowed_sampled(draws, counts, n, tau, tau) {
        assert forall|r: int| 0 <= r < tau implies #[trigger] round_ok(
            draws,
            counts,
            n - tau + r,
            r,
        ) by {
            assert(windowed_round_ok(draws, counts, n - tau + r, r, r, draws.len() - tau + r + 1));
            lemma_cursor_low(draws, counts, n, tau, tau, r);
            lemma_cursor_high(draws, counts, n, tau, r + 1);
        }
    }
    if sampled(draws, counts, n, tau, tau) {
        assert forall|r: int| 0 <= r < tau implies #[trigger] windowed_round_ok(
            draws,
            counts,
            n - tau + r,
            r,
            r,
            draws.len() - tau + r + 1,
        ) by {
            assert(round_ok(draws, counts, n - tau + r, r));
        }
    }
}

/// Asserts that the draws from `lo` to `hi` exceed `bound` where they are skipped: from the cursor
/// up to the accepted one.
fn assert_skipped_draws(
    builder: &mut CircuitBuilder,
    draw_bytes: &Vec<Wire>,
    cursor: Wire,
    accepted_pos: Wire,
    bound: Wire,
    lo: usize,
    hi: usize,
)
    requires
        old(builder).wf(),
        old(builder).has_all(draw_bytes@),
        old(builder).has(cursor),
        old(builder).has(accepted_pos),
        old(builder).has(bound),
        lo <= hi <= draw_bytes@.len(),
    ensures
        final(builder).extends(*old(builder)),
        forall|w: Seq<u64>|
            #[trigger] final(builder).accepts(w) == (old(builder).accepts(w) && skips_ok(
                old(builder).vals(w, draw_bytes@),
                iw(old(builder).val(w, cursor)),
                iw(old(builder).val(w, accepted_pos)),
                iw(old(builder).val(w, bound)),
                ix(lo),
                ix(hi),
            )),
{
    let ghost b0 = *builder;
    for q in lo..hi
        invariant
            b0.wf(),
            b0.has_all(draw_bytes@),
            b0.has(cursor),
            b0.has(accepted_pos),
            b0.has(bound),
            lo <= hi <= draw_bytes@.len(),
            builder.extends(b0),
            forall|w: Seq<u64>|
                #[trigger] builder.accepts(w) == (b0.accepts(w) && skips_ok(
                    b0.vals(w, draw_bytes@),
                    iw(b0.val(w, cursor)),
                    iw(b0.val(w, accepted_pos)),
                    iw(b0.val(w, bound)),
                    ix(lo),
                    ix(q),
                )),
    {
        let ghost bi = *builder;
        assert(b0.has(draw_bytes@[ix(q)]));
        let draw_idx_wire = constant_index(builder, q);
        let after_cursor = builder.icmp_ule(cursor, draw_idx_wire);
        let before_accepted = builder.icmp_ult(draw_idx_wire, accepted_pos);
        let is_skipped = builder.band(after_cursor, before_accepted);
        let above = builder.icmp_ugt(draw_bytes[q], bound);
        let ghost b1 = *builder;
        assert_true_cond(builder, above, is_skipped);
        proof {
            assert forall|w: Seq<u64>| #[trigger] builder.accepts(w) == (b0.accepts(w) && skips_ok(
                b0.vals(w, draw_bytes@),
                iw(b0.val(w, cursor)),
                iw(b0.val(w, accepted_pos)),
                iw(b0.val(w, bound)),
                ix(lo),
                q + 1,
            )) by {
                let d = b0.vals(w, draw_bytes@);
                let (c, a, i) = (b0.val(w, cursor), b0.val(w, accepted_pos), b0.val(w, bound));
                lemma_mask_and(c <= q, q < a);
                assert(bi.val(w, cursor) == c && bi.val(w, accepted_pos) == a && bi.val(w, bound)
                    == i);
                assert(bi.val(w, draw_bytes@[ix(q)]) == d[ix(q)]);
                assert(b1.val(w, is_skipped) == mask(c <= q < a));
                assert(b1.val(w, above) == mask(d[ix(q)] > i));
                assert(builder.accepts(w) == (bi.accepts(w) && (c <= q < a ==> d[ix(q)] > i)));
                assert(skips_ok(d, iw(c), iw(a), iw(i), ix(lo), q + 1) == (skips_ok(
                    d,
                    iw(c),
                    iw(a),
                    iw(i),
                    ix(lo),
                    ix(q),
                ) && (c <= q < a ==> d[ix(q)] > i)));
            }
        }
    }
}

/// Whether the draws from `lo` to `hi` exceed `bound` where they lie from `start` up to `end`.
spec fn skips_ok(d: Seq<u64>, start: int, end: int, bound: int, lo: int, hi: int) -> bool {
    forall|q: int| lo <= q < hi && start <= q < end ==> #[trigger] d[q] > bound
}

/// One round of the rejection rule: the cursor behind it and the draw that it accepts.
#[verifier::spinoff_prover]
#[verifier::rlimit(60)]
fn sample_round<P: MldsaParams>(
    builder: &mut CircuitBuilder,
    draw_bytes: &Vec<Wire>,
    cursor: Wire,
    draw_count: Wire,
    round: usize,
) -> (r: (Wire, Wire))
    requires
        old(builder).wf(),
        old(builder).has_all(draw_bytes@),
        old(builder).has(cursor),
        old(builder).has(draw_count),
        draw_bytes@.len() == P::SAMPLE_IN_BALL_ONE_BLOCK_DRAW_CAP_BYTES,
        round < P::TAU,
    ensures
        final(builder).extends(*old(builder)),
        final(builder).has(r.0),
        final(builder).has(r.1),
        forall|w: Seq<u64>, counts: Seq<u64>|
            #![trigger final(builder).accepts(w), cursor_of(counts, ix(round))]
            old(builder).val(w, cursor) == cursor_of(counts, ix(round)) <= draw_bytes@.len()
                && old(builder).val(w, draw_count) == counts[ix(round)] ==> final(builder).accepts(w)
                == (old(builder).accepts(w) && windowed_round_ok(
                old(builder).vals(w, draw_bytes@),
                counts,
                P::N - P::TAU + round,
                ix(round),
                ix(round),
                draw_bytes@.len() - P::TAU + round + 1,
            )),
        forall|w: Seq<u64>, counts: Seq<u64>|
            #![trigger final(builder).accepts(w), cursor_of(counts, ix(round))]
            old(builder).val(w, cursor) == cursor_of(counts, ix(round)) <= draw_bytes@.len()
                && old(builder).val(w, draw_count) == counts[ix(round)] && windowed_round_ok(
                old(builder).vals(w, draw_bytes@),
                counts,
                P::N - P::TAU + round,
                ix(round),
                ix(round),
                draw_bytes@.len() - P::TAU + round + 1,
            ) ==> final(builder).val(w, r.0) == cursor_of(counts, round + 1) && final(builder).val(
                w,
                r.1,
            ) == accepted_draw(old(builder).vals(w, draw_bytes@), counts, ix(round)),
        forall|w: Seq<u64>| #[trigger] final(builder).accepts(w) ==> old(builder).accepts(w),
{
    let ghost b0 = *builder;
    proof {
        P::lemma_params();
    }
    let cap: usize = P::SAMPLE_IN_BALL_ONE_BLOCK_DRAW_CAP_BYTES;
    let one = builder.add_constant_64(1);
    let i_wire = constant_index(builder, P::N - P::TAU + round);
    let nonzero = builder.icmp_ule(one, draw_count);
    builder.assert_true(nonzero);
    let next_cursor = iadd_wrapping(builder, cursor, draw_count);
    let draw_cap = constant_index(builder, cap);
    let monotone = builder.icmp_ule(cursor, next_cursor);
    builder.assert_true(monotone);
    let within_cap = builder.icmp_ule(next_cursor, draw_cap);
    builder.assert_true(within_cap);
    let accepted_pos = isub_one(builder, next_cursor);
    let ghost b1 = *builder;
    proof {
        lemma_vals_kept(b1, b0, draw_bytes@);
    }
    let accepted = select_indexed_wire_unchecked(builder, draw_bytes.as_slice(), accepted_pos);
    let ghost b2 = *builder;
    let accepted_ok = builder.icmp_ule(accepted, i_wire);
    builder.assert_true(accepted_ok);
    let ghost b3 = *builder;
    proof {
        lemma_vals_kept(b3, b0, draw_bytes@);
    }
    assert_skipped_draws(
        builder,
        draw_bytes,
        cursor,
        accepted_pos,
        i_wire,
        round,
        cap - P::TAU + round + 1,
    );
    proof {
        assert forall|w: Seq<u64>, counts: Seq<u64>|
            #![trigger builder.accepts(w), cursor_of(counts, ix(round))]
            b0.val(w, cursor) == cursor_of(counts, ix(round)) <= draw_bytes@.len() && b0.val(
                w,
                draw_count,
            ) == counts[ix(round)] implies builder.accepts(w) == (b0.accepts(w)
            && windowed_round_ok(
            b0.vals(w, draw_bytes@),
            counts,
            P::N - P::TAU + round,
            ix(round),
            ix(round),
            draw_bytes@.len() - P::TAU + round + 1,
        )) && (windowed_round_ok(
            b0.vals(w, draw_bytes@),
            counts,
            P::N - P::TAU + round,
            ix(round),
            ix(round),
            draw_bytes@.len() - P::TAU + round + 1,
        ) ==> builder.val(w, next_cursor) == cursor_of(counts, round + 1) && builder.val(
            w,
            accepted,
        ) == accepted_draw(b0.vals(w, draw_bytes@), counts, ix(round))) by {
            let d = b0.vals(w, draw_bytes@);
            let (c, k) = (b0.val(w, cursor), b0.val(w, draw_count));
            let next = cursor_of(counts, round + 1);
            assert(next == c + k);
            assert(b3.vals(w, draw_bytes@) == d);
            assert(b1.val(w, next_cursor) == add64(c, k));
            assert(b1.accepts(w) == (b0.accepts(w) && k >= 1 && next <= cap));
            if k >= 1 && next <= cap {
                assert(b1.val(w, next_cursor) == next);
                assert(b1.val(w, accepted_pos) == next - 1);
                assert(b2.val(w, accepted) == b1.val(w, draw_bytes@[next - 1]));
                assert(b1.vals(w, draw_bytes@)[next - 1] == d[next - 1]);
                assert(b3.val(w, accepted_pos) == next - 1);
                assert(b3.val(w, cursor) == c);
                assert(b3.val(w, i_wire) == P::N - P::TAU + round);
                assert(b3.accepts(w) == (b0.accepts(w) && d[next - 1] <= P::N - P::TAU + round));
                let hi = draw_bytes@.len() - P::TAU + round + 1;
                assert(windowed_round_ok(
                    d,
                    counts,
                    P::N - P::TAU + round,
                    ix(round),
                    ix(round),
                    hi,
                ) == (d[next - 1] <= P::N - P::TAU + round && skips_ok(
                    d,
                    iw(c),
                    next - 1,
                    P::N - P::TAU + round,
                    ix(round),
                    hi,
                )));
            }
        }
    }
    (next_cursor, accepted)
}

/// Moves the position `from` to `to` in a list of positions.
fn move_position(
    builder: &mut CircuitBuilder,
    positions: &Vec<Wire>,
    from: Wire,
    to: Wire,
) -> (r: Vec<Wire>)
    requires
        old(builder).wf(),
        old(builder).has_all(positions@),
        old(builder).has(from),
        old(builder).has(to),
    ensures
        final(builder).computes_on(*old(builder)),
        final(builder).has_all(r@),
        r@.len() == positions@.len(),
        forall|w: Seq<u64>|
            #[trigger] final(builder).vals(w, r@) == moved(
                old(builder).vals(w, positions@),
                old(builder).val(w, from),
                iw(old(builder).val(w, to)),
            ),
{
    let ghost b0 = *builder;
    let n: usize = positions.len();
    let mut r: Vec<Wire> = Vec::new();
    for t in 0..n
        invariant
            n == positions@.len(),
            b0.wf(),
            b0.has_all(positions@),
            b0.has(from),
            b0.has(to),
            builder.computes_on(b0),
            builder.has_all(r@),
            r@.len() == t,
            forall|w: Seq<u64>, k: int|
                0 <= k < t ==> #[trigger] builder.val(w, r@[k]) == moved(
                    b0.vals(w, positions@),
                    b0.val(w, from),
                    iw(b0.val(w, to)),
                )[k],
    {
        let ghost bi = *builder;
        let ghost ri = r@;
        assert(b0.has(positions@[ix(t)]));
        let is_from = builder.icmp_eq(positions[t], from);
        let position = builder.select(is_from, to, positions[t]);
        r.push(position);
        proof {
            assert forall|w: Seq<u64>, k: int| 0 <= k < t + 1 implies #[trigger] builder.val(
                w,
                r@[k],
            ) == moved(b0.vals(w, positions@), b0.val(w, from), iw(b0.val(w, to)))[k] by {
                if k < t {
                    assert(r@[k] == ri[k]);
                    assert(bi.has(ri[k]));
                    assert(bi.val(w, ri[k]) == moved(
                        b0.vals(w, positions@),
                        b0.val(w, from),
                        iw(b0.val(w, to)),
                    )[k]);
                }
            }
        }
    }
    proof {
        assert forall|w: Seq<u64>| #[trigger] builder.vals(w, r@) == moved(
            b0.vals(w, positions@),
            b0.val(w, from),
            iw(b0.val(w, to)),
        ) by {
            assert(builder.vals(w, r@) =~= moved(
                b0.vals(w, positions@),
                b0.val(w, from),
                iw(b0.val(w, to)),
            ));
        }
    }
    r
}

/// The sign of round `round`.
fn sample_sign(builder: &mut CircuitBuilder, sign_word: Wire, round: usize) -> (r: Wire)
    requires
        old(builder).wf(),
        old(builder).has(sign_word),
        round < 64,
    ensures
        final(builder).computes_on(*old(builder)),
        final(builder).has(r),
        forall|w: Seq<u64>|
            #[trigger] final(builder).val(w, r) == sign_of(
                old(builder).val(w, sign_word),
                round as int,
            ),
{
    let ghost b0 = *builder;
    let one = builder.add_constant_64(1);
    let shifted = builder.shr(sign_word, round as u32);
    let sign_bit = builder.band(shifted, one);
    let sign_is_negative = builder.shl(sign_bit, 63);
    let minus_one = builder.add_constant_64(u64::MAX);
    let ghost b1 = *builder;
    let r = builder.select(sign_is_negative, minus_one, one);
    proof {
        assert forall|w: Seq<u64>| #[trigger] builder.val(w, r) == sign_of(
            b0.val(w, sign_word),
            round as int,
        ) by {
            lemma_sign_bit(b0.val(w, sign_word), round as u64);
            assert(b1.val(w, sign_is_negative) == ((b0.val(w, sign_word) >> (round as u64)) & 1)
                << 63u64);
        }
    }
    r
}

/// Fresh witness wires.
fn witness_wires(builder: &mut CircuitBuilder, n: usize) -> (r: Vec<Wire>)
    requires
        old(builder).wf(),
    ensures
        final(builder).computes_on(*old(builder)),
        final(builder).has_all(r@),
        r@.len() == n,
        forall|i: int| 0 <= i < n ==> (#[trigger] r@[i]).index == old(builder).n() + i,
        forall|w: Seq<u64>, i: int|
            0 <= i < n ==> #[trigger] final(builder).val(w, r@[i]) == w[old(builder).n() + i],
{
    let ghost b0 = *builder;
    let mut r: Vec<Wire> = Vec::new();
    for i in 0..n
        invariant
            b0.wf(),
            builder.computes_on(b0),
            builder.n() == b0.n() + i,
            builder.has_all(r@),
            r@.len() == i,
            forall|k: int| 0 <= k < i ==> (#[trigger] r@[k]).index == b0.n() + k,
            forall|w: Seq<u64>, k: int|
                0 <= k < i ==> #[trigger] builder.val(w, r@[k]) == w[b0.n() + k],
    {
        let ghost bi = *builder;
        let ghost ri = r@;
        let wire = builder.add_witness();
        r.push(wire);
        proof {
            assert forall|w: Seq<u64>, k: int| 0 <= k < i + 1 implies #[trigger] builder.val(
                w,
                r@[k],
            ) == w[b0.n() + k] by {
                if k < i {
                    assert(r@[k] == ri[k]);
                    assert(bi.has(ri[k]));
                    assert(bi.val(w, ri[k]) == w[b0.n() + k]);
                }
            }
        }
    }
    r
}

/// Whether the wires of a sparse sampler output carry what the stream and the counts say, where
/// the counts follow the rejection rule.
pub open spec fn sparse_carries(
    builder: CircuitBuilder,
    positions: Seq<Wire>,
    signs: Seq<Wire>,
    draw_counts: Seq<Wire>,
    w: Seq<u64>,
    stream: Seq<u64>,
    n: int,
    tau: int,
    cap: int,
) -> bool {
    let counts = builder.vals(w, draw_counts);
    let draws = draws_of(stream, cap);
    &&& sampled(draws, counts, n, tau, tau) ==> builder.vals(w, positions) == positions_of(
        draws,
        counts,
        n,
        tau,
        tau as nat,
    )
    &&& builder.vals(w, signs) == signs_of(stream[0], tau as nat)
}

proof fn lemma_push_val(
    post: CircuitBuilder,
    pre: CircuitBuilder,
    w: Seq<u64>,
    xs: Seq<Wire>,
    x: Wire,
)
    requires
        post.extends(pre),
        pre.has_all(xs),
    ensures
        post.vals(w, xs.push(x)) == pre.vals(w, xs).push(post.val(w, x)),
{
    lemma_vals_kept(post, pre, xs);
    assert(post.vals(w, xs) == pre.vals(w, xs));
    assert(post.vals(w, xs.push(x)) =~= post.vals(w, xs).push(post.val(w, x)));
}

/// Proves the fixed-cap `SampleInBall` rejection and update relation from a SHAKE stream, and keeps
/// the challenge in its sparse form.
///
/// The stream's first word holds the sign bits, the bytes behind it are the draws. The helper
/// allocates private draw-count witness wires and enforces that each round consumes at least one
/// draw, that skipped draws exceed the round's index and that the accepted draw does not.
#[verifier::spinoff_prover]
#[verifier::rlimit(60)]
pub fn sample_in_ball_fixed_cap_sparse_from_stream_for<P: MldsaParams>(
    builder: &mut CircuitBuilder,
    stream: &[Wire],
) -> (r: MldsaSampleInBallFixedCapSparse)
    requires
        old(builder).wf(),
        old(builder).has_all(stream@),
        stream@.len() == (P::SAMPLE_IN_BALL_ONE_BLOCK_STREAM_BYTES + 7) / 8,
    ensures
        final(builder).extends(*old(builder)),
        final(builder).has_all(r.positions@),
        final(builder).has_all(r.signs@),
        final(builder).has_all(r.draw_counts@),
        r.positions@.len() == P::TAU,
        r.signs@.len() == P::TAU,
        r.draw_counts@.len() == P::TAU,
        final(builder).adds_inputs(*old(builder), r.draw_counts@),
        forall|w: Seq<u64>|
            #[trigger] final(builder).accepts(w) == (old(builder).accepts(w) && sampled(
                draws_of(
                    old(builder).vals(w, stream@),
                    P::SAMPLE_IN_BALL_ONE_BLOCK_DRAW_CAP_BYTES as int,
                ),
                final(builder).vals(w, r.draw_counts@),
                P::N as int,
                P::TAU as int,
                P::TAU as int,
            )),
        forall|w: Seq<u64>|
            #![trigger final(builder).vals(w, r.positions@)]
            #![trigger final(builder).vals(w, r.signs@)]
            sparse_carries(
                *final(builder),
                r.positions@,
                r.signs@,
                r.draw_counts@,
                w,
                old(builder).vals(w, stream@),
                P::N as int,
                P::TAU as int,
                P::SAMPLE_IN_BALL_ONE_BLOCK_DRAW_CAP_BYTES as int,
            ),
{
    let ghost b0 = *builder;
    let ghost (n, tau) = (P::N as int, P::TAU as int);
    proof {
        P::lemma_params();
    }
    let cap: usize = P::SAMPLE_IN_BALL_ONE_BLOCK_DRAW_CAP_BYTES;
    let zero = builder.add_constant_64(0);
    let ghost bz = *builder;
    let draw_counts = witness_wires(builder, P::TAU);
    let ghost bc = *builder;
    let rest = vstd::slice::slice_subrange(stream, 1, stream.len());
    proof {
        assert forall|i: int| 0 <= i < rest@.len() implies bc.has(#[trigger] rest@[i]) by {
            assert(b0.has(stream@[i + 1]));
        }
    }
    let draw_bytes = unpack_bytes_from_words(builder, rest, cap);
    let ghost bd = *builder;
    let sign_word = stream[0];
    let mut cursor = zero;
    let mut positions: Vec<Wire> = Vec::new();
    let mut signs: Vec<Wire> = Vec::new();
    proof {
        assert(b0.has(stream@[0]));
        lemma_vals_kept(bd, bc, draw_counts@);
        assert forall|w: Seq<u64>| #[trigger] bd.vals(w, draw_bytes@) == draws_of(
            b0.vals(w, stream@),
            cap as int,
        ) by {
            let s = b0.vals(w, stream@);
            assert forall|i: int| 0 <= i < cap implies #[trigger] bd.vals(w, draw_bytes@)[i]
                == draws_of(s, cap as int)[i] by {
                assert(bd.val(w, draw_bytes@[i]) == byte_of(bc.val(w, rest@[i / 8]), i % 8));
                assert(rest@[i / 8] == stream@[i / 8 + 1]);
                assert(b0.has(stream@[i / 8 + 1]));
                assert(s.skip(1)[i / 8] == s[i / 8 + 1]);
            }
            assert(bd.vals(w, draw_bytes@) =~= draws_of(s, cap as int));
        }
        assert forall|w: Seq<u64>|
            #![trigger bd.vals(w, positions@)]
            #![trigger bd.val(w, cursor)]
            bd.vals(w, positions@) == positions_of(
                bd.vals(w, draw_bytes@),
                bd.vals(w, draw_counts@),
                n,
                tau,
                0,
            ) && bd.val(w, cursor) == 0 by {
            assert(bd.vals(w, positions@) =~= Seq::<u64>::empty());
            assert(bz.val(w, zero) == 0);
        }
        assert forall|w: Seq<u64>| #[trigger] bd.vals(w, signs@) == signs_of(
            b0.val(w, sign_word),
            0,
        ) by {
            assert(bd.vals(w, signs@) =~= signs_of(b0.val(w, sign_word), 0));
        }
    }
    for round in 0..P::TAU
        invariant
            b0.wf(),
            b0.has(sign_word),
            bc.extends(b0),
            bd.computes_on(b0),
            bd.extends(bc),
            bd.has_all(draw_bytes@),
            bd.has_all(draw_counts@),
            n == P::N && tau == P::TAU,
            0 < tau <= 64,
            tau <= n <= 256,
            draw_bytes@.len() == cap,
            cap == P::SAMPLE_IN_BALL_ONE_BLOCK_DRAW_CAP_BYTES,
            draw_counts@.len() == tau,
            builder.extends(bd),
            builder.has(cursor),
            builder.has_all(positions@),
            builder.has_all(signs@),
            positions@.len() == round,
            signs@.len() == round,
            forall|w: Seq<u64>|
                #[trigger] builder.accepts(w) == (b0.accepts(w) && windowed_sampled(
                    bd.vals(w, draw_bytes@),
                    bd.vals(w, draw_counts@),
                    n,
                    tau,
                    round as int,
                )),
            forall|w: Seq<u64>|
                #![trigger builder.vals(w, positions@)]
                #![trigger builder.val(w, cursor)]
                windowed_sampled(
                    bd.vals(w, draw_bytes@),
                    bd.vals(w, draw_counts@),
                    n,
                    tau,
                    round as int,
                ) ==> builder.val(w, cursor) == cursor_of(
                    bd.vals(w, draw_counts@),
                    round as int,
                ) && builder.vals(w, positions@) == positions_of(
                    bd.vals(w, draw_bytes@),
                    bd.vals(w, draw_counts@),
                    n,
                    tau,
                    round as nat,
                ),
            forall|w: Seq<u64>|
                #[trigger] builder.vals(w, signs@) == signs_of(
                    b0.val(w, sign_word),
                    round as nat,
                ),
    {
        let ghost bi = *builder;
        let ghost (old_cursor, old_positions, old_signs) = (cursor, positions@, signs@);
        proof {
            lemma_vals_kept(bi, bd, draw_bytes@);
            lemma_vals_kept(bi, bd, draw_counts@);
            assert(bd.has(draw_counts@[round as int]));
        }
        let (next_cursor, accepted) = sample_round::<P>(
            builder,
            &draw_bytes,
            cursor,
            draw_counts[round],
            round,
        );
        let ghost b1 = *builder;
        let signed_coeff = sample_sign(builder, sign_word, round);
        let i_wire = constant_index(builder, P::N - P::TAU + round);
        let ghost b2 = *builder;
        proof {
            lemma_vals_kept(b2, bi, positions@);
        }
        let mut new_positions = move_position(builder, &positions, accepted, i_wire);
        let ghost b3 = *builder;
        let ghost moved_positions = new_positions@;
        new_positions.push(accepted);
        signs.push(signed_coeff);
        positions = new_positions;
        cursor = next_cursor;
        proof {
            assert(builder.has_all(signs@)) by {
                lemma_vals_kept(b3, bi, old_signs);
            }
            assert forall|w: Seq<u64>| #[trigger] builder.vals(w, signs@) == signs_of(
                b0.val(w, sign_word),
                (round + 1) as nat,
            ) by {
                lemma_push_val(b3, bi, w, old_signs, signed_coeff);
                assert(bi.vals(w, old_signs) == signs_of(b0.val(w, sign_word), round as nat));
                assert(b3.val(w, signed_coeff) == sign_of(b0.val(w, sign_word), round as int));
                assert(builder.vals(w, signs@) =~= signs_of(
                    b0.val(w, sign_word),
                    (round + 1) as nat,
                ));
            }
            assert forall|w: Seq<u64>|
                #![trigger builder.accepts(w)]
                #![trigger builder.vals(w, positions@)]
                #![trigger builder.val(w, cursor)]
                builder.accepts(w) == (b0.accepts(w) && windowed_sampled(
                    bd.vals(w, draw_bytes@),
                    bd.vals(w, draw_counts@),
                    n,
                    tau,
                    round + 1,
                )) && (windowed_sampled(
                    bd.vals(w, draw_bytes@),
                    bd.vals(w, draw_counts@),
                    n,
                    tau,
                    round + 1,
                ) ==> builder.val(w, cursor) == cursor_of(bd.vals(w, draw_counts@), round + 1)
                    && builder.vals(w, positions@) == positions_of(
                    bd.vals(w, draw_bytes@),
                    bd.vals(w, draw_counts@),
                    n,
                    tau,
                    (round + 1) as nat,
                )) by {
                let d = bd.vals(w, draw_bytes@);
                let c = bd.vals(w, draw_counts@);
                let k = round as int;
                let here = windowed_round_ok(d, c, n - tau + k, k, k, d.len() - tau + k + 1);
                assert(windowed_sampled(d, c, n, tau, k + 1) == (windowed_sampled(d, c, n, tau, k)
                    && here));
                assert(bi.vals(w, draw_bytes@) == d);
                assert(b1.accepts(w) ==> bi.accepts(w));
                assert(builder.accepts(w) == b1.accepts(w));
                if windowed_sampled(d, c, n, tau, k) {
                    lemma_cursor_low(d, c, n, tau, k, k);
                    assert(bi.val(w, old_cursor) == cursor_of(c, ix(round)));
                    assert(cursor_of(c, ix(round)) <= cap);
                    assert(bi.val(w, draw_counts@[k]) == c[k]);
                    assert(b1.accepts(w) == (bi.accepts(w) && here));
                    if here {
                        let j = accepted_draw(d, c, k);
                        assert(b1.val(w, accepted) == j);
                        assert(b2.vals(w, old_positions) == bi.vals(w, old_positions));
                        assert(bi.vals(w, old_positions) == positions_of(
                            d,
                            c,
                            n,
                            tau,
                            round as nat,
                        ));
                        assert(b3.vals(w, moved_positions) == moved(
                            bi.vals(w, old_positions),
                            j,
                            n - tau + k,
                        ));
                        assert(builder.vals(w, positions@) =~= b3.vals(w, moved_positions).push(j));
                    }
                }
            }
        }
    }
    proof {
        lemma_vals_kept(*builder, bd, draw_counts@);
        assert forall|w: Seq<u64>| #[trigger] builder.accepts(w) == (b0.accepts(w) && sampled(
            draws_of(b0.vals(w, stream@), cap as int),
            builder.vals(w, draw_counts@),
            n,
            tau,
            tau,
        )) by {
            assert(builder.vals(w, draw_counts@) == bd.vals(w, draw_counts@));
            assert(bd.vals(w, draw_bytes@) == draws_of(b0.vals(w, stream@), cap as int));
            lemma_windows_suffice(bd.vals(w, draw_bytes@), bd.vals(w, draw_counts@), n, tau);
        }
        assert forall|w: Seq<u64>|
            #![trigger builder.vals(w, positions@)]
            #![trigger builder.vals(w, signs@)]
            sparse_carries(
                *builder,
                positions@,
                signs@,
                draw_counts@,
                w,
                b0.vals(w, stream@),
                n,
                tau,
                cap as int,
            ) by {
            assert(builder.vals(w, draw_counts@) == bd.vals(w, draw_counts@));
            assert(bd.vals(w, draw_bytes@) == draws_of(b0.vals(w, stream@), cap as int));
            lemma_windows_suffice(bd.vals(w, draw_bytes@), bd.vals(w, draw_counts@), n, tau);
            assert(builder.vals(w, positions@) == builder.vals(w, positions@));
            assert(builder.vals(w, signs@) == signs_of(b0.val(w, sign_word), tau as nat));
        }
        assert forall|w: Seq<u64>, i: int| 0 <= i < P::TAU implies #[trigger] builder.val(
            w,
            draw_counts@[i],
        ) == w[draw_counts@[i].index as int] by {
            assert(bc.has(draw_counts@[i]));
            assert(bc.val(w, draw_counts@[i]) == w[bz.n() + i]);
        }
    }
    MldsaSampleInBallFixedCapSparse { positions, signs, draw_counts }
}

/// Coefficient `x` of a sparse polynomial.
fn expand_coeff(
    builder: &mut CircuitBuilder,
    positions: &[Wire],
    signs: &[Wire],
    x: usize,
) -> (r: Wire)
    requires
        old(builder).wf(),
        old(builder).has_all(positions@),
        old(builder).has_all(signs@),
        positions@.len() == signs@.len(),
    ensures
        final(builder).computes_on(*old(builder)),
        final(builder).has(r),
        forall|w: Seq<u64>|
            #[trigger] final(builder).val(w, r) == coeff_at(
                old(builder).vals(w, positions@),
                old(builder).vals(w, signs@),
                ix(x),
                positions@.len(),
            ),
{
    let ghost b0 = *builder;
    let n: usize = positions.len();
    let coeff_idx_wire = constant_index(builder, x);
    let mut coeff = builder.add_constant_64(0);
    let ghost bz = *builder;
    for t in 0..n
        invariant
            b0.wf(),
            b0.has_all(positions@),
            b0.has_all(signs@),
            positions@.len() == signs@.len(),
            n == positions@.len(),
            bz.computes_on(b0),
            bz.has(coeff_idx_wire),
            forall|w: Seq<u64>| #[trigger] bz.val(w, coeff_idx_wire) == x,
            builder.computes_on(bz),
            builder.has(coeff),
            forall|w: Seq<u64>|
                #[trigger] builder.val(w, coeff) == coeff_at(
                    b0.vals(w, positions@),
                    b0.vals(w, signs@),
                    ix(x),
                    nat_of(t),
                ),
    {
        let ghost bi = *builder;
        let ghost prev = coeff;
        assert(b0.has(positions@[ix(t)]) && b0.has(signs@[ix(t)]));
        let is_position = builder.icmp_eq(positions[t], coeff_idx_wire);
        coeff = builder.select(is_position, signs[t], coeff);
        proof {
            assert forall|w: Seq<u64>| #[trigger] builder.val(w, coeff) == coeff_at(
                b0.vals(w, positions@),
                b0.vals(w, signs@),
                ix(x),
                nat_of(t) + 1,
            ) by {
                assert(bz.val(w, coeff_idx_wire) == x);
                assert(bi.val(w, positions@[ix(t)]) == b0.vals(w, positions@)[ix(t)]);
                assert(bi.val(w, signs@[ix(t)]) == b0.vals(w, signs@)[ix(t)]);
                assert(bi.val(w, prev) == coeff_at(
                    b0.vals(w, positions@),
                    b0.vals(w, signs@),
                    ix(x),
                    nat_of(t),
                ));
            }
        }
    }
    coeff
}

/// An index as a natural number.
spec fn nat_of(i: usize) -> nat {
    i as nat
}

/// The coefficients of a sparse challenge polynomial.
pub(crate) fn expand_sparse_sample_in_ball_for<P: MldsaParams>(
    builder: &mut CircuitBuilder,
    positions: &[Wire],
    signs: &[Wire],
) -> (r: Vec<Wire>)
    requires
        old(builder).wf(),
        old(builder).has_all(positions@),
        old(builder).has_all(signs@),
        positions@.len() == P::TAU,
        signs@.len() == P::TAU,
    ensures
        final(builder).computes_on(*old(builder)),
        final(builder).has_all(r@),
        r@.len() == P::N,
        forall|w: Seq<u64>|
            #[trigger] final(builder).vals(w, r@) == expanded_of(
                old(builder).vals(w, positions@),
                old(builder).vals(w, signs@),
                P::N as int,
            ),
{
    let ghost b0 = *builder;
    let mut r: Vec<Wire> = Vec::new();
    for x in 0..P::N
        invariant
            b0.wf(),
            b0.has_all(positions@),
            b0.has_all(signs@),
            positions@.len() == signs@.len(),
            builder.computes_on(b0),
            builder.has_all(r@),
            r@.len() == x,
            forall|w: Seq<u64>, k: int|
                0 <= k < x ==> #[trigger] builder.val(w, r@[k]) == coeff_at(
                    b0.vals(w, positions@),
                    b0.vals(w, signs@),
                    k,
                    positions@.len(),
                ),
    {
        let ghost bi = *builder;
        let ghost ri = r@;
        proof {
            lemma_vals_kept(bi, b0, positions@);
            lemma_vals_kept(bi, b0, signs@);
        }
        let coeff = expand_coeff(builder, positions, signs, x);
        r.push(coeff);
        proof {
            assert forall|w: Seq<u64>, k: int| 0 <= k < x + 1 implies #[trigger] builder.val(
                w,
                r@[k],
            ) == coeff_at(b0.vals(w, positions@), b0.vals(w, signs@), k, positions@.len()) by {
                assert(bi.vals(w, positions@) == b0.vals(w, positions@));
                assert(bi.vals(w, signs@) == b0.vals(w, signs@));
                if k < x {
                    assert(r@[k] == ri[k]);
                    assert(bi.has(ri[k]));
                    assert(bi.val(w, ri[k]) == coeff_at(
                        b0.vals(w, positions@),
                        b0.vals(w, signs@),
                        k,
                        positions@.len(),
                    ));
                }
            }
        }
    }
    proof {
        assert forall|w: Seq<u64>| #[trigger] builder.vals(w, r@) == expanded_of(
            b0.vals(w, positions@),
            b0.vals(w, signs@),
            P::N as int,
        ) by {
            assert(builder.vals(w, r@) =~= expanded_of(
                b0.vals(w, positions@),
                b0.vals(w, signs@),
                P::N as int,
            ));
        }
    }
    r
}

/// The challenge polynomial that the stream and the counts give, where the counts follow the
/// rejection rule.
pub open spec fn challenge_of(
    stream: Seq<u64>,
    counts: Seq<u64>,
    n: int,
    tau: int,
    cap: int,
) -> Seq<u64> {
    expanded_of(
        positions_of(draws_of(stream, cap), counts, n, tau, tau as nat),
        signs_of(stream[0], tau as nat),
        n,
    )
}

/// Proves the fixed-cap `SampleInBall` rejection and update relation from a SHAKE stream.
pub fn sample_in_ball_fixed_cap_from_stream_for<P: MldsaParams>(
    builder: &mut CircuitBuilder,
    stream: &[Wire],
) -> (r: MldsaSampleInBallFixedCap)
    requires
        old(builder).wf(),
        old(builder).has_all(stream@),
        stream@.len() == (P::SAMPLE_IN_BALL_ONE_BLOCK_STREAM_BYTES + 7) / 8,
    ensures
        final(builder).extends(*old(builder)),
        final(builder).has_all(r.coeffs@),
        final(builder).has_all(r.draw_counts@),
        r.coeffs@.len() == P::N,
        r.draw_counts@.len() == P::TAU,
        final(builder).adds_inputs(*old(builder), r.draw_counts@),
        forall|w: Seq<u64>|
            #[trigger] final(builder).accepts(w) == (old(builder).accepts(w) && sampled(
                draws_of(
                    old(builder).vals(w, stream@),
                    P::SAMPLE_IN_BALL_ONE_BLOCK_DRAW_CAP_BYTES as int,
                ),
                final(builder).vals(w, r.draw_counts@),
                P::N as int,
                P::TAU as int,
                P::TAU as int,
            )),
        forall|w: Seq<u64>|
            #![trigger final(builder).vals(w, r.coeffs@)]
            final(builder).accepts(w) ==> final(builder).vals(w, r.coeffs@) == challenge_of(
                old(builder).vals(w, stream@),
                final(builder).vals(w, r.draw_counts@),
                P::N as int,
                P::TAU as int,
                P::SAMPLE_IN_BALL_ONE_BLOCK_DRAW_CAP_BYTES as int,
            ),
{
    let ghost b0 = *builder;
    let sparse = sample_in_ball_fixed_cap_sparse_from_stream_for::<P>(builder, stream);
    let ghost b1 = *builder;
    let coeffs = expand_sparse_sample_in_ball_for::<P>(
        builder,
        sparse.positions.as_slice(),
        sparse.signs.as_slice(),
    );
    proof {
        lemma_vals_kept(*builder, b1, sparse.draw_counts@);
        assert forall|w: Seq<u64>|
            #![trigger builder.vals(w, coeffs@)]
            builder.accepts(w) implies builder.vals(w, coeffs@) == challenge_of(
            b0.vals(w, stream@),
            builder.vals(w, sparse.draw_counts@),
            P::N as int,
            P::TAU as int,
            P::SAMPLE_IN_BALL_ONE_BLOCK_DRAW_CAP_BYTES as int,
        ) by {
            assert(b1.accepts(w));
            assert(builder.vals(w, sparse.draw_counts@) == b1.vals(w, sparse.draw_counts@));
            assert(sparse_carries(
                b1,
                sparse.positions@,
                sparse.signs@,
                sparse.draw_counts@,
                w,
                b0.vals(w, stream@),
                P::N as int,
                P::TAU as int,
                P::SAMPLE_IN_BALL_ONE_BLOCK_DRAW_CAP_BYTES as int,
            )) by {
                assert(b1.vals(w, sparse.signs@) == b1.vals(w, sparse.signs@));
            }
        }
        assert forall|w: Seq<u64>| #[trigger] builder.accepts(w) == (b0.accepts(w) && sampled(
            draws_of(
                b0.vals(w, stream@),
                P::SAMPLE_IN_BALL_ONE_BLOCK_DRAW_CAP_BYTES as int,
            ),
            builder.vals(w, sparse.draw_counts@),
            P::N as int,
            P::TAU as int,
            P::TAU as int,
        )) by {
            assert(builder.vals(w, sparse.draw_counts@) == b1.vals(w, sparse.draw_counts@));
            assert(builder.accepts(w) == b1.accepts(w));
        }
        assert forall|w: Seq<u64>, i: int| 0 <= i < P::TAU implies #[trigger] builder.val(
            w,
            sparse.draw_counts@[i],
        ) == w[sparse.draw_counts@[i].index as int] by {
            assert(b1.has(sparse.draw_counts@[i]));
            assert(b1.val(w, sparse.draw_counts@[i]) == w[sparse.draw_counts@[i].index as int]);
        }
    }
    MldsaSampleInBallFixedCap { coeffs, draw_counts: sparse.draw_counts }
}

/// Computes the fixed-cap `SampleInBall` SHAKE stream `SHAKE256(c_tilde)`: the sign bytes, then the
/// position draws. The cap is part of the circuit identity.
pub fn sample_in_ball_fixed_cap_stream_for<P: MldsaParams>(
    builder: &mut CircuitBuilder,
    c_tilde: &[Wire],
) -> (r: Vec<Wire>)
    requires
        old(builder).wf(),
        old(builder).has_all(c_tilde@),
        c_tilde@.len() == P::C_TILDE_BYTES / 8,
    ensures
        final(builder).computes_on(*old(builder)),
        final(builder).has_all(r@),
        r@.len() == (P::SAMPLE_IN_BALL_ONE_BLOCK_STREAM_BYTES + 7) / 8,
        forall|w: Seq<u64>|
            #[trigger] final(builder).vals(w, r@) == shake256_of(
                old(builder).vals(w, c_tilde@),
                r@.len() as int,
            ),
{
    proof {
        P::lemma_params();
    }
    shake256(builder, c_tilde, (P::SAMPLE_IN_BALL_ONE_BLOCK_STREAM_BYTES + 7) / 8)
}

/// Computes and proves the fixed-cap `SampleInBall` relation.
pub fn sample_in_ball_fixed_cap_for<P: MldsaParams>(
    builder: &mut CircuitBuilder,
    c_tilde: &[Wire],
) -> (r: MldsaSampleInBallFixedCap)
    requires
        old(builder).wf(),
        old(builder).has_all(c_tilde@),
        c_tilde@.len() == P::C_TILDE_BYTES / 8,
    ensures
        final(builder).extends(*old(builder)),
        final(builder).has_all(r.coeffs@),
        final(builder).has_all(r.draw_counts@),
        r.coeffs@.len() == P::N,
        r.draw_counts@.len() == P::TAU,
        final(builder).adds_inputs(*old(builder), r.draw_counts@),
        forall|w: Seq<u64>|
            #[trigger] final(builder).accepts(w) == (old(builder).accepts(w) && sampled(
                draws_of(
                    stream_of::<P>(old(builder).vals(w, c_tilde@)),
                    P::SAMPLE_IN_BALL_ONE_BLOCK_DRAW_CAP_BYTES as int,
                ),
                final(builder).vals(w, r.draw_counts@),
                P::N as int,
                P::TAU as int,
                P::TAU as int,
            )),
        forall|w: Seq<u64>|
            #![trigger final(builder).vals(w, r.coeffs@)]
            final(builder).accepts(w) ==> final(builder).vals(w, r.coeffs@) == challenge_of(
                stream_of::<P>(old(builder).vals(w, c_tilde@)),
                final(builder).vals(w, r.draw_counts@),
                P::N as int,
                P::TAU as int,
                P::SAMPLE_IN_BALL_ONE_BLOCK_DRAW_CAP_BYTES as int,
            ),
{
    let ghost b0 = *builder;
    let stream = sample_in_ball_fixed_cap_stream_for::<P>(builder, c_tilde);
    let ghost b1 = *builder;
    let r = sample_in_ball_fixed_cap_from_stream_for::<P>(builder, stream.as_slice());
    proof {
        assert forall|w: Seq<u64>|
            #![trigger builder.accepts(w)]
            #![trigger builder.vals(w, r.coeffs@)]
            b1.vals(w, stream@) == stream_of::<P>(b0.vals(w, c_tilde@)) && b1.accepts(w)
                == b0.accepts(w) by {}
    }
    r
}

/// The words of the sampler's stream.
pub open spec fn stream_of<P: MldsaParams>(c_tilde: Seq<u64>) -> Seq<u64> {
    shake256_of(c_tilde, (P::SAMPLE_IN_BALL_ONE_BLOCK_STREAM_BYTES + 7) / 8)
}

/// Computes and proves the fixed-cap `SampleInBall` relation, and gives back the sparse challenge
/// entries.
pub fn sample_in_ball_fixed_cap_sparse_for<P: MldsaParams>(
    builder: &mut CircuitBuilder,
    c_tilde: &[Wire],
) -> (r: MldsaSampleInBallFixedCapSparse)
    requires
        old(builder).wf(),
        old(builder).has_all(c_tilde@),
        c_tilde@.len() == P::C_TILDE_BYTES / 8,
    ensures
        final(builder).extends(*old(builder)),
        final(builder).has_all(r.positions@),
        final(builder).has_all(r.signs@),
        final(builder).has_all(r.draw_counts@),
        r.positions@.len() == P::TAU,
        r.signs@.len() == P::TAU,
        r.draw_counts@.len() == P::TAU,
        final(builder).adds_inputs(*old(builder), r.draw_counts@),
        forall|w: Seq<u64>|
            #[trigger] final(builder).accepts(w) == (old(builder).accepts(w) && sampled(
                draws_of(
                    stream_of::<P>(old(builder).vals(w, c_tilde@)),
                    P::SAMPLE_IN_BALL_ONE_BLOCK_DRAW_CAP_BYTES as int,
                ),
                final(builder).vals(w, r.draw_counts@),
                P::N as int,
                P::TAU as int,
                P::TAU as int,
            )),
        forall|w: Seq<u64>|
            #![trigger final(builder).vals(w, r.positions@)]
            #![trigger final(builder).vals(w, r.signs@)]
            sparse_carries(
                *final(builder),
                r.positions@,
                r.signs@,
                r.draw_counts@,
                w,
                stream_of::<P>(old(builder).vals(w, c_tilde@)),
                P::N as int,
                P::TAU as int,
                P::SAMPLE_IN_BALL_ONE_BLOCK_DRAW_CAP_BYTES as int,
            ),
{
    let ghost b0 = *builder;
    let stream = sample_in_ball_fixed_cap_stream_for::<P>(builder, c_tilde);
    let ghost b1 = *builder;
    let r = sample_in_ball_fixed_cap_sparse_from_stream_for::<P>(builder, stream.as_slice());
    proof {
        assert forall|w: Seq<u64>|
            #![trigger builder.accepts(w)]
            #![trigger builder.vals(w, r.positions@)]
            #![trigger builder.vals(w, r.signs@)]
            b1.vals(w, stream@) == stream_of::<P>(b0.vals(w, c_tilde@)) && b1.accepts(w)
                == b0.accepts(w) by {}
    }
    r
}

} // verus!
