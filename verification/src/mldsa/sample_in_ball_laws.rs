//! What the sampler's relation means: the Fisher-Yates update rule and the uniqueness of the trace.
use super::sample_in_ball::{
    accepted_draw, challenge_of, coeff_at, cursor_of, draws_of, expanded_of, positions_of,
    round_ok, sampled, sign_of, signs_of,
};
use super::hint_laws::lemma_packed_bytes_are_digits;
use vstd::arithmetic::power2::{lemma2_to64, pow2};
use vstd::prelude::*;

verus! {

/// The coefficients after `m` rounds of the update rule: coefficient `i` takes the value of
/// coefficient `j`, which takes the sign, for `i` from `n - tau` on and `j` the accepted draw.
pub open spec fn updated_of(
    draws: Seq<u64>,
    counts: Seq<u64>,
    sign_word: u64,
    n: int,
    tau: int,
    m: nat,
) -> Seq<u64>
    decreases m,
{
    if m == 0 {
        Seq::new(n as nat, |x: int| 0u64)
    } else {
        let c = updated_of(draws, counts, sign_word, n, tau, (m - 1) as nat);
        let i = n - tau + m - 1;
        let j = accepted_draw(draws, counts, m - 1) as int;
        c.update(i, c[j]).update(j, sign_of(sign_word, m - 1))
    }
}

/// The positions after `m` rounds lie below `n - tau + m` and differ from one another.
proof fn lemma_positions(draws: Seq<u64>, counts: Seq<u64>, n: int, tau: int, m: nat)
    requires
        0 <= m <= tau <= n <= 256,
        sampled(draws, counts, n, tau, tau),
    ensures
        positions_of(draws, counts, n, tau, m).len() == m,
        forall|t: int|
            0 <= t < m ==> 0 <= #[trigger] positions_of(draws, counts, n, tau, m)[t] < n - tau + m,
        forall|s: int, t: int|
            0 <= s < t < m ==> #[trigger] positions_of(draws, counts, n, tau, m)[s]
                != #[trigger] positions_of(draws, counts, n, tau, m)[t],
    decreases m,
{
    if m > 0 {
        let k = m - 1;
        lemma_positions(draws, counts, n, tau, k as nat);
        assert(round_ok(draws, counts, n - tau + k, k));
        let prev = positions_of(draws, counts, n, tau, k as nat);
        let cur = positions_of(draws, counts, n, tau, m);
        let j = accepted_draw(draws, counts, k);
        let i = n - tau + k;
        assert forall|s: int, t: int| 0 <= s < t < m implies #[trigger] cur[s] != #[trigger] cur[t] by {
            if t < k {
                assert(prev[s] != prev[t]);
                assert(prev[s] < i && prev[t] < i);
            } else {
                assert(prev[s] < i);
            }
        }
        assert forall|t: int| 0 <= t < m implies 0 <= #[trigger] cur[t] < n - tau + m by {
            if t < k {
                assert(prev[t] < i);
            }
        }
    }
}

/// An entry beyond the last match does not matter.
proof fn lemma_coeff_at(positions: Seq<u64>, signs: Seq<u64>, x: int, m: nat, t: int)
    requires
        m <= positions.len(),
        forall|a: int, b: int|
            0 <= a < b < positions.len() ==> #[trigger] positions[a] != #[trigger] positions[b],
        0 <= t < m,
        positions[t] == x,
    ensures
        coeff_at(positions, signs, x, m) == signs[t],
    decreases m,
{
    if t < m - 1 {
        assert(positions[t] != positions[m - 1]);
        lemma_coeff_at(positions, signs, x, (m - 1) as nat, t);
    }
}

proof fn lemma_coeff_zero(positions: Seq<u64>, signs: Seq<u64>, x: int, m: nat)
    requires
        m <= positions.len(),
        forall|t: int| 0 <= t < m ==> #[trigger] positions[t] != x,
    ensures
        coeff_at(positions, signs, x, m) == 0,
    decreases m,
{
    if m > 0 {
        assert(positions[m - 1] != x);
        lemma_coeff_zero(positions, signs, x, (m - 1) as nat);
    }
}

proof fn lemma_update_rule(
    draws: Seq<u64>,
    counts: Seq<u64>,
    sign_word: u64,
    n: int,
    tau: int,
    m: nat,
)
    requires
        0 <= m <= tau <= n <= 256,
        sampled(draws, counts, n, tau, tau),
    ensures
        updated_of(draws, counts, sign_word, n, tau, m) == expanded_of(
            positions_of(draws, counts, n, tau, m),
            signs_of(sign_word, m),
            n,
        ),
    decreases m,
{
    let cur = positions_of(draws, counts, n, tau, m);
    let signs = signs_of(sign_word, m);
    let upd = updated_of(draws, counts, sign_word, n, tau, m);
    lemma_positions(draws, counts, n, tau, m);
    if m == 0 {
        assert(upd =~= expanded_of(cur, signs, n));
    } else {
        let k = m - 1;
        lemma_update_rule(draws, counts, sign_word, n, tau, k as nat);
        lemma_positions(draws, counts, n, tau, k as nat);
        assert(round_ok(draws, counts, n - tau + k, k));
        let prev = positions_of(draws, counts, n, tau, k as nat);
        let prev_signs = signs_of(sign_word, k as nat);
        let before = expanded_of(prev, prev_signs, n);
        let j = accepted_draw(draws, counts, k) as int;
        let i = n - tau + k;
        assert forall|x: int| 0 <= x < n implies #[trigger] upd[x] == expanded_of(
            cur,
            signs,
            n,
        )[x] by {
            if x == j {
                assert(cur[k] == j);
                lemma_coeff_at(cur, signs, x, m, k);
            } else {
                // Coefficient i takes the old value of coefficient j; every other one keeps its own.
                let y = if x == i {
                    j
                } else {
                    x
                };
                if exists|t: int| 0 <= t < k && #[trigger] prev[t] == y {
                    let t = choose|t: int| 0 <= t < k && #[trigger] prev[t] == y;
                    lemma_coeff_at(prev, prev_signs, y, k as nat, t);
                    assert(cur[t] == x);
                    lemma_coeff_at(cur, signs, x, m, t);
                } else {
                    assert forall|t: int| 0 <= t < k implies #[trigger] prev[t] != y by {}
                    lemma_coeff_zero(prev, prev_signs, y, k as nat);
                    assert forall|t: int| 0 <= t < m implies #[trigger] cur[t] != x by {
                        if t < k {
                            assert(prev[t] != y);
                            assert(prev[t] < i);
                        }
                    }
                    lemma_coeff_zero(cur, signs, x, m);
                }
            }
        }
        assert(upd =~= expanded_of(cur, signs, n));
    }
}

/// The challenge coefficients follow the Fisher-Yates update rule.
pub proof fn lemma_challenge_follows_update_rule(
    stream: Seq<u64>,
    counts: Seq<u64>,
    n: int,
    tau: int,
    cap: int,
)
    requires
        0 <= tau <= n <= 256,
        sampled(draws_of(stream, cap), counts, n, tau, tau),
    ensures
        challenge_of(stream, counts, n, tau, cap) == updated_of(
            draws_of(stream, cap),
            counts,
            stream[0],
            n,
            tau,
            tau as nat,
        ),
{
    lemma_update_rule(draws_of(stream, cap), counts, stream[0], n, tau, tau as nat);
}

/// The challenge has a nonzero coefficient at each of `tau` different positions, and zeros
/// elsewhere.
pub proof fn lemma_challenge_weight(
    draws: Seq<u64>,
    counts: Seq<u64>,
    sign_word: u64,
    n: int,
    tau: int,
    x: int,
)
    requires
        0 <= tau <= n <= 256,
        0 <= x < n,
        sampled(draws, counts, n, tau, tau),
    ensures
        positions_of(draws, counts, n, tau, tau as nat).no_duplicates(),
        expanded_of(
            positions_of(draws, counts, n, tau, tau as nat),
            signs_of(sign_word, tau as nat),
            n,
        )[x] != 0 <==> exists|t: int|
            0 <= t < tau && #[trigger] positions_of(draws, counts, n, tau, tau as nat)[t] == x,
{
    let positions = positions_of(draws, counts, n, tau, tau as nat);
    let signs = signs_of(sign_word, tau as nat);
    lemma_positions(draws, counts, n, tau, tau as nat);
    assert forall|a: int, b: int|
        0 <= a < positions.len() && 0 <= b < positions.len() && a != b implies positions[a]
        != positions[b] by {
        if a < b {
            assert(positions[a] != positions[b]);
        } else {
            assert(positions[b] != positions[a]);
        }
    }
    if exists|t: int| 0 <= t < tau && #[trigger] positions[t] == x {
        let t = choose|t: int| 0 <= t < tau && #[trigger] positions[t] == x;
        lemma_coeff_at(positions, signs, x, tau as nat, t);
    } else {
        assert forall|t: int| 0 <= t < tau implies #[trigger] positions[t] != x by {}
        lemma_coeff_zero(positions, signs, x, tau as nat);
    }
}

proof fn lemma_cursor_agrees(
    draws: Seq<u64>,
    a: Seq<u64>,
    b: Seq<u64>,
    n: int,
    tau: int,
    r: int,
)
    requires
        0 <= r <= tau,
        sampled(draws, a, n, tau, tau),
        sampled(draws, b, n, tau, tau),
    ensures
        cursor_of(a, r) == cursor_of(b, r),
        r > 0 ==> a[r - 1] == b[r - 1],
    decreases r,
{
    if r > 0 {
        let k = r - 1;
        lemma_cursor_agrees(draws, a, b, n, tau, k);
        let bound = n - tau + k;
        assert(round_ok(draws, a, bound, k));
        assert(round_ok(draws, b, bound, k));
        let (ea, eb) = (cursor_of(a, r), cursor_of(b, r));
        if ea < eb {
            assert(draws[ea - 1] > bound);
        }
        if eb < ea {
            assert(draws[eb - 1] > bound);
        }
    }
}

/// The draws determine the counts: no two traces of one stream are accepted.
pub proof fn lemma_counts_unique(
    draws: Seq<u64>,
    a: Seq<u64>,
    b: Seq<u64>,
    n: int,
    tau: int,
)
    requires
        a.len() == tau,
        b.len() == tau,
        sampled(draws, a, n, tau, tau),
        sampled(draws, b, n, tau, tau),
    ensures
        a == b,
{
    assert forall|r: int| 0 <= r < tau implies #[trigger] a[r] == b[r] by {
        lemma_cursor_agrees(draws, a, b, n, tau, r + 1);
    }
    assert(a =~= b);
}

/// Sign `r` is minus one where bit `r` of the first stream word is set, and one where it is not.
pub proof fn lemma_signs_are_bits(sign_word: u64, m: nat, r: int)
    requires
        0 <= r < m,
        r < 64,
    ensures
        signs_of(sign_word, m).len() == m,
        signs_of(sign_word, m)[r] == (if (sign_word as int / pow2(r as nat) as int) % 2 == 1 {
            u64::MAX
        } else {
            1u64
        }),
{
    lemma2_to64();
    let y = sign_word >> (r as u64);
    vstd::bits::lemma_u64_shr_is_div(sign_word, r as u64);
    vstd::bits::lemma_u64_low_bits_mask_is_mod(y, 1);
    vstd::bits::lemma_low_bits_mask_values();
    assert(vstd::bits::low_bits_mask(1) == 1);
}

/// Draw `8 j + t` is byte `t` of word `j + 1` of the stream, behind the word of the signs.
pub proof fn lemma_draws_are_bytes(stream: Seq<u64>, cap: int, j: int, t: u32)
    requires
        0 <= j,
        j + 1 < stream.len(),
        t < 8,
        8 * j + t < cap,
    ensures
        draws_of(stream, cap).len() == cap,
        draws_of(stream, cap)[8 * j + t] == (stream[j + 1] as int / pow2((8 * t) as nat) as int)
            % 256,
{
    lemma_packed_bytes_are_digits(stream.skip(1), cap, j, t);
}

/// The first draw from a place on that is at most the bound, or the end where there is none.
pub open spec fn first_accepted(draws: Seq<u64>, from: int, bound: int) -> int
    decreases draws.len() - from,
{
    if from >= draws.len() {
        draws.len() as int
    } else if draws[from] <= bound {
        from
    } else {
        first_accepted(draws, from + 1, bound)
    }
}

/// The draws that rejection sampling has used after `r` rounds: each round takes draws up to the first
/// that is at most its coefficient, and the coefficients go up from `n - tau`.
pub open spec fn draws_used(draws: Seq<u64>, n: int, tau: int, r: nat) -> int
    decreases r,
{
    if r == 0 {
        0
    } else {
        first_accepted(draws, draws_used(draws, n, tau, (r - 1) as nat), n - tau + r - 1) + 1
    }
}

proof fn lemma_first_accepted(draws: Seq<u64>, from: int, bound: int, q: int)
    requires
        0 <= from <= q < draws.len(),
        draws[q] <= bound,
        forall|t: int| from <= t < q ==> #[trigger] draws[t] > bound,
    ensures
        first_accepted(draws, from, bound) == q,
    decreases q - from,
{
    if from < q {
        assert(draws[from] > bound);
        lemma_first_accepted(draws, from + 1, bound, q);
    }
}

proof fn lemma_first_accepted_fits(draws: Seq<u64>, from: int, bound: int)
    requires
        0 <= from,
    ensures
        ({
            let q = first_accepted(draws, from, bound);
            &&& from <= draws.len() ==> from <= q <= draws.len()
            &&& from >= draws.len() ==> q == draws.len()
            &&& q < draws.len() ==> draws[q] <= bound
            &&& forall|t: int| from <= t < q ==> #[trigger] draws[t] > bound
        }),
    decreases draws.len() - from,
{
    if from < draws.len() && draws[from] > bound {
        lemma_first_accepted_fits(draws, from + 1, bound);
    }
}

/// The counts are accepted exactly where they say how many draws rejection sampling uses in each
/// round, and the draws suffice.
pub proof fn lemma_sampled_is_rejection_sampling(
    draws: Seq<u64>,
    counts: Seq<u64>,
    n: int,
    tau: int,
    m: nat,
)
    ensures
        sampled(draws, counts, n, tau, m as int) <==> (forall|r: nat|
            r <= m ==> cursor_of(counts, r as int) == #[trigger] draws_used(draws, n, tau, r)
                <= draws.len()),
    decreases m,
{
    if m > 0 {
        let k = (m - 1) as nat;
        lemma_sampled_is_rejection_sampling(draws, counts, n, tau, k);
        let bound = n - tau + k;
        let (from, end) = (cursor_of(counts, k as int), cursor_of(counts, m as int));
        if sampled(draws, counts, n, tau, m as int) {
            assert forall|r: int| 0 <= r < k implies #[trigger] round_ok(
                draws,
                counts,
                n - tau + r,
                r,
            ) by {}
            assert(round_ok(draws, counts, n - tau + k, k as int));
            assert(from == draws_used(draws, n, tau, k));
            lemma_cursor_counts(counts, k as int);
            lemma_first_accepted(draws, from, bound, end - 1);
            assert forall|r: nat| r <= m implies cursor_of(counts, r as int) == #[trigger] draws_used(
                draws,
                n,
                tau,
                r,
            ) <= draws.len() by {
                if r == m {
                    assert(end == first_accepted(draws, from, bound) + 1);
                }
            }
        }
        if forall|r: nat|
            r <= m ==> cursor_of(counts, r as int) == #[trigger] draws_used(draws, n, tau, r)
                <= draws.len() {
            assert(from == draws_used(draws, n, tau, k) <= draws.len());
            assert(end == draws_used(draws, n, tau, m) <= draws.len());
            lemma_cursor_counts(counts, k as int);
            lemma_first_accepted_fits(draws, from, bound);
            assert(sampled(draws, counts, n, tau, k as int));
            assert(round_ok(draws, counts, n - tau + k, k as int));
            assert forall|r: int| 0 <= r < m implies #[trigger] round_ok(
                draws,
                counts,
                n - tau + r,
                r,
            ) by {
                if r < k {
                    assert(sampled(draws, counts, n, tau, k as int));
                }
            }
        }
    } else {
        assert(cursor_of(counts, 0) == draws_used(draws, n, tau, 0));
    }
}

proof fn lemma_cursor_counts(counts: Seq<u64>, r: int)
    requires
        0 <= r,
    ensures
        0 <= cursor_of(counts, r),
        cursor_of(counts, r + 1) == cursor_of(counts, r) + counts[r],
    decreases r,
{
    if r > 0 {
        lemma_cursor_counts(counts, r - 1);
    }
}

} // verus!
