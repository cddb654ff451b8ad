//! Chi operands and residuals.
use super::constants::{lane, N_LANES, ROUND_CONSTANTS};
use super::trace::{chi_iota_of, right_of, State};
use super::unrolled;
use vstd::prelude::*;

verus! {

/// The chi operands of one lane.
#[derive(Debug, Clone, Copy, PartialEq, Eq, Structural)]
pub struct ChiOperands {
    /// The complement of the lane to the right.
    pub p: u64,
    /// The lane two to the right.
    pub q: u64,
    /// The lane itself.
    pub r: u64,
}

/// The chi operands of lane `i`.
pub open spec fn operands_of(pre_chi: Seq<u64>, i: int) -> ChiOperands {
    ChiOperands {
        p: !pre_chi[right_of(i, 1)],
        q: pre_chi[right_of(i, 2)],
        r: pre_chi[i],
    }
}

/// The residual `(p & q) ^ r ^ next ^ iota` of lane `i`.
pub open spec fn residual_word(pre_chi: Seq<u64>, next: Seq<u64>, round: int, i: int) -> u64 {
    let o = operands_of(pre_chi, i);
    if i == 0 {
        (o.p & o.q) ^ o.r ^ next[i] ^ ROUND_CONSTANTS[round]
    } else {
        (o.p & o.q) ^ o.r ^ next[i]
    }
}

/// The residuals of all lanes.
pub open spec fn residual_of(pre_chi: Seq<u64>, next: Seq<u64>, round: int) -> Seq<u64> {
    Seq::new(25, |i: int| residual_word(pre_chi, next, round, i))
}

/// The chi operand words of lane coordinates `(x, y)`.
pub fn chi_operands(pre_chi: &State, x: usize, y: usize) -> (r: ChiOperands)
    requires
        x < 5,
        y < 5,
    ensures
        r == operands_of(pre_chi@, x + 5 * y),
{
    ChiOperands {
        p: !pre_chi[lane((x + 1) % 5, y)],
        q: pre_chi[lane((x + 2) % 5, y)],
        r: pre_chi[lane(x, y)],
    }
}

proof fn lemma_residual_bits(p: u64, q: u64, r: u64, n: u64, c: u64)
    by (bit_vector)
    ensures
        r ^ 0 == r,
        ((p & q) ^ r ^ n == 0) == (n == r ^ (p & q)),
        ((p & q) ^ r ^ n ^ c == 0) == (n == r ^ (p & q) ^ c),
{
}

/// The residual word `(p & q) ^ r ^ next ^ iota` of lane coordinates `(x, y)`. The round counts at
/// lane `(0, 0)` alone.
pub fn chi_iota_residual_word(
    pre_chi: &State,
    next: &State,
    round: usize,
    x: usize,
    y: usize,
) -> (r: u64)
    requires
        x < 5,
        y < 5,
        x == 0 && y == 0 ==> round < 24,
    ensures
        r == residual_word(pre_chi@, next@, round as int, x + 5 * y),
{
    let ops = chi_operands(pre_chi, x, y);
    let iota: u64 = if x == 0 && y == 0 {
        ROUND_CONSTANTS[round]
    } else {
        0
    };
    let base: u64 = (ops.p & ops.q) ^ ops.r ^ next[lane(x, y)];
    proof {
        lemma_residual_bits(0, 0, base, 0, 0);
    }
    base ^ iota
}

/// Computes all 25 residual words for one Keccak round.
pub fn chi_iota_residual_words(pre_chi: &State, next: &State, round: usize) -> (r: State)
    requires
        round < 24,
    ensures
        r@ == residual_of(pre_chi@, next@, round as int),
{
    unrolled::chi_iota_residual_words(pre_chi, next, round)
}

/// Computes all 25 residual words, lane by lane.
pub fn chi_iota_residual_words_reference(pre_chi: &State, next: &State, round: usize) -> (r: State)
    requires
        round < 24,
    ensures
        r@ == residual_of(pre_chi@, next@, round as int),
{
    let mut residual: State = [0u64; 25];
    for i in 0..N_LANES
        invariant
            round < 24,
            forall|k: int|
                0 <= k < i ==> residual[k] == residual_word(pre_chi@, next@, round as int, k),
    {
        residual[i] = chi_iota_residual_word(pre_chi, next, round, i % 5, i / 5);
    }
    assert(residual@ =~= residual_of(pre_chi@, next@, round as int));
    residual
}

/// The residuals vanish exactly where `next` is chi and iota of the pre-chi state.
pub proof fn lemma_residual_zero_iff_round(pre_chi: Seq<u64>, next: Seq<u64>, round: int)
    requires
        pre_chi.len() == 25,
        next.len() == 25,
    ensures
        (forall|i: int| 0 <= i < 25 ==> #[trigger] residual_word(pre_chi, next, round, i) == 0) == (
        next == chi_iota_of(pre_chi, round)),
{
    reveal(chi_iota_of);
    assert forall|i: int| 0 <= i < 25 implies (#[trigger] residual_word(pre_chi, next, round, i)
        == 0) == (next[i] == chi_iota_of(pre_chi, round)[i]) by {
        let o = operands_of(pre_chi, i);
        lemma_residual_bits(o.p, o.q, o.r, next[i], ROUND_CONSTANTS[round]);
    }
    if next == chi_iota_of(pre_chi, round) {
    } else {
        assert(!(next =~= chi_iota_of(pre_chi, round)));
        let i = choose|i: int|
            0 <= i < 25 && #[trigger] next[i] != chi_iota_of(pre_chi, round)[i];
        assert(residual_word(pre_chi, next, round, i) != 0);
    }
    if forall|i: int| 0 <= i < 25 ==> #[trigger] residual_word(pre_chi, next, round, i) == 0 {
        assert forall|i: int| 0 <= i < 25 implies next[i] == chi_iota_of(pre_chi, round)[i] by {
            assert(residual_word(pre_chi, next, round, i) == 0);
        }
        assert(next =~= chi_iota_of(pre_chi, round));
    }
}

} // verus!
