//! Native Keccak-f[1600] trace construction.
use super::constants::{lane, N_LANES, N_ROUNDS, RHO_OFFSETS, ROUND_CONSTANTS};
use super::unrolled;
use crate::circuit::word::{rotate_left, rotl64};
use vstd::prelude::*;

verus! {

/// One Keccak-f[1600] state: 25 lanes in the order `x + 5*y`.
pub type State = [u64; 25];

/// The parity of column `x`.
pub open spec fn column(s: Seq<u64>, x: int) -> u64 {
    s[x] ^ s[x + 5] ^ s[x + 10] ^ s[x + 15] ^ s[x + 20]
}

/// The word that theta adds to every lane of column `x`.
pub open spec fn theta_word(s: Seq<u64>, x: int) -> u64 {
    column(s, (x + 4) % 5) ^ rotl64(column(s, (x + 1) % 5), 1)
}

/// Theta.
pub open spec fn theta_of(s: Seq<u64>) -> Seq<u64> {
    Seq::new(25, |i: int| s[i] ^ theta_word(s, i % 5))
}

/// The lane that rho and pi move to lane `b`.
pub open spec fn rho_pi_source(b: int) -> int {
    (b % 5 + 3 * (b / 5)) % 5 + 5 * (b % 5)
}

/// Rho and pi.
pub open spec fn rho_pi_of(s: Seq<u64>) -> Seq<u64> {
    Seq::new(25, |b: int| rotl64(s[rho_pi_source(b)], RHO_OFFSETS[rho_pi_source(b)]))
}

/// The state before chi.
#[verifier::opaque]
pub open spec fn pre_chi_of(s: Seq<u64>) -> Seq<u64> {
    rho_pi_of(theta_of(s))
}

/// The lane of the row of `i` that lies `k` to the right.
pub open spec fn right_of(i: int, k: int) -> int {
    (i % 5 + k) % 5 + 5 * (i / 5)
}

/// Chi at lane `i`.
pub open spec fn chi_lane(s: Seq<u64>, i: int) -> u64 {
    s[i] ^ (!s[right_of(i, 1)] & s[right_of(i, 2)])
}

/// Chi.
pub open spec fn chi_of(s: Seq<u64>) -> Seq<u64> {
    Seq::new(25, |i: int| chi_lane(s, i))
}

/// The constant that iota adds to lane `i`.
pub open spec fn iota_word(round: int, i: int) -> u64 {
    if i == 0 {
        ROUND_CONSTANTS[round]
    } else {
        0
    }
}

/// Chi and iota.
#[verifier::opaque]
pub open spec fn chi_iota_of(s: Seq<u64>, round: int) -> Seq<u64> {
    Seq::new(
        25,
        |i: int|
            if i == 0 {
                chi_lane(s, 0) ^ ROUND_CONSTANTS[round]
            } else {
                chi_lane(s, i)
            },
    )
}

/// One round.
pub open spec fn round_state(s: Seq<u64>, round: int) -> Seq<u64> {
    chi_iota_of(pre_chi_of(s), round)
}

/// The state after the first `n` rounds.
pub open spec fn rounds_state(s: Seq<u64>, n: nat) -> Seq<u64>
    decreases n,
{
    if n == 0 {
        s
    } else {
        round_state(rounds_state(s, (n - 1) as nat), n - 1)
    }
}

/// The permutation.
pub open spec fn keccak_f(s: Seq<u64>) -> Seq<u64> {
    rounds_state(s, 24)
}

/// Round-local native values.
#[derive(Debug, Clone, Copy, PartialEq, Eq)]
pub struct RoundTrace {
    /// Input state at the start of the round.
    pub input: State,
    /// Pre-chi state after theta, rho, and pi.
    pub pre_chi: State,
    /// Output state after chi and iota.
    pub output: State,
}

/// Full 24-round Keccak-f[1600] trace.
#[derive(Debug, Clone, PartialEq, Eq)]
pub struct PermutationTrace {
    /// Per-round traces in forward order.
    pub rounds: [RoundTrace; 24],
}

/// Whether a round trace is that of round `round` on its input.
pub open spec fn is_round_trace(t: RoundTrace, round: int) -> bool {
    &&& t.pre_chi@ == pre_chi_of(t.input@)
    &&& t.output@ == chi_iota_of(t.pre_chi@, round)
}

impl PermutationTrace {
    /// Every round is a round of Keccak, and each starts where the one before ends.
    pub open spec fn wf(self) -> bool {
        &&& forall|r: int| 0 <= r < 24 ==> is_round_trace(#[trigger] self.rounds[r], r)
        &&& forall|r: int|
            0 <= r < 23 ==> (#[trigger] self.rounds[r]).output@ == self.rounds[r + 1].input@
    }

    /// Builds a full trace from one input state.
    pub fn new(input: State) -> (r: Self)
        ensures
            r.wf(),
            r.rounds[0].input@ == input@,
            forall|k: int|
                0 <= k < 24 ==> (#[trigger] r.rounds[k]).input@ == rounds_state(input@, k as nat),
            r.rounds[23].output@ == keccak_f(input@),
    {
        let first = RoundTrace { input, pre_chi: input, output: input };
        let mut rounds: [RoundTrace; 24] = [first; 24];
        let mut state: State = input;
        for round in 0..N_ROUNDS
            invariant
                state@ == rounds_state(input@, round as nat),
                forall|k: int|
                    0 <= k < round ==> {
                        &&& is_round_trace(#[trigger] rounds[k], k)
                        &&& rounds[k].input@ == rounds_state(input@, k as nat)
                        &&& rounds[k].output@ == rounds_state(input@, (k + 1) as nat)
                    },
        {
            let pre_chi = theta_rho_pi(state);
            let output = chi_iota(pre_chi, round);
            rounds[round] = RoundTrace { input: state, pre_chi, output };
            state = output;
        }
        let r = PermutationTrace { rounds };
        proof {
            assert forall|k: int| 0 <= k < 23 implies (#[trigger] r.rounds[k]).output@ == r.rounds[k
                + 1].input@ by {}
        }
        r
    }

    /// The final permutation output.
    pub fn output(&self) -> (r: State)
        ensures
            r == self.rounds[23].output,
    {
        self.rounds[23].output
    }
}

/// A well-formed trace is the trace of its first input.
pub proof fn lemma_trace_is_keccak(t: PermutationTrace, r: nat)
    requires
        t.wf(),
        r < 24,
    ensures
        t.rounds[r as int].input@ == rounds_state(t.rounds[0].input@, r),
        t.rounds[r as int].output@ == rounds_state(t.rounds[0].input@, r + 1),
    decreases r,
{
    assert(is_round_trace(t.rounds[r as int], r as int));
    let s = t.rounds[0].input@;
    assert(rounds_state(s, r + 1) == round_state(rounds_state(s, r), r as int));
    if r > 0 {
        lemma_trace_is_keccak(t, (r - 1) as nat);
        assert(t.rounds[r - 1].output@ == t.rounds[r - 1 + 1].input@);
    }
}

/// Applies one full Keccak-f[1600] permutation.
pub fn permutation(input: State) -> (r: State)
    ensures
        r@ == keccak_f(input@),
{
    PermutationTrace::new(input).output()
}

/// Applies one full Keccak round.
pub fn round(input: State, index: usize) -> (r: State)
    requires
        index < 24,
    ensures
        r@ == round_state(input@, index as int),
{
    chi_iota(theta_rho_pi(input), index)
}

/// Applies theta followed by rho and pi, returning the pre-chi lanes.
pub fn theta_rho_pi(input: State) -> (r: State)
    ensures
        r@ == pre_chi_of(input@),
{
    unrolled::theta_rho_pi(input)
}

/// Applies chi followed by iota to a pre-chi state.
pub fn chi_iota(pre_chi: State, round: usize) -> (r: State)
    requires
        round < 24,
    ensures
        r@ == chi_iota_of(pre_chi@, round as int),
{
    unrolled::chi_iota(pre_chi, round)
}

/// Applies theta and then rho and pi, lane by lane.
pub fn theta_rho_pi_reference(input: State) -> (r: State)
    ensures
        r@ == pre_chi_of(input@),
{
    let mut state: State = input;
    reveal(pre_chi_of);
    theta_reference(&mut state);
    rho_pi_reference(&mut state);
    state
}

/// Applies chi and then iota, row by row.
pub fn chi_iota_reference(pre_chi: State, round: usize) -> (r: State)
    requires
        round < 24,
    ensures
        r@ == chi_iota_of(pre_chi@, round as int),
{
    let mut state: State = pre_chi;
    reveal(chi_iota_of);
    chi(&mut state);
    state[0] = state[0] ^ ROUND_CONSTANTS[round];
    assert(state@ =~= chi_iota_of(pre_chi@, round as int));
    state
}

/// Applies theta, column by column.
pub fn theta_reference(state: &mut State)
    ensures
        final(state)@ == theta_of(old(state)@),
{
    let mut c: [u64; 5] = [0; 5];
    for x in 0..5
        invariant
            state@ == old(state)@,
            forall|k: int| 0 <= k < x ==> c[k] == column(state@, k),
    {
        c[x] = state[lane(x, 0)] ^ state[lane(x, 1)] ^ state[lane(x, 2)] ^ state[lane(x, 3)]
            ^ state[lane(x, 4)];
    }
    let d: [u64; 5] = [
        c[4] ^ rotate_left(c[1], 1),
        c[0] ^ rotate_left(c[2], 1),
        c[1] ^ rotate_left(c[3], 1),
        c[2] ^ rotate_left(c[4], 1),
        c[3] ^ rotate_left(c[0], 1),
    ];
    let ghost s0 = state@;
    proof {
        assert forall|x: int| 0 <= x < 5 implies d[x] == theta_word(s0, x) by {
            assert(x == 0 || x == 1 || x == 2 || x == 3 || x == 4);
        }
    }
    for i in 0..N_LANES
        invariant
            s0 == old(state)@,
            s0.len() == 25,
            forall|x: int| 0 <= x < 5 ==> d[x] == theta_word(s0, x),
            forall|k: int| 0 <= k < i ==> state[k] == theta_of(s0)[k],
            forall|k: int| i <= k < 25 ==> state[k] == s0[k],
    {
        state[i] = state[i] ^ d[i % 5];
    }
    assert(state@ =~= theta_of(s0));
}

/// Applies rho and pi, lane by lane.
pub fn rho_pi_reference(state: &mut State)
    ensures
        final(state)@ == rho_pi_of(old(state)@),
{
    let mut output: State = [0u64; 25];
    for y in 0..5
        invariant
            state@ == old(state)@,
            forall|b: int| 0 <= b < 25 && b % 5 < y ==> output[b] == rho_pi_of(state@)[b],
    {
        for x in 0..5
            invariant
                0 <= y < 5,
                state@ == old(state)@,
                forall|b: int| 0 <= b < 25 && b % 5 < y ==> output[b] == rho_pi_of(state@)[b],
                forall|b: int|
                    0 <= b < 25 && b % 5 == y && (b % 5 + 3 * (b / 5)) % 5 < x ==> output[b]
                        == rho_pi_of(state@)[b],
        {
            let target: usize = lane(y, (2 * x + 3 * y) % 5);
            proof {
                assert(target % 5 == y && target / 5 == (2 * x + 3 * y) % 5);
                assert((y + 3 * ((2 * x + 3 * y) % 5)) % 5 == x);
                assert(rho_pi_source(target as int) == x + 5 * y);
                assert(RHO_OFFSETS[x + 5 * y] < 64);
            }
            output[target] = rotate_left(state[lane(x, y)], RHO_OFFSETS[lane(x, y)]);
        }
    }
    *state = output;
    assert(state@ =~= rho_pi_of(old(state)@));
}

/// Applies chi, row by row.
pub fn chi(state: &mut State)
    ensures
        final(state)@ == chi_of(old(state)@),
{
    let ghost s0 = state@;
    for y in 0..5
        invariant
            s0 == old(state)@,
            s0.len() == 25,
            forall|k: int| 0 <= k < 5 * y ==> state[k] == chi_lane(s0, k),
            forall|k: int| 5 * y <= k < 25 ==> state[k] == s0[k],
    {
        let a0: u64 = state[lane(0, y)];
        let a1: u64 = state[lane(1, y)];
        let a2: u64 = state[lane(2, y)];
        let a3: u64 = state[lane(3, y)];
        let a4: u64 = state[lane(4, y)];
        state[lane(0, y)] = a0 ^ ((!a1) & a2);
        state[lane(1, y)] = a1 ^ ((!a2) & a3);
        state[lane(2, y)] = a2 ^ ((!a3) & a4);
        state[lane(3, y)] = a3 ^ ((!a4) & a0);
        state[lane(4, y)] = a4 ^ ((!a0) & a1);
        proof {
            assert forall|k: int| 5 * y <= k < 5 * y + 5 implies state[k] == chi_lane(s0, k) by {
                assert(k == 5 * y || k == 5 * y + 1 || k == 5 * y + 2 || k == 5 * y + 3 || k == 5
                    * y + 4);
            }
        }
    }
    assert(state@ =~= chi_of(s0));
}

} // verus!
