//! Committed `A` and `D` witness construction for Keccak-f[1600].
use super::constants::{lane, N_ROUNDS};
use super::layout;
use super::layout::slot;
use super::trace::{theta_word, PermutationTrace, State};
use crate::circuit::word::rotate_left;
use crate::constraint_system::Word;
use vstd::prelude::*;

verus! {

/// Committed witness words for a batch of Keccak-f[1600] permutations.
#[derive(Debug, Clone, PartialEq, Eq)]
pub struct CommittedKeccakWitness {
    /// The committed words.
    pub words: Vec<Word>,
    /// The number of permutations.
    pub n_permutations: usize,
}

/// The word in slot `s` of block `r` of a trace: a state lane, a theta correction, or padding.
pub open spec fn block_word(t: PermutationTrace, r: int, s: int) -> u64 {
    if s < 25 {
        if r < 24 {
            t.rounds[r].input[s]
        } else {
            t.rounds[23].output[s]
        }
    } else if s < 30 && r < 24 {
        theta_word(t.rounds[r].input@, s - 25)
    } else {
        0
    }
}

/// The committed words of a batch of traces.
pub open spec fn committed_words(traces: Seq<PermutationTrace>) -> Seq<Word> {
    Seq::new(
        800 * traces.len(),
        |i: int| Word(block_word(traces[i / 800], (i % 800) / 32, i % 32)),
    )
}

impl CommittedKeccakWitness {
    /// The words are those of the batch of traces.
    pub open spec fn holds(self, traces: Seq<PermutationTrace>) -> bool {
        &&& self.n_permutations == traces.len()
        &&& self.words@ == committed_words(traces)
    }

    /// The witness has the words of its permutations.
    pub open spec fn wf(self) -> bool {
        self.words@.len() == 800 * self.n_permutations
    }

    /// Builds the committed `A` and `D` witness for a batch of permutation traces.
    pub fn from_traces(traces: &[PermutationTrace]) -> (r: Self)
        requires
            800 * traces@.len() <= usize::MAX,
        ensures
            r.holds(traces@),
            r.wf(),
    {
        let n: usize = traces.len();
        let mut words: Vec<Word> = Vec::new();
        for permutation in 0..n
            invariant
                n == traces@.len(),
                800 * n <= usize::MAX,
                words@.len() == 800 * permutation,
                forall|i: int|
                    0 <= i < words@.len() ==> #[trigger] words@[i] == committed_words(traces@)[i],
        {
            let trace = &traces[permutation];
            for block in 0..25
                invariant
                    n == traces@.len(),
                    permutation < n,
                    800 * n <= usize::MAX,
                    *trace == traces@[permutation as int],
                    words@.len() == 800 * permutation + 32 * block,
                    forall|i: int|
                        0 <= i < words@.len() ==> #[trigger] words@[i] == committed_words(
                            traces@,
                        )[i],
            {
                let state: State = if block < N_ROUNDS {
                    trace.rounds[block].input
                } else {
                    trace.output()
                };
                let d: [u64; 5] = if block < N_ROUNDS {
                    theta_corrections(&state)
                } else {
                    [0u64; 5]
                };
                for s in 0..32
                    invariant
                        n == traces@.len(),
                        permutation < n,
                        block < 25,
                        800 * n <= usize::MAX,
                        *trace == traces@[permutation as int],
                        forall|k: int|
                            0 <= k < 25 ==> state[k] == block_word(*trace, block as int, k),
                        forall|k: int|
                            0 <= k < 5 ==> d[k] == block_word(*trace, block as int, 25 + k),
                        words@.len() == 800 * permutation + 32 * block + s,
                        forall|i: int|
                            0 <= i < words@.len() ==> #[trigger] words@[i] == committed_words(
                                traces@,
                            )[i],
                {
                    let word: u64 = if s < layout::D_OFFSET {
                        state[s]
                    } else if s < layout::PADDING_OFFSET {
                        d[s - layout::D_OFFSET]
                    } else {
                        0
                    };
                    proof {
                        let i = 800 * permutation + 32 * block + s;
                        assert(i / 800 == permutation && i % 800 == 32 * block + s);
                        assert(i % 32 == s && (i % 800) / 32 == block);
                        if 25 <= s < 30 {
                            assert(d[s - 25] == block_word(*trace, block as int, 25 + (s - 25)));
                        }
                    }
                    words.push(Word(word));
                }
            }
        }
        assert(words@ =~= committed_words(traces@));
        CommittedKeccakWitness { words, n_permutations: n }
    }

    /// The committed witness words.
    pub fn words(&self) -> (r: &[Word])
        ensures
            r@ == self.words@,
    {
        self.words.as_slice()
    }

    /// Consumes the witness and returns the committed words.
    pub fn into_words(self) -> (r: Vec<Word>)
        ensures
            r == self.words,
    {
        self.words
    }

    /// The number of Keccak-f permutations in the batch.
    pub fn n_permutations(&self) -> (r: usize)
        ensures
            r == self.n_permutations,
    {
        self.n_permutations
    }

    /// One committed `A_r[lane]` word.
    pub fn a(&self, permutation: usize, round_block: usize, lane: usize) -> (r: Word)
        requires
            self.wf(),
            permutation < self.n_permutations,
            round_block < 25,
            lane < 25,
        ensures
            r == self.words@[slot(permutation as int, round_block as int, lane as int)],
    {
        let len: usize = self.words.len();
        assert(800 * permutation + 800 <= len);
        self.words[layout::a_index(permutation, round_block, lane)]
    }

    /// One committed `D_r[x]` word.
    pub fn d(&self, permutation: usize, round: usize, x: usize) -> (r: Word)
        requires
            self.wf(),
            permutation < self.n_permutations,
            round < 24,
            x < 5,
        ensures
            r == self.words@[slot(permutation as int, round as int, 25 + x)],
    {
        let len: usize = self.words.len();
        assert(800 * permutation + 800 <= len);
        self.words[layout::d_index(permutation, round, x)]
    }
}

/// The word in a slot of a batch's witness.
pub proof fn lemma_committed_slot(traces: Seq<PermutationTrace>, p: int, r: int, s: int)
    requires
        0 <= p < traces.len(),
        0 <= r < 25,
        0 <= s < 32,
    ensures
        0 <= slot(p, r, s) < 800 * traces.len(),
        committed_words(traces)[slot(p, r, s)] == Word(block_word(traces[p], r, s)),
{
    let i = slot(p, r, s);
    assert(i / 800 == p && i % 800 == 32 * r + s && i % 32 == s && (i % 800) / 32 == r);
}

/// Computes the five Keccak theta correction words for a round input state.
pub fn theta_corrections(state: &State) -> (r: [u64; 5])
    ensures
        forall|x: int| 0 <= x < 5 ==> r[x] == theta_word(state@, x),
{
    let c0: u64 = state[lane(0, 0)] ^ state[lane(0, 1)] ^ state[lane(0, 2)] ^ state[lane(0, 3)]
        ^ state[lane(0, 4)];
    let c1: u64 = state[lane(1, 0)] ^ state[lane(1, 1)] ^ state[lane(1, 2)] ^ state[lane(1, 3)]
        ^ state[lane(1, 4)];
    let c2: u64 = state[lane(2, 0)] ^ state[lane(2, 1)] ^ state[lane(2, 2)] ^ state[lane(2, 3)]
        ^ state[lane(2, 4)];
    let c3: u64 = state[lane(3, 0)] ^ state[lane(3, 1)] ^ state[lane(3, 2)] ^ state[lane(3, 3)]
        ^ state[lane(3, 4)];
    let c4: u64 = state[lane(4, 0)] ^ state[lane(4, 1)] ^ state[lane(4, 2)] ^ state[lane(4, 3)]
        ^ state[lane(4, 4)];
    let r: [u64; 5] = [
        c4 ^ rotate_left(c1, 1),
        c0 ^ rotate_left(c2, 1),
        c1 ^ rotate_left(c3, 1),
        c2 ^ rotate_left(c4, 1),
        c3 ^ rotate_left(c0, 1),
    ];
    proof {
        assert forall|x: int| 0 <= x < 5 implies r[x] == theta_word(state@, x) by {
            assert(x == 0 || x == 1 || x == 2 || x == 3 || x == 4);
        }
    }
    r
}

} // verus!
