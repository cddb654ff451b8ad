//! Committed witness layout of the Keccak prover: 25 blocks of 32 words per permutation. A block
//! holds the 25 lanes of a round boundary, the five theta corrections of the round that starts
//! there, and two words of padding.
use vstd::prelude::*;

verus! {

/// Number of committed round-boundary blocks per Keccak-f[1600] permutation.
pub const BLOCKS_PER_PERMUTATION: usize = 25;

/// Number of committed words per round-boundary block.
pub const WORDS_PER_BLOCK: usize = 32;

/// Offset of the first round-boundary state lane in a block.
pub const A_OFFSET: usize = 0;

/// Number of committed round-boundary state lanes in a block.
pub const A_WORDS_PER_BLOCK: usize = 25;

/// Offset of the first theta correction word in a block.
pub const D_OFFSET: usize = A_OFFSET + A_WORDS_PER_BLOCK;

/// Number of theta correction words per non-final block.
pub const D_WORDS_PER_BLOCK: usize = 5;

/// Offset of the first padding word in a block.
pub const PADDING_OFFSET: usize = D_OFFSET + D_WORDS_PER_BLOCK;

/// Number of padding words per block.
pub const PADDING_WORDS_PER_BLOCK: usize = WORDS_PER_BLOCK - PADDING_OFFSET;

/// Number of committed word slots per Keccak-f[1600] permutation.
pub const WORDS_PER_PERMUTATION: usize = 800;

/// Number of active committed state words per permutation.
pub const A_WORDS_PER_PERMUTATION: usize = 625;

/// Number of active theta correction words per permutation.
pub const D_WORDS_PER_PERMUTATION: usize = 120;

/// Number of active committed words per permutation.
pub const ACTIVE_WORDS_PER_PERMUTATION: usize = A_WORDS_PER_PERMUTATION + D_WORDS_PER_PERMUTATION;

/// Number of inactive committed padding slots per permutation.
pub const PADDING_WORDS_PER_PERMUTATION: usize = WORDS_PER_PERMUTATION
    - ACTIVE_WORDS_PER_PERMUTATION;

/// The word index of a slot of a round-boundary block.
pub open spec fn slot(permutation: int, round_block: int, slot: int) -> int {
    800 * permutation + 32 * round_block + slot
}

/// The first committed word index for `(permutation, round_block)`.
pub fn block_index(permutation: usize, round_block: usize) -> (r: usize)
    requires
        round_block < BLOCKS_PER_PERMUTATION,
        800 * permutation + 800 <= usize::MAX,
    ensures
        r == slot(permutation as int, round_block as int, 0),
{
    permutation * WORDS_PER_PERMUTATION + round_block * WORDS_PER_BLOCK
}

/// The committed word index for one block-local slot.
pub fn block_slot_index(permutation: usize, round_block: usize, slot: usize) -> (r: usize)
    requires
        round_block < BLOCKS_PER_PERMUTATION,
        slot < WORDS_PER_BLOCK,
        800 * permutation + 800 <= usize::MAX,
    ensures
        r == self::slot(permutation as int, round_block as int, slot as int),
{
    block_index(permutation, round_block) + slot
}

/// The committed word index for `A_r[lane]`.
pub fn a_index(permutation: usize, round_block: usize, lane: usize) -> (r: usize)
    requires
        round_block < BLOCKS_PER_PERMUTATION,
        lane < A_WORDS_PER_BLOCK,
        800 * permutation + 800 <= usize::MAX,
    ensures
        r == slot(permutation as int, round_block as int, lane as int),
{
    block_slot_index(permutation, round_block, A_OFFSET + lane)
}

/// The committed word index for `D_r[x]`.
pub fn d_index(permutation: usize, round: usize, x: usize) -> (r: usize)
    requires
        round < 24,
        x < D_WORDS_PER_BLOCK,
        800 * permutation + 800 <= usize::MAX,
    ensures
        r == slot(permutation as int, round as int, 25 + x),
{
    block_slot_index(permutation, round, D_OFFSET + x)
}

/// The committed word index for one padding slot.
pub fn padding_index(permutation: usize, round_block: usize, padding_slot: usize) -> (r: usize)
    requires
        round_block < BLOCKS_PER_PERMUTATION,
        padding_slot < PADDING_WORDS_PER_BLOCK,
        800 * permutation + 800 <= usize::MAX,
    ensures
        r == slot(permutation as int, round_block as int, 30 + padding_slot),
{
    block_slot_index(permutation, round_block, PADDING_OFFSET + padding_slot)
}

/// The committed witness length for a batch of permutations.
pub fn witness_len(n_permutations: usize) -> (r: usize)
    requires
        800 * n_permutations <= usize::MAX,
    ensures
        r == 800 * n_permutations,
{
    n_permutations * WORDS_PER_PERMUTATION
}

/// Different slots have different indices, and every slot of a batch lies within its witness.
pub proof fn lemma_slots(n: nat, p: int, r: int, s: int, p2: int, r2: int, s2: int)
    requires
        0 <= p < n,
        0 <= r < 25,
        0 <= s < 32,
        0 <= p2 < n,
        0 <= r2 < 25,
        0 <= s2 < 32,
    ensures
        0 <= slot(p, r, s) < 800 * n,
        slot(p, r, s) == slot(p2, r2, s2) ==> p == p2 && r == r2 && s == s2,
{
}

} // verus!
