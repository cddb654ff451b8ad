//! The parameters of BLAKE3.
use vstd::prelude::*;

verus! {

/// The bytes of a block.
pub const BLOCK_LEN: usize = 64;

/// The bytes of a chunk.
pub const CHUNK_LEN: usize = 1024;

/// The rounds of a compression.
pub const ROUNDS: usize = 7;

/// The initialization vector, the same as that of BLAKE2s.
pub const IV: [u32; 8] = [
    0x6A09E667,
    0xBB67AE85,
    0x3C6EF372,
    0xA54FF53A,
    0x510E527F,
    0x9B05688C,
    0x1F83D9AB,
    0x5BE0CD19,
];

/// Marks the first block of a chunk.
pub const CHUNK_START: u32 = 1;

/// Marks the last block of a chunk.
pub const CHUNK_END: u32 = 2;

/// Marks a parent node.
pub const PARENT: u32 = 4;

/// Marks the root node.
pub const ROOT: u32 = 8;

/// Word `i` of the next round's message is word `MSG_PERMUTATION[i]` of this round's.
pub const MSG_PERMUTATION: [usize; 16] = [2, 6, 3, 10, 7, 0, 4, 13, 1, 11, 12, 5, 9, 14, 15, 8];

/// Word `i` of round `r`'s message is word `SCHEDULES[r][i]` of the block.
pub const SCHEDULES: [[usize; 16]; 7] = [
    [0, 1, 2, 3, 4, 5, 6, 7, 8, 9, 10, 11, 12, 13, 14, 15],
    [2, 6, 3, 10, 7, 0, 4, 13, 1, 11, 12, 5, 9, 14, 15, 8],
    [3, 4, 10, 12, 13, 2, 7, 14, 6, 5, 9, 0, 11, 15, 8, 1],
    [10, 7, 12, 9, 14, 3, 13, 15, 4, 0, 11, 2, 5, 8, 1, 6],
    [12, 13, 9, 11, 15, 10, 14, 8, 7, 2, 5, 3, 0, 1, 6, 4],
    [9, 14, 11, 5, 8, 12, 15, 1, 13, 3, 0, 10, 2, 6, 4, 7],
    [11, 15, 5, 0, 1, 9, 8, 6, 14, 10, 2, 12, 3, 4, 7, 13],
];

/// The schedules are the iterates of the permutation, starting from the identity, and stay
/// within the block.
pub proof fn lemma_schedules(r: int, i: int)
    requires
        0 <= r < 7,
        0 <= i < 16,
    ensures
        0 <= MSG_PERMUTATION[i] < 16,
        0 <= SCHEDULES[r][i] < 16,
        SCHEDULES[0][i] == i,
        r < 6 ==> SCHEDULES[r + 1][i] == SCHEDULES[r][MSG_PERMUTATION[i] as int],
{
}

/// Every schedule is a permutation of the block's words.
pub proof fn lemma_schedules_injective(r: int, i: int, j: int)
    requires
        0 <= r < 7,
        0 <= i < j < 16,
    ensures
        SCHEDULES[r][i] != SCHEDULES[r][j],
{
}

/// Computes the schedules by iterating the permutation.
pub fn compute_schedules() -> (r: [[usize; 16]; 7])
    ensures
        r == SCHEDULES,
{
    let mut schedules: [[usize; 16]; 7] = [[0; 16]; 7];
    let mut row: [usize; 16] = [0, 1, 2, 3, 4, 5, 6, 7, 8, 9, 10, 11, 12, 13, 14, 15];
    for r in 0..7
        invariant
            forall|k: int| 0 <= k < r ==> #[trigger] schedules[k] =~= SCHEDULES[k],
            r < 7 ==> row =~= SCHEDULES[r as int],
    {
        schedules[r] = row;
        let mut next: [usize; 16] = [0; 16];
        for j in 0..16
            invariant
                0 <= r < 7,
                row =~= SCHEDULES[r as int],
                r < 6 ==> forall|k: int| 0 <= k < j ==> next[k] == SCHEDULES[r + 1][k],
        {
            proof {
                lemma_schedules(r as int, j as int);
            }
            next[j] = row[MSG_PERMUTATION[j]];
        }
        row = next;
    }
    assert(schedules =~= SCHEDULES);
    schedules
}

} // verus!
