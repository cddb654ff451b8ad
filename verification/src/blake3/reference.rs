//! BLAKE3 on bytes, with the round states of a compression exposed.
use super::constants::{
    lemma_schedules, BLOCK_LEN, CHUNK_END, CHUNK_LEN, CHUNK_START, IV, MSG_PERMUTATION, PARENT,
    ROOT,
};
use crate::circuit::word::{add32, rotate_right32, rotr32, wrapping_add32};
use vstd::prelude::*;

verus! {

/// The quarter-round on four state words with two message words.
pub open spec fn g_words(a: u32, b: u32, c: u32, d: u32, mx: u32, my: u32) -> (u32, u32, u32, u32) {
    let a1 = add32(add32(a, b), mx);
    let d1 = rotr32(d ^ a1, 16);
    let c1 = add32(c, d1);
    let b1 = rotr32(b ^ c1, 12);
    let a2 = add32(add32(a1, b1), my);
    let d2 = rotr32(d1 ^ a2, 8);
    let c2 = add32(c1, d2);
    let b2 = rotr32(b1 ^ c2, 7);
    (a2, b2, c2, d2)
}

/// The quarter-round on the state words at four positions.
pub open spec fn g_at(s: Seq<u32>, a: int, b: int, c: int, d: int, mx: u32, my: u32) -> Seq<u32> {
    let q = g_words(s[a], s[b], s[c], s[d], mx, my);
    s.update(a, q.0).update(b, q.1).update(c, q.2).update(d, q.3)
}

/// One round: the columns, then the diagonals.
pub open spec fn round_of(s: Seq<u32>, m: Seq<u32>) -> Seq<u32> {
    let s = g_at(s, 0, 4, 8, 12, m[0], m[1]);
    let s = g_at(s, 1, 5, 9, 13, m[2], m[3]);
    let s = g_at(s, 2, 6, 10, 14, m[4], m[5]);
    let s = g_at(s, 3, 7, 11, 15, m[6], m[7]);
    let s = g_at(s, 0, 5, 10, 15, m[8], m[9]);
    let s = g_at(s, 1, 6, 11, 12, m[10], m[11]);
    let s = g_at(s, 2, 7, 8, 13, m[12], m[13]);
    g_at(s, 3, 4, 9, 14, m[14], m[15])
}

/// The message after one permutation.
pub open spec fn permuted(m: Seq<u32>) -> Seq<u32> {
    Seq::new(16, |i: int| m[MSG_PERMUTATION[i] as int])
}

/// The message of round `r`.
pub open spec fn message_at(m: Seq<u32>, r: nat) -> Seq<u32>
    decreases r,
{
    if r == 0 {
        m
    } else {
        permuted(message_at(m, (r - 1) as nat))
    }
}

/// The state before the first round.
pub open spec fn initial_state(
    cv: Seq<u32>,
    counter_lo: u32,
    counter_hi: u32,
    block_len: u32,
    flags: u32,
) -> Seq<u32> {
    seq![
        cv[0], cv[1], cv[2], cv[3], cv[4], cv[5], cv[6], cv[7],
        IV[0], IV[1], IV[2], IV[3], counter_lo, counter_hi, block_len, flags,
    ]
}

/// The state after `r` rounds from `s`.
pub open spec fn state_at(s: Seq<u32>, m: Seq<u32>, r: nat) -> Seq<u32>
    decreases r,
{
    if r == 0 {
        s
    } else {
        round_of(state_at(s, m, (r - 1) as nat), message_at(m, (r - 1) as nat))
    }
}

/// The output of a compression from the state after the last round.
pub open spec fn finalized(s: Seq<u32>, cv: Seq<u32>) -> Seq<u32> {
    Seq::new(
        16,
        |i: int|
            if i < 8 {
                s[i] ^ s[i + 8]
            } else {
                s[i] ^ cv[i - 8]
            },
    )
}

/// The low half of a counter.
pub open spec fn low_word(counter: u64) -> u32 {
    (counter & 0xffff_ffff) as u32
}

/// The high half of a counter.
pub open spec fn high_word(counter: u64) -> u32 {
    (counter >> 32u64) as u32
}

/// The compression function.
pub open spec fn compress_words(
    cv: Seq<u32>,
    block: Seq<u32>,
    counter_lo: u32,
    counter_hi: u32,
    block_len: u32,
    flags: u32,
) -> Seq<u32> {
    finalized(
        state_at(initial_state(cv, counter_lo, counter_hi, block_len, flags), block, 7),
        cv,
    )
}

/// The chaining value of a compression.
pub open spec fn compress_cv(
    cv: Seq<u32>,
    block: Seq<u32>,
    counter: u64,
    block_len: u32,
    flags: u32,
) -> Seq<u32> {
    compress_words(
        cv,
        block,
        low_word(counter),
        high_word(counter),
        block_len,
        flags,
    ).subrange(0, 8)
}

/// Byte `i` of a message, zero beyond its end.
pub open spec fn padded_byte(bytes: Seq<u8>, i: int) -> u8 {
    if 0 <= i < bytes.len() {
        bytes[i]
    } else {
        0
    }
}

/// The word made of four bytes, the least significant first.
pub open spec fn le_word(b0: u8, b1: u8, b2: u8, b3: u8) -> u32 {
    (b0 as u32) | ((b1 as u32) << 8u32) | ((b2 as u32) << 16u32) | ((b3 as u32) << 24u32)
}

/// The sixteen words of block `k`, zero beyond the end of the chunk.
pub open spec fn block_of(bytes: Seq<u8>, k: int) -> Seq<u32> {
    Seq::new(
        16,
        |i: int|
            le_word(
                padded_byte(bytes, 64 * k + 4 * i),
                padded_byte(bytes, 64 * k + 4 * i + 1),
                padded_byte(bytes, 64 * k + 4 * i + 2),
                padded_byte(bytes, 64 * k + 4 * i + 3),
            ),
    )
}

/// The number of blocks of a chunk of `len` bytes: at least one.
pub open spec fn block_count(len: int) -> int {
    if len == 0 {
        1
    } else {
        (len + 63) / 64
    }
}

/// The flags of block `k` of `n`.
pub open spec fn block_flags(k: int, n: int, is_root: bool) -> u32 {
    let start = if k == 0 {
        CHUNK_START as int
    } else {
        0
    };
    let end = if k == n - 1 {
        CHUNK_END + if is_root {
            ROOT as int
        } else {
            0
        }
    } else {
        0
    };
    (start + end) as u32
}

/// The number of message bytes in block `k` of a chunk of `len` bytes.
pub open spec fn block_bytes(len: int, k: int) -> int {
    if len - 64 * k < 64 {
        len - 64 * k
    } else {
        64
    }
}

/// The chaining value after the first `k` blocks of a chunk.
pub open spec fn chunk_state(bytes: Seq<u8>, counter: u64, is_root: bool, k: nat) -> Seq<u32>
    decreases k,
{
    if k == 0 {
        IV@
    } else {
        let n = block_count(bytes.len() as int);
        compress_cv(
            chunk_state(bytes, counter, is_root, (k - 1) as nat),
            block_of(bytes, k - 1),
            counter,
            block_bytes(bytes.len() as int, k - 1) as u32,
            block_flags(k - 1, n, is_root),
        )
    }
}

/// The chaining value of a chunk.
pub open spec fn chunk_value(bytes: Seq<u8>, counter: u64, is_root: bool) -> Seq<u32> {
    chunk_state(bytes, counter, is_root, block_count(bytes.len() as int) as nat)
}

/// The flags of a parent node.
pub open spec fn parent_flags(is_root: bool) -> u32 {
    if is_root {
        12
    } else {
        4
    }
}

/// The chaining value of a parent.
pub open spec fn parent_value(left: Seq<u32>, right: Seq<u32>, is_root: bool) -> Seq<u32> {
    compress_cv(IV@, left + right, 0, 64, parent_flags(is_root))
}

/// The size of the left subtree over `n >= 2` leaves: the largest power of two below `n`.
pub open spec fn left_size(n: nat) -> nat
    decreases n,
{
    if n <= 2 {
        1
    } else {
        2 * left_size(((n + 1) / 2) as nat)
    }
}

/// The left size is a power of two that is below `n` and at least half of it.
pub proof fn lemma_left_size(n: nat)
    requires
        n >= 2,
    ensures
        left_size(n) < n <= 2 * left_size(n),
        exists|k: nat| left_size(n) == vstd::arithmetic::power2::pow2(k),
    decreases n,
{
    if n <= 2 {
        vstd::arithmetic::power2::lemma2_to64();
        assert(left_size(n) == vstd::arithmetic::power2::pow2(0));
    } else {
        let h = ((n + 1) / 2) as nat;
        lemma_left_size(h);
        let k = choose|k: nat| left_size(h) == vstd::arithmetic::power2::pow2(k);
        vstd::arithmetic::power2::lemma_pow2_unfold(k + 1);
        assert(left_size(n) == vstd::arithmetic::power2::pow2(k + 1));
    }
}

/// The value of the tree over chaining values.
pub open spec fn tree_value(cvs: Seq<Seq<u32>>, is_root: bool) -> Seq<u32>
    decreases cvs.len(),
{
    if cvs.len() <= 1 {
        cvs[0]
    } else {
        let p = left_size(cvs.len()) as int;
        if 0 < p < cvs.len() {
            parent_value(
                tree_value(cvs.subrange(0, p), false),
                tree_value(cvs.subrange(p, cvs.len() as int), false),
                is_root,
            )
        } else {
            cvs[0]
        }
    }
}

/// The number of chunks of a message of `len` bytes: at least one.
pub open spec fn chunk_count(len: int) -> int {
    if len == 0 {
        1
    } else {
        (len + 1023) / 1024
    }
}

/// Chunk `k` of a message.
pub open spec fn chunk_of(message: Seq<u8>, k: int) -> Seq<u8> {
    message.subrange(
        1024 * k,
        if message.len() < 1024 * k + 1024 {
            message.len() as int
        } else {
            1024 * k + 1024
        },
    )
}

/// The eight words of the digest.
pub open spec fn hash_words(message: Seq<u8>) -> Seq<u32> {
    let n = chunk_count(message.len() as int);
    if n == 1 {
        chunk_value(message, 0, true)
    } else {
        tree_value(
            Seq::new(n as nat, |k: int| chunk_value(chunk_of(message, k), k as u64, false)),
            true,
        )
    }
}

/// The digest.
pub open spec fn hash_bytes(message: Seq<u8>) -> Seq<u8> {
    Seq::new(
        32,
        |i: int| ((hash_words(message)[i / 4] >> ((8 * (i % 4)) as u32)) & 0xff) as u8,
    )
}

fn g(state: &mut [u32; 16], a: usize, b: usize, c: usize, d: usize, mx: u32, my: u32)
    requires
        a < 16,
        b < 16,
        c < 16,
        d < 16,
        a != b,
        a != c,
        a != d,
        b != c,
        b != d,
        c != d,
    ensures
        final(state)@ == g_at(old(state)@, a as int, b as int, c as int, d as int, mx, my),
{
    let a1: u32 = wrapping_add32(wrapping_add32(state[a], state[b]), mx);
    let d1: u32 = rotate_right32(state[d] ^ a1, 16);
    let c1: u32 = wrapping_add32(state[c], d1);
    let b1: u32 = rotate_right32(state[b] ^ c1, 12);
    let a2: u32 = wrapping_add32(wrapping_add32(a1, b1), my);
    let d2: u32 = rotate_right32(d1 ^ a2, 8);
    let c2: u32 = wrapping_add32(c1, d2);
    let b2: u32 = rotate_right32(b1 ^ c2, 7);
    state[a] = a2;
    state[b] = b2;
    state[c] = c2;
    state[d] = d2;
    assert(state@ =~= g_at(old(state)@, a as int, b as int, c as int, d as int, mx, my));
}

fn round(state: &mut [u32; 16], m: &[u32; 16])
    ensures
        final(state)@ == round_of(old(state)@, m@),
{
    g(state, 0, 4, 8, 12, m[0], m[1]);
    g(state, 1, 5, 9, 13, m[2], m[3]);
    g(state, 2, 6, 10, 14, m[4], m[5]);
    g(state, 3, 7, 11, 15, m[6], m[7]);
    g(state, 0, 5, 10, 15, m[8], m[9]);
    g(state, 1, 6, 11, 12, m[10], m[11]);
    g(state, 2, 7, 8, 13, m[12], m[13]);
    g(state, 3, 4, 9, 14, m[14], m[15]);
}

fn permute(m: &mut [u32; 16])
    ensures
        final(m)@ == permuted(old(m)@),
{
    let mut out: [u32; 16] = [0; 16];
    for i in 0..16
        invariant
            m@ == old(m)@,
            forall|k: int| 0 <= k < i ==> out[k] == m@[MSG_PERMUTATION[k] as int],
    {
        proof {
            lemma_schedules(0, i as int);
        }
        out[i] = m[MSG_PERMUTATION[i]];
    }
    *m = out;
    assert(m@ =~= permuted(old(m)@));
}

/// Result of a compression, with the round states.
pub struct CompressTrace {
    /// State after each round, before finalization.
    pub round_states: [[u32; 16]; 7],
    /// The sixteen-word output.
    pub output: [u32; 16],
}

/// The compression function with its round states.
pub fn compress_traced(
    chaining_value: &[u32; 8],
    block_words: &[u32; 16],
    counter: u64,
    block_len: u32,
    flags: u32,
) -> (r: CompressTrace)
    ensures
        forall|k: int|
            0 <= k < 7 ==> #[trigger] r.round_states[k]@ == state_at(
                initial_state(
                    chaining_value@,
                    low_word(counter),
                    high_word(counter),
                    block_len,
                    flags,
                ),
                block_words@,
                (k + 1) as nat,
            ),
        r.output@ == compress_words(
            chaining_value@,
            block_words@,
            low_word(counter),
            high_word(counter),
            block_len,
            flags,
        ),
{
    let counter_low: u32 = (counter & 0xffff_ffff) as u32;
    let counter_high: u32 = (counter >> 32u64) as u32;
    let mut state: [u32; 16] = [
        chaining_value[0],
        chaining_value[1],
        chaining_value[2],
        chaining_value[3],
        chaining_value[4],
        chaining_value[5],
        chaining_value[6],
        chaining_value[7],
        IV[0],
        IV[1],
        IV[2],
        IV[3],
        counter_low,
        counter_high,
        block_len,
        flags,
    ];
    let ghost start = initial_state(
        chaining_value@,
        low_word(counter),
        high_word(counter),
        block_len,
        flags,
    );
    assert(state@ =~= start);
    let mut block: [u32; 16] = *block_words;
    let mut round_states: [[u32; 16]; 7] = [[0u32; 16]; 7];
    for r in 0..7
        invariant
            state@ == state_at(start, block_words@, r as nat),
            block@ == message_at(block_words@, r as nat),
            forall|k: int|
                0 <= k < r ==> #[trigger] round_states[k]@ == state_at(
                    start,
                    block_words@,
                    (k + 1) as nat,
                ),
    {
        round(&mut state, &block);
        round_states[r] = state;
        permute(&mut block);
    }
    let ghost last = state@;
    for i in 0..8
        invariant
            last.len() == 16,
            forall|k: int| 0 <= k < i ==> state[k] == last[k] ^ last[k + 8],
            forall|k: int| 0 <= k < i ==> state[k + 8] == last[k + 8] ^ chaining_value@[k],
            forall|k: int| i <= k < 8 ==> state[k] == last[k],
            forall|k: int| i <= k < 8 ==> #[trigger] state[k + 8] == last[k + 8],
    {
        state[i] = state[i] ^ state[i + 8];
        state[i + 8] = state[i + 8] ^ chaining_value[i];
    }
    proof {
        assert forall|k: int| 0 <= k < 16 implies state@[k] == finalized(last, chaining_value@)[k] by {
            if k >= 8 {
                assert(state[(k - 8) + 8] == last[(k - 8) + 8] ^ chaining_value@[k - 8]);
            }
        }
        assert(state@ =~= finalized(last, chaining_value@));
    }
    CompressTrace { round_states, output: state }
}

/// The compression function.
pub fn compress(
    chaining_value: &[u32; 8],
    block_words: &[u32; 16],
    counter: u64,
    block_len: u32,
    flags: u32,
) -> (r: [u32; 16])
    ensures
        r@ == compress_words(
            chaining_value@,
            block_words@,
            low_word(counter),
            high_word(counter),
            block_len,
            flags,
        ),
{
    compress_traced(chaining_value, block_words, counter, block_len, flags).output
}

fn first_8_words(output: &[u32; 16]) -> (r: [u32; 8])
    ensures
        r@ == output@.subrange(0, 8),
{
    let r: [u32; 8] = [
        output[0],
        output[1],
        output[2],
        output[3],
        output[4],
        output[5],
        output[6],
        output[7],
    ];
    assert(r@ =~= output@.subrange(0, 8));
    r
}

/// Fills the words with the little-endian values of the bytes, four by four.
fn words_from_little_endian_bytes(bytes: &[u8; 64], words: &mut [u32; 16])
    ensures
        forall|i: int|
            0 <= i < 16 ==> #[trigger] final(words)[i] == le_word(
                bytes[4 * i],
                bytes[4 * i + 1],
                bytes[4 * i + 2],
                bytes[4 * i + 3],
            ),
{
    for i in 0..16
        invariant
            forall|k: int|
                0 <= k < i ==> #[trigger] words[k] == le_word(
                    bytes[4 * k],
                    bytes[4 * k + 1],
                    bytes[4 * k + 2],
                    bytes[4 * k + 3],
                ),
    {
        words[i] = (bytes[4 * i] as u32) | ((bytes[4 * i + 1] as u32) << 8u32) | ((bytes[4 * i + 2]
            as u32) << 16u32) | ((bytes[4 * i + 3] as u32) << 24u32);
    }
}

/// The number of blocks of a chunk: at least one.
pub fn num_blocks_of(len: usize) -> (n: usize)
    ensures
        n == block_count(len as int),
        n >= 1,
        len > 0 ==> 64 * (n - 1) < len <= 64 * n,
{
    if len == 0 {
        1
    } else {
        (len - 1) / 64 + 1
    }
}

/// The flags of block `block_idx` of `num_blocks`.
pub fn flags_of_block(block_idx: usize, num_blocks: usize, is_root: bool) -> (r: u32)
    requires
        block_idx < num_blocks,
    ensures
        r == block_flags(block_idx as int, num_blocks as int, is_root),
{
    let mut flags: u32 = 0;
    if block_idx == 0 {
        flags = flags + CHUNK_START;
    }
    if block_idx == num_blocks - 1 {
        flags = flags + CHUNK_END;
        if is_root {
            flags = flags + ROOT;
        }
    }
    flags
}

/// Compresses a chunk and returns its chaining value. Where `is_root` is set, the last block
/// also carries the root flag.
pub fn chunk_cv(chunk_bytes: &[u8], counter: u64, is_root: bool) -> (r: [u32; 8])
    ensures
        r@ == chunk_value(chunk_bytes@, counter, is_root),
{
    let chunk_len: usize = chunk_bytes.len();
    let num_blocks: usize = num_blocks_of(chunk_len);
    let mut cv: [u32; 8] = IV;
    for block_idx in 0..num_blocks
        invariant
            chunk_len == chunk_bytes@.len(),
            num_blocks == block_count(chunk_len as int),
            chunk_len > 0 ==> 64 * (num_blocks - 1) < chunk_len <= 64 * num_blocks,
            cv@ == chunk_state(chunk_bytes@, counter, is_root, block_idx as nat),
    {
        let block_start: usize = block_idx * BLOCK_LEN;
        let rest: usize = chunk_len - block_start;
        let actual_bytes: usize = if rest < BLOCK_LEN {
            rest
        } else {
            BLOCK_LEN
        };
        let mut block_bytes: [u8; 64] = [0u8; 64];
        for j in 0..actual_bytes
            invariant
                chunk_len == chunk_bytes@.len(),
                block_start == 64 * block_idx,
                block_start + actual_bytes <= chunk_len,
                actual_bytes <= 64,
                forall|k: int| 0 <= k < j ==> block_bytes[k] == chunk_bytes[block_start + k],
                forall|k: int| j <= k < 64 ==> block_bytes[k] == 0,
        {
            block_bytes[j] = chunk_bytes[block_start + j];
        }
        let mut block_words: [u32; 16] = [0u32; 16];
        words_from_little_endian_bytes(&block_bytes, &mut block_words);
        proof {
            let b = block_of(chunk_bytes@, block_idx as int);
            assert forall|j: int| 0 <= j < 64 implies #[trigger] block_bytes[j] == padded_byte(
                chunk_bytes@,
                64 * block_idx + j,
            ) by {}
            assert forall|i: int| 0 <= i < 16 implies block_words@[i] == b[i] by {
                assert(block_words[i] == le_word(
                    block_bytes[4 * i],
                    block_bytes[4 * i + 1],
                    block_bytes[4 * i + 2],
                    block_bytes[4 * i + 3],
                ));
            }
            assert(block_words@ =~= b);
        }
        let flags: u32 = flags_of_block(block_idx, num_blocks, is_root);
        let output = compress(&cv, &block_words, counter, actual_bytes as u32, flags);
        cv = first_8_words(&output);
    }
    cv
}

/// The chaining value of the parent of two chaining values.
pub fn parent_cv(left: &[u32; 8], right: &[u32; 8], is_root: bool) -> (r: [u32; 8])
    ensures
        r@ == parent_value(left@, right@, is_root),
{
    let mut block_words: [u32; 16] = [0u32; 16];
    for i in 0..8
        invariant
            forall|k: int| 0 <= k < i ==> block_words[k] == left[k],
            forall|k: int| 0 <= k < i ==> #[trigger] block_words[k + 8] == right[k],
    {
        block_words[i] = left[i];
        block_words[i + 8] = right[i];
    }
    proof {
        assert forall|k: int| 0 <= k < 16 implies block_words@[k] == (left@ + right@)[k] by {
            if k >= 8 {
                assert(block_words[(k - 8) + 8] == right[k - 8]);
            }
        }
        assert(block_words@ =~= left@ + right@);
        super::laws::lemma_counter_words(0);
    }
    let flags: u32 = if is_root {
        PARENT + ROOT
    } else {
        PARENT
    };
    let output = compress(&IV, &block_words, 0, BLOCK_LEN as u32, flags);
    first_8_words(&output)
}

/// The words of a list of chaining values.
pub open spec fn cv_words(cvs: Seq<[u32; 8]>) -> Seq<Seq<u32>> {
    Seq::new(cvs.len(), |i: int| cvs[i]@)
}

/// The size of the left subtree over `n` leaves.
pub fn left_size_of(n: usize) -> (p: usize)
    requires
        n >= 2,
    ensures
        p == left_size(n as nat),
        0 < p < n,
    decreases n,
{
    if n <= 2 {
        1
    } else {
        let h: usize = n / 2 + n % 2;
        let q: usize = left_size_of(h);
        proof {
            lemma_left_size(n as nat);
        }
        2 * q
    }
}

/// Merges chaining values in a binary tree whose left subtrees are the largest complete ones.
pub fn merge_cvs(cvs: &[[u32; 8]], is_root: bool) -> (r: [u32; 8])
    requires
        cvs@.len() > 0,
    ensures
        r@ == tree_value(cv_words(cvs@), is_root),
    decreases cvs@.len(),
{
    if cvs.len() == 1 {
        return cvs[0];
    }
    let split: usize = left_size_of(cvs.len());
    let (lo, hi) = cvs.split_at(split);
    let left = merge_cvs(lo, false);
    let right = merge_cvs(hi, false);
    proof {
        let all = cv_words(cvs@);
        assert(cv_words(lo@) =~= all.subrange(0, split as int));
        assert(cv_words(hi@) =~= all.subrange(split as int, all.len() as int));
    }
    parent_cv(&left, &right, is_root)
}

/// The number of chunks of a message: at least one.
pub fn num_chunks_of(len: usize) -> (n: usize)
    ensures
        n == chunk_count(len as int),
        n >= 1,
        len > 0 ==> 1024 * (n - 1) < len <= 1024 * n,
{
    if len == 0 {
        1
    } else {
        (len - 1) / 1024 + 1
    }
}

/// The BLAKE3 digest of a message.
pub fn blake3_hash(message: &[u8]) -> (r: [u8; 32])
    ensures
        r@ == hash_bytes(message@),
{
    let len: usize = message.len();
    let num_chunks: usize = num_chunks_of(len);
    let mut chunk_cvs: Vec<[u32; 8]> = Vec::new();
    for chunk_idx in 0..num_chunks
        invariant
            len == message@.len(),
            num_chunks == chunk_count(len as int),
            num_chunks >= 1,
            len > 0 ==> 1024 * (num_chunks - 1) < len <= 1024 * num_chunks,
            chunk_cvs@.len() == chunk_idx,
            num_chunks == 1 ==> forall|k: int|
                0 <= k < chunk_idx ==> #[trigger] chunk_cvs@[k]@ == chunk_value(message@, 0, true),
            num_chunks > 1 ==> forall|k: int|
                0 <= k < chunk_idx ==> #[trigger] chunk_cvs@[k]@ == chunk_value(
                    chunk_of(message@, k),
                    k as u64,
                    false,
                ),
    {
        let start: usize = chunk_idx * CHUNK_LEN;
        let end: usize = if len - start < CHUNK_LEN {
            len
        } else {
            start + CHUNK_LEN
        };
        let chunk_bytes = vstd::slice::slice_subrange(message, start, end);
        proof {
            if num_chunks == 1 {
                assert(chunk_bytes@ =~= message@);
            } else {
                assert(chunk_bytes@ =~= chunk_of(message@, chunk_idx as int));
            }
        }
        chunk_cvs.push(chunk_cv(chunk_bytes, chunk_idx as u64, num_chunks == 1));
    }
    let root_cv: [u32; 8] = if chunk_cvs.len() == 1 {
        chunk_cvs[0]
    } else {
        merge_cvs(chunk_cvs.as_slice(), true)
    };
    proof {
        if num_chunks > 1 {
            assert(cv_words(chunk_cvs@) =~= Seq::new(
                num_chunks as nat,
                |k: int| chunk_value(chunk_of(message@, k), k as u64, false),
            ));
        }
        assert(root_cv@ == hash_words(message@));
    }
    let mut digest: [u8; 32] = [0u8; 32];
    for i in 0..32
        invariant
            root_cv@ == hash_words(message@),
            forall|k: int|
                0 <= k < i ==> #[trigger] digest[k] == ((root_cv@[k / 4] >> ((8 * (k % 4)) as u32))
                    & 0xff) as u8,
    {
        digest[i] = #[verifier::truncate] (((root_cv[i / 4] >> ((8 * (i % 4)) as u32)) & 0xff) as u8);
    }
    assert(digest@ =~= hash_bytes(message@));
    digest
}

} // verus!
