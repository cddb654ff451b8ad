//! Laws of BLAKE3: what the counter of a compression stands for, how a chunk takes in its blocks, and
//! how the digest of a message is made of its two halves.
use super::constants::IV;
use super::reference::{
    block_bytes, block_count, block_flags, block_of, chunk_count, chunk_of, chunk_state,
    chunk_value, compress_cv, compress_words, finalized, hash_words, high_word, initial_state,
    le_word, left_size, lemma_left_size, low_word, padded_byte, parent_flags, parent_value, state_at,
    tree_value,
};
use vstd::arithmetic::power2::{
    lemma2_to64, lemma_pow2_pos, lemma_pow2_strictly_increases, lemma_pow2_unfold,
    pow2,
};
use vstd::prelude::*;

verus! {

/// The two counter words encode the counter, whatever its size.
pub proof fn lemma_counter_words(counter: u64)
    ensures
        low_word(counter) + 0x1_0000_0000 * high_word(counter) == counter,
{
    lemma2_to64();
    vstd::bits::lemma_u64_low_bits_mask_is_mod(counter, 32);
    vstd::bits::lemma_u64_shr_is_div(counter, 32);
    vstd::bits::lemma_low_bits_mask_values();
    assert(vstd::bits::low_bits_mask(32) == 0xffff_ffff);
    let c = counter as int;
    assert(c == 0x1_0000_0000 * (c / 0x1_0000_0000) + c % 0x1_0000_0000);
    assert(counter & 0xffff_ffff == c % 0x1_0000_0000);
    assert(counter >> 32u64 == c / 0x1_0000_0000);
}

/// Whether a state is where a compression starts: the chaining value, the first half of the initial
/// value, the counter with its low word first, the number of bytes and the flags.
pub open spec fn starts_compression(
    start: Seq<u32>,
    cv: Seq<u32>,
    counter: u64,
    block_len: int,
    flags: int,
) -> bool {
    &&& start.len() == 16
    &&& forall|i: int| 0 <= i < 8 ==> #[trigger] start[i] == cv[i]
    &&& forall|i: int| 8 <= i < 12 ==> #[trigger] start[i] == IV[i - 8]
    &&& start[12] + 0x1_0000_0000 * start[13] == counter
    &&& start[14] == block_len
    &&& start[15] == flags
}

/// A compression takes its counter, its number of bytes and its flags in full: it runs from the state
/// that encodes them.
pub proof fn lemma_compress_takes_counter(
    cv: Seq<u32>,
    block: Seq<u32>,
    counter: u64,
    block_len: u32,
    flags: u32,
    start: Seq<u32>,
)
    requires
        starts_compression(start, cv, counter, block_len as int, flags as int),
    ensures
        compress_cv(cv, block, counter, block_len, flags) == finalized(
            state_at(start, block, 7),
            cv,
        ).subrange(0, 8),
        compress_words(cv, block, start[12], start[13], block_len, flags) == finalized(
            state_at(start, block, 7),
            cv,
        ),
{
    lemma_counter_words(counter);
    assert(start[12] == low_word(counter) && start[13] == high_word(counter));
    let own = initial_state(cv, low_word(counter), high_word(counter), block_len, flags);
    assert forall|i: int| 0 <= i < 16 implies start[i] == own[i] by {
        if i < 8 {
            assert(start[i] == cv[i]);
        } else if i < 12 {
            assert(start[i] == IV[i - 8]);
        }
    }
    assert(start =~= own);
}

/// Compressions with different counters start from different states.
pub proof fn lemma_counters_start_apart(
    cv: Seq<u32>,
    a: u64,
    b: u64,
    block_len: u32,
    flags: u32,
)
    requires
        a != b,
    ensures
        initial_state(cv, low_word(a), high_word(a), block_len, flags) != initial_state(
            cv,
            low_word(b),
            high_word(b),
            block_len,
            flags,
        ),
{
    lemma_counter_words(a);
    lemma_counter_words(b);
    let s = initial_state(cv, low_word(a), high_word(a), block_len, flags);
    let t = initial_state(cv, low_word(b), high_word(b), block_len, flags);
    assert(s[12] == low_word(a) && s[13] == high_word(a));
    assert(t[12] == low_word(b) && t[13] == high_word(b));
}

/// A chunk takes in its blocks one after the other: block `k` is made of the bytes from `64 k` on,
/// four to a word with the least significant first and zero beyond the end, and is compressed with the
/// counter of the chunk, its number of bytes, a flag where it is the first block, and flags where it
/// is the last.
pub proof fn lemma_chunk_takes_block(
    bytes: Seq<u8>,
    counter: u64,
    is_root: bool,
    k: nat,
    words: Seq<u32>,
    start: Seq<u32>,
)
    requires
        k == 0 || 64 * k < bytes.len(),
        starts_compression(
            start,
            chunk_state(bytes, counter, is_root, k),
            counter,
            if 64 * k + 64 <= bytes.len() {
                64
            } else {
                bytes.len() - 64 * k
            },
            (if k == 0 {
                1int
            } else {
                0
            }) + (if 64 * k + 64 >= bytes.len() {
                if is_root {
                    10int
                } else {
                    2
                }
            } else {
                0
            }),
        ),
        words.len() == 16,
        forall|i: int|
            0 <= i < 16 ==> #[trigger] words[i] == padded_byte(bytes, 64 * k + 4 * i) + 0x100
                * padded_byte(bytes, 64 * k + 4 * i + 1) + 0x1_0000 * padded_byte(
                bytes,
                64 * k + 4 * i + 2,
            ) + 0x100_0000 * padded_byte(bytes, 64 * k + 4 * i + 3),
    ensures
        chunk_state(bytes, counter, is_root, 0) == IV@,
        chunk_state(bytes, counter, is_root, k + 1) == finalized(
            state_at(start, words, 7),
            chunk_state(bytes, counter, is_root, k),
        ).subrange(0, 8),
        64 * k + 64 >= bytes.len() ==> chunk_value(bytes, counter, is_root) == chunk_state(
            bytes,
            counter,
            is_root,
            k + 1,
        ),
{
    let len = bytes.len() as int;
    assert forall|i: int| 0 <= i < 16 implies words[i] == block_of(bytes, k as int)[i] by {
        lemma_le_word_value(
            padded_byte(bytes, 64 * k + 4 * i),
            padded_byte(bytes, 64 * k + 4 * i + 1),
            padded_byte(bytes, 64 * k + 4 * i + 2),
            padded_byte(bytes, 64 * k + 4 * i + 3),
        );
    }
    assert(words =~= block_of(bytes, k as int));
    lemma_compress_takes_counter(
        chunk_state(bytes, counter, is_root, k),
        words,
        counter,
        block_bytes(len, k as int) as u32,
        block_flags(k as int, block_count(len), is_root),
        start,
    );
}

/// Four bytes make a word with the least significant first.
proof fn lemma_le_word_value(b0: u8, b1: u8, b2: u8, b3: u8)
    ensures
        le_word(b0, b1, b2, b3) == b0 + 0x100 * b1 + 0x1_0000 * b2 + 0x100_0000 * b3,
{
    assert((b0 as u32) | ((b1 as u32) << 8u32) | ((b2 as u32) << 16u32) | ((b3 as u32) << 24u32)
        == (b0 as u32) + 0x100 * (b1 as u32) + 0x1_0000 * (b2 as u32) + 0x100_0000 * (b3 as u32))
        by (bit_vector);
}

/// A parent takes in the chaining values of its two children as one block of 64 bytes, from the
/// initial value, with no counter and with its own flag; a root has the root flag too.
pub proof fn lemma_parent_takes_children(
    left: Seq<u32>,
    right: Seq<u32>,
    is_root: bool,
    block: Seq<u32>,
    start: Seq<u32>,
)
    requires
        left.len() == 8,
        right.len() == 8,
        block.len() == 16,
        forall|i: int| 0 <= i < 8 ==> #[trigger] block[i] == left[i],
        forall|i: int| 8 <= i < 16 ==> #[trigger] block[i] == right[i - 8],
        starts_compression(
            start,
            IV@,
            0,
            64,
            if is_root {
                12
            } else {
                4
            },
        ),
    ensures
        parent_value(left, right, is_root) == finalized(state_at(start, block, 7), IV@).subrange(
            0,
            8,
        ),
{
    assert(block =~= left + right);
    lemma_compress_takes_counter(IV@, block, 0, 64, parent_flags(is_root), start);
}

proof fn lemma_xor_cancels(a: u32, b: u32)
    by (bit_vector)
    ensures
        (a ^ b) ^ b == a,
{
}

/// The last step of a compression loses nothing: the first half of its output with the second half of
/// the state gives back the first half of the state, and the second half of its output with the
/// chaining value gives back the second half of the state.
pub proof fn lemma_output_keeps_state(state: Seq<u32>, cv: Seq<u32>, i: int)
    requires
        0 <= i < 8,
    ensures
        finalized(state, cv).len() == 16,
        finalized(state, cv)[i] ^ state[8 + i] == state[i],
        finalized(state, cv)[8 + i] ^ cv[i] == state[8 + i],
{
    lemma_xor_cancels(state[i], state[8 + i]);
    lemma_xor_cancels(state[8 + i], cv[i]);
}

/// The chaining value of a run of bytes whose first chunk has the given number.
pub open spec fn subtree_value(bytes: Seq<u8>, first: int, is_root: bool) -> Seq<u32> {
    let n = chunk_count(bytes.len() as int);
    if n == 1 {
        chunk_value(bytes, first as u64, is_root)
    } else {
        tree_value(
            Seq::new(
                n as nat,
                |k: int| chunk_value(chunk_of(bytes, k), (first + k) as u64, false),
            ),
            is_root,
        )
    }
}

/// The digest words are those of the whole message as a root, with its chunks numbered from zero.
pub proof fn lemma_hash_is_subtree(message: Seq<u8>)
    ensures
        hash_words(message) == subtree_value(message, 0, true),
{
    let n = chunk_count(message.len() as int);
    assert(Seq::new(n as nat, |k: int| chunk_value(chunk_of(message, k), k as u64, false)) =~=
        Seq::new(n as nat, |k: int| chunk_value(chunk_of(message, k), (0 + k) as u64, false)));
}

proof fn lemma_pow2_between(n: nat, a: nat, b: nat)
    requires
        pow2(a) < n <= 2 * pow2(a),
        pow2(b) < n <= 2 * pow2(b),
    ensures
        a == b,
{
    if a < b {
        lemma_pow2_unfold(a + 1);
        if a + 1 < b {
            lemma_pow2_strictly_increases(a + 1, b);
        }
    } else if b < a {
        lemma_pow2_unfold(b + 1);
        if b + 1 < a {
            lemma_pow2_strictly_increases(b + 1, a);
        }
    }
}

proof fn lemma_part(bytes: Seq<u8>, first: int, a: int, b: int, cvs: Seq<Seq<u32>>)
    requires
        0 <= a < b <= chunk_count(bytes.len() as int),
        bytes.len() > 0,
        cvs == Seq::new(
            chunk_count(bytes.len() as int) as nat,
            |k: int| chunk_value(chunk_of(bytes, k), (first + k) as u64, false),
        ),
    ensures
        ({
            let end = if b == chunk_count(bytes.len() as int) {
                bytes.len() as int
            } else {
                1024 * b
            };
            tree_value(cvs.subrange(a, b), false) == subtree_value(
                bytes.subrange(1024 * a, end),
                first + a,
                false,
            )
        }),
{
    let n = chunk_count(bytes.len() as int);
    let end = if b == n {
        bytes.len() as int
    } else {
        1024 * b
    };
    let part = bytes.subrange(1024 * a, end);
    assert(chunk_count(part.len() as int) == b - a);
    assert forall|k: int| 0 <= k < b - a implies #[trigger] chunk_of(part, k) == chunk_of(
        bytes,
        a + k,
    ) by {
        assert(chunk_of(part, k) =~= chunk_of(bytes, a + k));
    }
    let own = Seq::new(
        (b - a) as nat,
        |k: int| chunk_value(chunk_of(part, k), (first + a + k) as u64, false),
    );
    assert(cvs.subrange(a, b) =~= own) by {
        assert forall|k: int| 0 <= k < b - a implies cvs.subrange(a, b)[k] == own[k] by {
            assert(cvs.subrange(a, b)[k] == cvs[a + k]);
            assert(chunk_of(part, k) == chunk_of(bytes, a + k));
            assert(first + a + k == first + (a + k));
        }
    }
    if b - a == 1 {
        assert(chunk_of(part, 0) =~= part);
        assert(own[0] == chunk_value(part, (first + a) as u64, false));
    }
}

/// How the value of a run of bytes is made: a run of at most 1024 bytes is one chunk with its own
/// number; a longer one is the parent of its first `2^k` chunks and of the rest, where `2^k` is the
/// largest power of two of whole chunks that leaves a rest, and the rest is numbered on from there.
pub proof fn lemma_subtree_splits(bytes: Seq<u8>, first: int, is_root: bool, k: nat)
    requires
        bytes.len() <= 1024 || 1024 * pow2(k) < bytes.len() <= 2048 * pow2(k),
    ensures
        bytes.len() <= 1024 ==> subtree_value(bytes, first, is_root) == chunk_value(
            bytes,
            first as u64,
            is_root,
        ),
        bytes.len() > 1024 ==> subtree_value(bytes, first, is_root) == parent_value(
            subtree_value(bytes.take(1024 * pow2(k) as int), first, false),
            subtree_value(bytes.skip(1024 * pow2(k) as int), first + pow2(k), false),
            is_root,
        ),
{
    lemma_pow2_pos(k);
    if bytes.len() > 1024 {
        let n = chunk_count(bytes.len() as int) as nat;
        let cvs = Seq::new(
            n,
            |k: int| chunk_value(chunk_of(bytes, k), (first + k) as u64, false),
        );
        lemma_left_size(n);
        let j = choose|j: nat| left_size(n) == pow2(j);
        assert(pow2(k) < n <= 2 * pow2(k));
        lemma_pow2_between(n, j, k);
        let p = pow2(k) as int;
        lemma_part(bytes, first, 0, p, cvs);
        lemma_part(bytes, first, p, n as int, cvs);
        assert(bytes.subrange(0, 1024 * p) =~= bytes.take(1024 * p));
        assert(bytes.subrange(1024 * p, bytes.len() as int) =~= bytes.skip(1024 * p));
    }
}

} // verus!
