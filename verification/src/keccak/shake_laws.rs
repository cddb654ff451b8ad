//! Laws of SHAKE256: what the padded message is, and how its blocks are taken in.
use super::shake::{absorbed, added_block, num_blocks, padded_word, shake256_of};
use crate::keccak_prove::trace::keccak_f;
use vstd::prelude::*;

verus! {

/// The padded message: the message itself, then the padding, up to the first whole number of blocks
/// that leaves room for it. The padding adds `1f` to the first byte behind the message and `80` to the
/// last byte of the last block.
pub open spec fn is_padded(message: Seq<u64>, padded: Seq<u64>) -> bool {
    let n = message.len() as int;
    let last = padded.len() - 1;
    &&& padded.len() as int % 17 == 0
    &&& n < padded.len() <= n + 17
    &&& forall|k: int| 0 <= k < n ==> #[trigger] padded[k] == message[k]
    &&& forall|k: int|
        n <= k < padded.len() ==> #[trigger] padded[k] == (if k == n {
            0x1fint
        } else {
            0
        }) + (if k == last {
            0x8000_0000_0000_0000int
        } else {
            0
        })
}

/// Whether a state is another with a block of the padded message added to its first 17 lanes.
pub open spec fn has_added(
    mixed: Seq<u64>,
    state: Seq<u64>,
    padded: Seq<u64>,
    start: int,
) -> bool {
    &&& mixed.len() == 25
    &&& forall|i: int| 0 <= i < 17 ==> #[trigger] mixed[i] == state[i] ^ padded[start + i]
    &&& forall|i: int| 17 <= i < 25 ==> #[trigger] mixed[i] == state[i]
}

proof fn lemma_padded(message: Seq<u64>, padded: Seq<u64>)
    requires
        is_padded(message, padded),
    ensures
        padded.len() == 17 * num_blocks(message.len() as int),
        forall|k: int| 0 <= k < padded.len() ==> #[trigger] padded[k] == padded_word(message, k),
{
    let n = message.len() as int;
    let m = padded.len() as int;
    assert(m / 17 == n / 17 + 1);
    assert forall|k: int| 0 <= k < m implies #[trigger] padded[k] == padded_word(message, k) by {
        if k < n {
            assert(padded[k] == message[k]);
        }
    }
}

/// The sponge takes in the padded message block by block, whatever its length: it starts from zero,
/// adds words `17 k` to `17 k + 16` to the first 17 lanes before permutation `k`, and leaves the other
/// lanes alone.
pub proof fn lemma_sponge_takes_block(
    message: Seq<u64>,
    padded: Seq<u64>,
    k: nat,
    mixed: Seq<u64>,
)
    requires
        is_padded(message, padded),
        17 * k < padded.len(),
        has_added(mixed, absorbed(message, k), padded, 17 * k as int),
    ensures
        absorbed(message, 0) == Seq::new(25, |i: int| 0u64),
        absorbed(message, k + 1) == keccak_f(mixed),
{
    lemma_padded(message, padded);
    let state = absorbed(message, k);
    assert forall|i: int| 0 <= i < 25 implies mixed[i] == added_block(
        state,
        message,
        k as int,
    )[i] by {
        if i < 17 {
            assert(padded[17 * k + i] == padded_word(message, 17 * k + i));
        }
    }
    assert(mixed =~= added_block(state, message, k as int));
}

/// The output is the start of the state once the whole padded message is taken in.
pub proof fn lemma_output_follows_last_block(
    message: Seq<u64>,
    padded: Seq<u64>,
    blocks: nat,
    output_words: int,
)
    requires
        is_padded(message, padded),
        17 * blocks == padded.len(),
    ensures
        shake256_of(message, output_words) == absorbed(message, blocks).take(output_words),
{
    reveal(shake256_of);
    lemma_padded(message, padded);
}

/// Exclusive or with a word loses nothing, and with zero changes nothing.
pub(crate) proof fn lemma_xor_apart(s: u64, x: u64, y: u64)
    by (bit_vector)
    ensures
        s ^ x == s ^ y ==> x == y,
        s ^ 0 == s,
        0u64 ^ s == s,
{
}

/// Every word of the message counts: messages of one length that agree in the blocks before block
/// `k` and differ in a word of it put different states into that permutation.
pub proof fn lemma_sponge_tells_blocks_apart(a: Seq<u64>, b: Seq<u64>, k: nat, i: int)
    requires
        a.len() == b.len(),
        0 <= i < 17,
        17 * k + i < a.len(),
        a.take(17 * k as int) == b.take(17 * k as int),
        a[17 * k + i] != b[17 * k + i],
    ensures
        absorbed(a, k) == absorbed(b, k),
        added_block(absorbed(a, k), a, k as int) != added_block(absorbed(b, k), b, k as int),
{
    lemma_same_prefix(a, b, k);
    let state = absorbed(a, k);
    lemma_xor_apart(state[i], a[17 * k + i], b[17 * k + i]);
    assert(added_block(state, a, k as int)[i] == state[i] ^ a[17 * k + i]);
    assert(added_block(state, b, k as int)[i] == state[i] ^ b[17 * k + i]);
}

proof fn lemma_same_prefix(a: Seq<u64>, b: Seq<u64>, k: nat)
    requires
        17 * k <= a.len(),
        17 * k <= b.len(),
        a.take(17 * k as int) == b.take(17 * k as int),
    ensures
        absorbed(a, k) == absorbed(b, k),
    decreases k,
{
    if k > 0 {
        let m = (k - 1) as nat;
        assert(a.take(17 * m as int) =~= a.take(17 * k as int).take(17 * m as int));
        assert(b.take(17 * m as int) =~= b.take(17 * k as int).take(17 * m as int));
        lemma_same_prefix(a, b, m);
        let state = absorbed(a, m);
        assert forall|i: int| 0 <= i < 25 implies added_block(state, a, m as int)[i]
            == added_block(state, b, m as int)[i] by {
            if i < 17 {
                assert(a[17 * m + i] == a.take(17 * k as int)[17 * m + i]);
                assert(b[17 * m + i] == b.take(17 * k as int)[17 * m + i]);
            }
        }
        assert(added_block(state, a, m as int) =~= added_block(state, b, m as int));
    }
}

} // verus!
