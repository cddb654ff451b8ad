//! SHAKE256 on messages of whole words.
use super::permutation::keccak_f1600;
use crate::circuit::{lemma_vals_kept, CircuitBuilder, Wire};
use crate::keccak_prove::trace::keccak_f;
use vstd::prelude::*;

verus! {

/// Words of one SHAKE256 block.
pub const RATE_WORDS: usize = 17;

/// Blocks that a message of `len` words fills with its padding.
pub open spec fn num_blocks(len: int) -> int {
    len / 17 + 1
}

/// Word `k` of the padded message: the message, the suffix `1111` with the first padding bit, and
/// the last padding bit at the end of the last block.
pub open spec fn padded_word(message: Seq<u64>, k: int) -> u64 {
    if k < message.len() {
        message[k]
    } else {
        padding_word(message.len() as int, k)
    }
}

/// Word `k` of the padding behind a message of `len` words.
pub open spec fn padding_word(len: int, k: int) -> u64 {
    let last = 17 * num_blocks(len) - 1;
    if k == len && k == last {
        0x8000_0000_0000_001f
    } else if k == len {
        0x1f
    } else if k == last {
        0x8000_0000_0000_0000
    } else {
        0
    }
}

/// The state with a block added to its first 17 lanes.
pub open spec fn added_block(state: Seq<u64>, message: Seq<u64>, block: int) -> Seq<u64> {
    Seq::new(
        25,
        |i: int|
            if i < 17 {
                state[i] ^ padded_word(message, 17 * block + i)
            } else {
                state[i]
            },
    )
}

/// The state after `n` blocks.
pub open spec fn absorbed(message: Seq<u64>, n: nat) -> Seq<u64>
    decreases n,
{
    if n == 0 {
        Seq::new(25, |i: int| 0u64)
    } else {
        keccak_f(added_block(absorbed(message, (n - 1) as nat), message, n - 1))
    }
}

/// The first `output_words` words of SHAKE256 of the message, at most one block of them.
#[verifier::opaque]
pub open spec fn shake256_of(message: Seq<u64>, output_words: int) -> Seq<u64> {
    absorbed(message, num_blocks(message.len() as int) as nat).take(output_words)
}

/// The padding word at position `k`.
fn padding_value(len: usize, k: usize) -> (r: u64)
    requires
        len <= k,
        k <= len + 17,
        len < 0x1000_0000,
    ensures
        r == padding_word(len as int, k as int),
{
    let last: usize = 17 * (len / 17 + 1) - 1;
    if k == len && k == last {
        0x8000_0000_0000_001f
    } else if k == len {
        0x1f
    } else if k == last {
        0x8000_0000_0000_0000
    } else {
        0
    }
}

/// Adds block `block` of the padded message to the state.
fn absorb_block(
    builder: &mut CircuitBuilder,
    state: &Vec<Wire>,
    message: &[Wire],
    block: usize,
) -> (r: Vec<Wire>)
    requires
        old(builder).wf(),
        old(builder).has_all(state@),
        old(builder).has_all(message@),
        state@.len() == 25,
        message@.len() < 0x1000_0000,
        block <= message@.len() / 17,
    ensures
        final(builder).computes_on(*old(builder)),
        final(builder).has_all(r@),
        r@.len() == 25,
        forall|w: Seq<u64>|
            #[trigger] final(builder).vals(w, r@) == added_block(
                old(builder).vals(w, state@),
                old(builder).vals(w, message@),
                block as int,
            ),
{
    let ghost b0 = *builder;
    let n: usize = message.len();
    let mut r: Vec<Wire> = Vec::new();
    for i in 0..25
        invariant
            b0.wf(),
            b0.has_all(state@),
            b0.has_all(message@),
            state@.len() == 25,
            n == message@.len(),
            n < 0x1000_0000,
            block <= n / 17,
            builder.computes_on(b0),
            builder.has_all(r@),
            r@.len() == i,
            forall|w: Seq<u64>, k: int|
                0 <= k < i ==> #[trigger] builder.val(w, r@[k]) == added_block(
                    b0.vals(w, state@),
                    b0.vals(w, message@),
                    block as int,
                )[k],
    {
        let ghost bi = *builder;
        let ghost ri = r@;
        assert(b0.has(state@[i as int]));
        let lane = if i < RATE_WORDS {
            let k: usize = 17 * block + i;
            let word = if k < n {
                assert(b0.has(message@[k as int]));
                message[k]
            } else {
                builder.add_constant_64(padding_value(n, k))
            };
            builder.bxor(state[i], word)
        } else {
            state[i]
        };
        r.push(lane);
        proof {
            assert forall|w: Seq<u64>, k: int| 0 <= k < i + 1 implies #[trigger] builder.val(
                w,
                r@[k],
            ) == added_block(b0.vals(w, state@), b0.vals(w, message@), block as int)[k] by {
                if k < i {
                    assert(r@[k] == ri[k]);
                    assert(bi.has(ri[k]));
                    assert(bi.val(w, ri[k]) == added_block(
                        b0.vals(w, state@),
                        b0.vals(w, message@),
                        block as int,
                    )[k]);
                }
            }
        }
    }
    proof {
        assert forall|w: Seq<u64>| #[trigger] builder.vals(w, r@) == added_block(
            b0.vals(w, state@),
            b0.vals(w, message@),
            block as int,
        ) by {
            assert(builder.vals(w, r@) =~= added_block(
                b0.vals(w, state@),
                b0.vals(w, message@),
                block as int,
            ));
        }
    }
    r
}

/// The first `output_words` words of SHAKE256 of a message of whole words.
pub fn shake256(builder: &mut CircuitBuilder, message: &[Wire], output_words: usize) -> (r: Vec<
    Wire,
>)
    requires
        old(builder).wf(),
        old(builder).has_all(message@),
        message@.len() < 0x1000_0000,
        output_words <= 17,
    ensures
        final(builder).computes_on(*old(builder)),
        final(builder).has_all(r@),
        r@.len() == output_words,
        forall|w: Seq<u64>|
            #[trigger] final(builder).vals(w, r@) == shake256_of(
                old(builder).vals(w, message@),
                output_words as int,
            ),
{
    let ghost b0 = *builder;
    let zero = builder.add_constant_64(0);
    let mut state: Vec<Wire> = Vec::new();
    for i in 0..25
        invariant
            state@.len() == i,
            forall|k: int| 0 <= k < i ==> #[trigger] state@[k] == zero,
    {
        state.push(zero);
    }
    let blocks: usize = message.len() / RATE_WORDS + 1;
    proof {
        assert forall|w: Seq<u64>| #[trigger] builder.vals(w, state@) == absorbed(
            b0.vals(w, message@),
            0,
        ) by {
            assert(builder.vals(w, state@) =~= absorbed(b0.vals(w, message@), 0));
        }
    }
    for block in 0..blocks
        invariant
            b0.wf(),
            b0.has_all(message@),
            message@.len() < 0x1000_0000,
            blocks == message@.len() / 17 + 1,
            builder.computes_on(b0),
            builder.has_all(state@),
            state@.len() == 25,
            forall|w: Seq<u64>|
                #[trigger] builder.vals(w, state@) == absorbed(
                    b0.vals(w, message@),
                    block as nat,
                ),
    {
        let ghost bi = *builder;
        let ghost si = state@;
        proof {
            lemma_vals_kept(bi, b0, message@);
        }
        let mixed = absorb_block(builder, &state, message, block);
        let ghost bm = *builder;
        state = keccak_f1600(builder, &mixed);
        proof {
            assert forall|w: Seq<u64>| #[trigger] builder.vals(w, state@) == absorbed(
                b0.vals(w, message@),
                (block + 1) as nat,
            ) by {
                assert(bi.vals(w, message@) == b0.vals(w, message@));
                assert(bi.vals(w, si) == absorbed(b0.vals(w, message@), block as nat));
                assert(bm.vals(w, mixed@) == added_block(
                    bi.vals(w, si),
                    bi.vals(w, message@),
                    block as int,
                ));
            }
        }
    }
    let mut r: Vec<Wire> = Vec::new();
    for i in 0..output_words
        invariant
            state@.len() == 25,
            output_words <= 17,
            r@ =~= state@.take(i as int),
    {
        r.push(state[i]);
    }
    proof {
        assert(builder.has_all(r@)) by {
            assert forall|i: int| 0 <= i < r@.len() implies builder.has(#[trigger] r@[i]) by {
                assert(builder.has(state@[i]));
            }
        }
        assert forall|w: Seq<u64>| #[trigger] builder.vals(w, r@) == shake256_of(
            b0.vals(w, message@),
            output_words as int,
        ) by {
            reveal(shake256_of);
            let v = builder.vals(w, state@);
            assert(v == absorbed(b0.vals(w, message@), blocks as nat));
            assert(builder.vals(w, r@) =~= v.take(output_words as int));
        }
    }
    r
}

} // verus!
