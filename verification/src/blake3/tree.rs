//! The chunk, parent and tree circuits of BLAKE3, and the fixed-length hash circuit.
use super::compression::blake3_compress;
use super::constants::{BLOCK_LEN, IV, PARENT, ROOT};
use super::reference::{
    block_bytes, block_count, block_of, chunk_state, chunk_value, flags_of_block, high_word,
    le_word, left_size_of, low_word, num_blocks_of, padded_byte, parent_value, tree_value,
};
use crate::blake2s::mixing::{all_32, lemma_words32_kept, words32};
use crate::circuit::word::byte_of;
use crate::circuit::{CircuitBuilder, Wire};
use vstd::prelude::*;

verus! {

/// The first `len` bytes of a list of words, the least significant byte of each word first;
/// words beyond the list count as zero.
pub open spec fn bytes_of_words(q: Seq<u64>, len: nat) -> Seq<u8> {
    Seq::new(
        len,
        |j: int|
            if j / 8 < q.len() {
                byte_of(q[j / 8], j % 8) as u8
            } else {
                0u8
            },
    )
}

proof fn lemma_dword_bits(q: u64)
    by (bit_vector)
    ensures
        (q & 0xffff_ffff) as u32 == le_word(
            (q & 0xff) as u8,
            ((q >> 8u64) & 0xff) as u8,
            ((q >> 16u64) & 0xff) as u8,
            ((q >> 24u64) & 0xff) as u8,
        ),
        q & 0xffff_ffff <= 0xffff_ffff,
        (q >> 32u64) as u32 == le_word(
            ((q >> 32u64) & 0xff) as u8,
            ((q >> 40u64) & 0xff) as u8,
            ((q >> 48u64) & 0xff) as u8,
            ((q >> 56u64) & 0xff) as u8,
        ),
        q >> 32u64 <= 0xffff_ffff,
        q >> 0u64 == q,
{
}

proof fn lemma_dword_mask_bits(b0: u8, b1: u8, b2: u8, b3: u8)
    by (bit_vector)
    ensures
        (le_word(b0, b1, b2, b3) as u64) & (0xffff_ffff_ffff_ffffu64 >> 56u64) == le_word(
            b0,
            0,
            0,
            0,
        ) as u64,
        (le_word(b0, b1, b2, b3) as u64) & (0xffff_ffff_ffff_ffffu64 >> 48u64) == le_word(
            b0,
            b1,
            0,
            0,
        ) as u64,
        (le_word(b0, b1, b2, b3) as u64) & (0xffff_ffff_ffff_ffffu64 >> 40u64) == le_word(
            b0,
            b1,
            b2,
            0,
        ) as u64,
        le_word(0, 0, 0, 0) == 0,
        0u64 & 0xff == 0,
        forall|s: u64| #[trigger] (0u64 >> s) == 0,
{
}

/// The message word at position `word_idx` of a block, zero beyond the end of the message.
fn padded_dword(
    builder: &mut CircuitBuilder,
    message_qwords: &[Wire],
    zero: Wire,
    chunk_byte_len: usize,
    block_idx: usize,
    word_idx: usize,
) -> (r: Wire)
    requires
        old(builder).wf(),
        old(builder).has_all(message_qwords@),
        old(builder).has(zero),
        forall|w: Seq<u64>| #[trigger] old(builder).val(w, zero) == 0,
        word_idx < 16,
        chunk_byte_len + 64 <= usize::MAX,
        64 * block_idx <= chunk_byte_len,
    ensures
        final(builder).computes_on(*old(builder)),
        final(builder).has(r),
        forall|w: Seq<u64>|
            #[trigger] final(builder).val(w, r) == block_of(
                bytes_of_words(old(builder).vals(w, message_qwords@), chunk_byte_len as nat),
                block_idx as int,
            )[word_idx as int] as u64,
{
    let ghost b0 = *builder;
    let qword_idx: usize = block_idx * 8 + word_idx / 2;
    let message_qword: Wire = if qword_idx < message_qwords.len() {
        message_qwords[qword_idx]
    } else {
        zero
    };
    let message_dword: Wire = if word_idx % 2 == 0 {
        let low = builder.add_constant_64(0xffff_ffff);
        builder.band(message_qword, low)
    } else {
        builder.shr(message_qword, 32)
    };
    let first: usize = block_idx * BLOCK_LEN + word_idx * 4;
    let ghost bytes = |w: Seq<u64>|
        bytes_of_words(b0.vals(w, message_qwords@), chunk_byte_len as nat);
    let ghost full = |w: Seq<u64>|
        {
            let q = b0.val(w, message_qword);
            let s = 4 * (word_idx % 2) as int;
            le_word(
                byte_of(q, s) as u8,
                byte_of(q, s + 1) as u8,
                byte_of(q, s + 2) as u8,
                byte_of(q, s + 3) as u8,
            )
        };
    proof {
        assert forall|w: Seq<u64>| #[trigger] builder.val(w, message_dword) == full(w) by {
            let q = b0.val(w, message_qword);
            lemma_dword_bits(q);
            assert(b0.has(message_qword));
        }
        assert forall|w: Seq<u64>, t: int| 0 <= t < 4 && first + t < chunk_byte_len implies
            #[trigger] padded_byte(bytes(w), first + t) == byte_of(
            b0.val(w, message_qword),
            4 * (word_idx % 2) as int + t,
        ) as u8 by {
            let j = first + t;
            assert(j / 8 == qword_idx);
            assert(j % 8 == 4 * (word_idx % 2) + t);
            lemma_dword_mask_bits(0, 0, 0, 0);
            if qword_idx >= message_qwords@.len() {
                assert(b0.val(w, message_qword) == 0);
            }
        }
        assert forall|w: Seq<u64>|
            block_of(#[trigger] bytes(w), block_idx as int)[word_idx as int] == le_word(
                padded_byte(bytes(w), first + 0),
                padded_byte(bytes(w), first + 1),
                padded_byte(bytes(w), first + 2),
                padded_byte(bytes(w), first + 3),
            ) by {}
    }
    if first + 4 > chunk_byte_len {
        if first < chunk_byte_len {
            let nonzero_bytes: usize = chunk_byte_len - first;
            let keep: u64 = 0xffff_ffff_ffff_ffff >> ((64 - nonzero_bytes * 8) as u64);
            let mask = builder.add_constant_64(keep);
            let r = builder.band(message_dword, mask);
            proof {
                assert forall|w: Seq<u64>| #[trigger] builder.val(w, r) == block_of(
                    bytes(w),
                    block_idx as int,
                )[word_idx as int] as u64 by {
                    let q = b0.val(w, message_qword);
                    let s = 4 * (word_idx % 2) as int;
                    lemma_dword_mask_bits(
                        byte_of(q, s) as u8,
                        byte_of(q, s + 1) as u8,
                        byte_of(q, s + 2) as u8,
                        byte_of(q, s + 3) as u8,
                    );
                    assert(builder.val(w, r) == full(w) as u64 & keep);
                    assert(padded_byte(bytes(w), first + 0) == byte_of(q, s) as u8);
                    if nonzero_bytes >= 2 {
                        assert(padded_byte(bytes(w), first + 1) == byte_of(q, s + 1) as u8);
                    }
                    if nonzero_bytes >= 3 {
                        assert(padded_byte(bytes(w), first + 2) == byte_of(q, s + 2) as u8);
                    }
                }
            }
            r
        } else {
            proof {
                lemma_dword_mask_bits(0, 0, 0, 0);
                assert forall|w: Seq<u64>| #[trigger] builder.val(w, zero) == block_of(
                    bytes(w),
                    block_idx as int,
                )[word_idx as int] as u64 by {}
            }
            zero
        }
    } else {
        proof {
            assert forall|w: Seq<u64>| #[trigger] builder.val(w, message_dword) == block_of(
                bytes(w),
                block_idx as int,
            )[word_idx as int] as u64 by {
                assert(padded_byte(bytes(w), first + 0) == byte_of(
                    b0.val(w, message_qword),
                    4 * (word_idx % 2) as int + 0,
                ) as u8);
                assert(padded_byte(bytes(w), first + 1) == byte_of(
                    b0.val(w, message_qword),
                    4 * (word_idx % 2) as int + 1,
                ) as u8);
                assert(padded_byte(bytes(w), first + 2) == byte_of(
                    b0.val(w, message_qword),
                    4 * (word_idx % 2) as int + 2,
                ) as u8);
                assert(padded_byte(bytes(w), first + 3) == byte_of(
                    b0.val(w, message_qword),
                    4 * (word_idx % 2) as int + 3,
                ) as u8);
            }
        }
        message_dword
    }
}

/// Adds the initialization vector as constants.
fn iv_wires(builder: &mut CircuitBuilder) -> (r: [Wire; 8])
    requires
        old(builder).wf(),
    ensures
        final(builder).computes_on(*old(builder)),
        final(builder).has_all(r@),
        forall|w: Seq<u64>|
            #![trigger words32(*final(builder), w, r@)]
            #![trigger all_32(*final(builder), w, r@)]
            all_32(*final(builder), w, r@) && words32(*final(builder), w, r@) == IV@,
{
    let i0 = builder.add_constant_64(IV[0] as u64);
    let i1 = builder.add_constant_64(IV[1] as u64);
    let i2 = builder.add_constant_64(IV[2] as u64);
    let i3 = builder.add_constant_64(IV[3] as u64);
    let i4 = builder.add_constant_64(IV[4] as u64);
    let i5 = builder.add_constant_64(IV[5] as u64);
    let i6 = builder.add_constant_64(IV[6] as u64);
    let i7 = builder.add_constant_64(IV[7] as u64);
    let r: [Wire; 8] = [i0, i1, i2, i3, i4, i5, i6, i7];
    proof {
        assert forall|w: Seq<u64>|
            #![trigger words32(*builder, w, r@)]
            #![trigger all_32(*builder, w, r@)]
            all_32(*builder, w, r@) && words32(*builder, w, r@) == IV@ by {
            assert(words32(*builder, w, r@) =~= IV@);
        }
    }
    r
}

/// The first half of a compression's output.
fn first_8_wires(v: &[Wire; 16]) -> (r: [Wire; 8])
    ensures
        r@ == v@.subrange(0, 8),
{
    let r: [Wire; 8] = [v[0], v[1], v[2], v[3], v[4], v[5], v[6], v[7]];
    assert(r@ =~= v@.subrange(0, 8));
    r
}

/// The chunk circuit: compresses the blocks of one chunk with its counter, and returns the
/// chaining value.
#[verifier::spinoff_prover]
#[verifier::rlimit(60)]
pub fn blake3_chunk(
    builder: &mut CircuitBuilder,
    message_qwords: &[Wire],
    chunk_byte_len: usize,
    counter: u64,
    is_root: bool,
) -> (r: [Wire; 8])
    requires
        old(builder).wf(),
        old(builder).has_all(message_qwords@),
        chunk_byte_len + 64 <= usize::MAX,
    ensures
        final(builder).computes_on(*old(builder)),
        final(builder).has_all(r@),
        forall|w: Seq<u64>|
            #![trigger words32(*final(builder), w, r@)]
            #![trigger all_32(*final(builder), w, r@)]
            all_32(*final(builder), w, r@) && words32(*final(builder), w, r@) == chunk_value(
                bytes_of_words(old(builder).vals(w, message_qwords@), chunk_byte_len as nat),
                counter,
                is_root,
            ),
{
    let ghost b0 = *builder;
    let ghost qs = message_qwords@;
    let ghost bytes = |w: Seq<u64>| bytes_of_words(b0.vals(w, qs), chunk_byte_len as nat);
    let num_blocks: usize = num_blocks_of(chunk_byte_len);
    let zero = builder.add_constant_64(0);
    let mut cv = iv_wires(builder);
    for block_idx in 0..num_blocks
        invariant
            b0.wf(),
            qs == message_qwords@,
            b0.has_all(qs),
            builder.computes_on(b0),
            builder.has(zero),
            forall|w: Seq<u64>| #[trigger] builder.val(w, zero) == 0,
            builder.has_all(cv@),
            chunk_byte_len + 64 <= usize::MAX,
            num_blocks == block_count(chunk_byte_len as int),
            chunk_byte_len > 0 ==> 64 * (num_blocks - 1) < chunk_byte_len <= 64 * num_blocks,
            bytes == (|w: Seq<u64>| bytes_of_words(b0.vals(w, qs), chunk_byte_len as nat)),
            forall|w: Seq<u64>|
                #![trigger words32(*builder, w, cv@)]
                #![trigger all_32(*builder, w, cv@)]
                all_32(*builder, w, cv@) && words32(*builder, w, cv@) == chunk_state(
                    bytes(w),
                    counter,
                    is_root,
                    block_idx as nat,
                ),
    {
        let ghost bi = *builder;
        let ghost cvi = cv@;
        let mut m: [Wire; 16] = [zero; 16];
        for word_idx in 0..16
            invariant
                b0.wf(),
                qs == message_qwords@,
                b0.has_all(qs),
                bi.computes_on(b0),
                builder.computes_on(bi),
                bi.has(zero),
                forall|w: Seq<u64>| #[trigger] bi.val(w, zero) == 0,
                chunk_byte_len + 64 <= usize::MAX,
                64 * block_idx <= chunk_byte_len,
                builder.has_all(m@),
                bytes == (|w: Seq<u64>| bytes_of_words(b0.vals(w, qs), chunk_byte_len as nat)),
                forall|w: Seq<u64>, k: int|
                    0 <= k < word_idx ==> #[trigger] builder.val(w, m@[k]) == block_of(
                        bytes(w),
                        block_idx as int,
                    )[k] as u64,
        {
            let ghost bj = *builder;
            let ghost mj = m@;
            let dword = padded_dword(
                builder,
                message_qwords,
                zero,
                chunk_byte_len,
                block_idx,
                word_idx,
            );
            m[word_idx] = dword;
            proof {
                assert forall|w: Seq<u64>| bytes_of_words(
                    #[trigger] bj.vals(w, qs),
                    chunk_byte_len as nat,
                ) == bytes(w) by {
                    assert(bj.vals(w, qs) =~= b0.vals(w, qs));
                }
                assert forall|w: Seq<u64>, k: int| 0 <= k < word_idx + 1 implies
                    #[trigger] builder.val(w, m@[k]) == block_of(bytes(w), block_idx as int)[k]
                    as u64 by {
                    if k < word_idx {
                        assert(m@[k] == mj[k]);
                        assert(bj.has(mj[k]));
                        assert(bj.val(w, mj[k]) == block_of(bytes(w), block_idx as int)[k] as u64);
                    }
                }
            }
        }
        let is_last: bool = block_idx == num_blocks - 1;
        let flag_bits: u32 = flags_of_block(block_idx, num_blocks, is_root);
        let bytes_in_block: usize = if is_last {
            let rem: usize = chunk_byte_len % BLOCK_LEN;
            if rem == 0 && chunk_byte_len > 0 {
                BLOCK_LEN
            } else if chunk_byte_len == 0 {
                0
            } else {
                rem
            }
        } else {
            BLOCK_LEN
        };
        let ghost bm = *builder;
        let counter_lo = builder.add_constant_64(counter & 0xffff_ffff);
        let counter_hi = builder.add_constant_64(counter >> 32u64);
        let block_len_wire = builder.add_constant_64(bytes_in_block as u64);
        let flags_wire = builder.add_constant_64(flag_bits as u64);
        let ghost bc = *builder;
        let output = blake3_compress(
            builder,
            &cv,
            &m,
            counter_lo,
            counter_hi,
            block_len_wire,
            flags_wire,
        );
        cv = first_8_wires(&output);
        proof {
            let len = chunk_byte_len as int;
            assert(bytes_in_block == block_bytes(len, block_idx as int));
            lemma_dword_bits(counter);
            assert forall|w: Seq<u64>|
                #![trigger words32(*builder, w, cv@)]
                #![trigger all_32(*builder, w, cv@)]
                all_32(*builder, w, cv@) && words32(*builder, w, cv@) == chunk_state(
                    bytes(w),
                    counter,
                    is_root,
                    (block_idx + 1) as nat,
                ) by {
                assert(all_32(bi, w, cvi));
                lemma_words32_kept(bi, bc, w, cvi);
                lemma_words32_kept(bm, bc, w, m@);
                assert forall|k: int| 0 <= k < 16 implies bm.val(w, #[trigger] m@[k])
                    <= 0xffff_ffff by {}
                assert(words32(bm, w, m@) =~= block_of(bytes(w), block_idx as int));
                let tail = seq![counter_lo, counter_hi, block_len_wire, flags_wire];
                assert(all_32(bc, w, tail));
                assert(all_32(*builder, w, output@));
                assert forall|k: int| 0 <= k < 8 implies builder.val(w, #[trigger] cv@[k])
                    <= 0xffff_ffff by {
                    assert(cv@[k] == output@[k]);
                }
                assert(words32(*builder, w, cv@) =~= words32(*builder, w, output@).subrange(0, 8));
                assert(bytes(w).len() == len);
            }
            assert forall|k: int| 0 <= k < 8 implies builder.has(#[trigger] cv@[k]) by {
                assert(cv@[k] == output@[k]);
            }
        }
    }
    cv
}

/// The parent circuit: compresses two chaining values into one.
pub fn blake3_parent(
    builder: &mut CircuitBuilder,
    left_cv: &[Wire; 8],
    right_cv: &[Wire; 8],
    is_root: bool,
) -> (r: [Wire; 8])
    requires
        old(builder).wf(),
        old(builder).has_all(left_cv@),
        old(builder).has_all(right_cv@),
    ensures
        final(builder).computes_on(*old(builder)),
        final(builder).has_all(r@),
        forall|w: Seq<u64>|
            #![trigger words32(*final(builder), w, r@)]
            #![trigger all_32(*final(builder), w, r@)]
            all_32(*old(builder), w, left_cv@) && all_32(*old(builder), w, right_cv@) ==> all_32(
                *final(builder),
                w,
                r@,
            ) && words32(*final(builder), w, r@) == parent_value(
                words32(*old(builder), w, left_cv@),
                words32(*old(builder), w, right_cv@),
                is_root,
            ),
{
    let ghost b0 = *builder;
    let iv = iv_wires(builder);
    let ghost b1 = *builder;
    let zero = builder.add_constant_64(0);
    let mut block_words: [Wire; 16] = [zero; 16];
    for i in 0..8
        invariant
            forall|k: int| 0 <= k < i ==> block_words[k] == left_cv[k],
            forall|k: int| 0 <= k < i ==> #[trigger] block_words[k + 8] == right_cv[k],
    {
        block_words[i] = left_cv[i];
        block_words[i + 8] = right_cv[i];
    }
    let flags: u32 = if is_root {
        PARENT + ROOT
    } else {
        PARENT
    };
    let block_len_wire = builder.add_constant_64(BLOCK_LEN as u64);
    let flags_wire = builder.add_constant_64(flags as u64);
    let ghost bc = *builder;
    proof {
        assert forall|k: int| 0 <= k < 16 implies #[trigger] block_words@[k] == (left_cv@
            + right_cv@)[k] by {
            if k >= 8 {
                assert(block_words[(k - 8) + 8] == right_cv[k - 8]);
            }
        }
        assert(block_words@ =~= left_cv@ + right_cv@);
        assert(b0.has_all(block_words@));
    }
    let output = blake3_compress(
        builder,
        &iv,
        &block_words,
        zero,
        zero,
        block_len_wire,
        flags_wire,
    );
    let r = first_8_wires(&output);
    proof {
        super::laws::lemma_counter_words(0);
        assert forall|w: Seq<u64>|
            #![trigger words32(*builder, w, r@)]
            #![trigger all_32(*builder, w, r@)]
            all_32(b0, w, left_cv@) && all_32(b0, w, right_cv@) implies all_32(*builder, w, r@)
            && words32(*builder, w, r@) == parent_value(
            words32(b0, w, left_cv@),
            words32(b0, w, right_cv@),
            is_root,
        ) by {
            lemma_words32_kept(b1, bc, w, iv@);
            assert(all_32(b1, w, iv@));
            lemma_words32_kept(b0, bc, w, block_words@);
            assert(all_32(b0, w, block_words@)) by {
                assert forall|k: int| 0 <= k < 16 implies b0.val(w, #[trigger] block_words@[k])
                    <= 0xffff_ffff by {
                    if k < 8 {
                        assert(b0.val(w, left_cv@[k]) <= 0xffff_ffff);
                    } else {
                        assert(b0.val(w, right_cv@[k - 8]) <= 0xffff_ffff);
                    }
                }
            }
            assert(words32(b0, w, block_words@) =~= words32(b0, w, left_cv@) + words32(
                b0,
                w,
                right_cv@,
            ));
            let tail = seq![zero, zero, block_len_wire, flags_wire];
            assert(all_32(bc, w, tail));
            assert(all_32(*builder, w, output@));
            assert forall|k: int| 0 <= k < 8 implies builder.val(w, #[trigger] r@[k])
                <= 0xffff_ffff by {
                assert(r@[k] == output@[k]);
            }
            assert(words32(*builder, w, r@) =~= words32(*builder, w, output@).subrange(0, 8));
        }
        assert forall|k: int| 0 <= k < 8 implies builder.has(#[trigger] r@[k]) by {
            assert(r@[k] == output@[k]);
        }
    }
    r
}

/// The words on a list of chaining values.
pub open spec fn cv_values(b: CircuitBuilder, w: Seq<u64>, cvs: Seq<[Wire; 8]>) -> Seq<Seq<u32>> {
    Seq::new(cvs.len(), |i: int| words32(b, w, cvs[i]@))
}

/// Whether every chaining value of a list has its wires.
pub open spec fn has_cvs(b: CircuitBuilder, cvs: Seq<[Wire; 8]>) -> bool {
    forall|i: int| 0 <= i < cvs.len() ==> b.has_all(#[trigger] cvs[i]@)
}

/// Whether every chaining value of a list is made of 32-bit words.
pub open spec fn cvs_32(b: CircuitBuilder, w: Seq<u64>, cvs: Seq<[Wire; 8]>) -> bool {
    forall|i: int| 0 <= i < cvs.len() ==> all_32(b, w, #[trigger] cvs[i]@)
}

proof fn lemma_cvs_kept(pre: CircuitBuilder, post: CircuitBuilder, w: Seq<u64>, cvs: Seq<[Wire; 8]>)
    requires
        post.extends(pre),
        has_cvs(pre, cvs),
    ensures
        cv_values(post, w, cvs) == cv_values(pre, w, cvs),
        cvs_32(post, w, cvs) == cvs_32(pre, w, cvs),
        has_cvs(post, cvs),
{
    assert forall|i: int| 0 <= i < cvs.len() implies words32(post, w, #[trigger] cvs[i]@)
        == words32(pre, w, cvs[i]@) && all_32(post, w, cvs[i]@) == all_32(pre, w, cvs[i]@)
        && post.has_all(cvs[i]@) by {
        lemma_words32_kept(pre, post, w, cvs[i]@);
    }
    assert(cv_values(post, w, cvs) =~= cv_values(pre, w, cvs));
}

/// Merges chaining values in a binary tree whose left subtrees are the largest complete ones.
pub fn merge_cvs(builder: &mut CircuitBuilder, cvs: &[[Wire; 8]], is_root: bool) -> (r: [Wire; 8])
    requires
        old(builder).wf(),
        cvs@.len() > 0,
        has_cvs(*old(builder), cvs@),
    ensures
        final(builder).computes_on(*old(builder)),
        final(builder).has_all(r@),
        forall|w: Seq<u64>|
            #![trigger words32(*final(builder), w, r@)]
            #![trigger all_32(*final(builder), w, r@)]
            cvs_32(*old(builder), w, cvs@) ==> all_32(*final(builder), w, r@) && words32(
                *final(builder),
                w,
                r@,
            ) == tree_value(cv_values(*old(builder), w, cvs@), is_root),
    decreases cvs@.len(),
{
    if cvs.len() == 1 {
        proof {
            assert(builder.has_all(cvs@[0]@));
            assert forall|w: Seq<u64>| cvs_32(*builder, w, cvs@) implies all_32(
                *builder,
                w,
                #[trigger] cvs@[0]@,
            ) && words32(*builder, w, cvs@[0]@) == tree_value(
                cv_values(*builder, w, cvs@),
                is_root,
            ) by {}
        }
        return cvs[0];
    }
    let ghost b0 = *builder;
    let split: usize = left_size_of(cvs.len());
    let (lo, hi) = cvs.split_at(split);
    assert(has_cvs(b0, lo@)) by {
        assert forall|i: int| 0 <= i < lo@.len() implies b0.has_all(#[trigger] lo@[i]@) by {
            assert(b0.has_all(cvs@[i]@));
        }
    }
    let left = merge_cvs(builder, lo, false);
    let ghost b1 = *builder;
    assert(has_cvs(b0, hi@)) by {
        assert forall|i: int| 0 <= i < hi@.len() implies b0.has_all(#[trigger] hi@[i]@) by {
            assert(b0.has_all(cvs@[split + i]@));
        }
    }
    assert(has_cvs(b1, hi@)) by {
        lemma_cvs_kept(b0, b1, Seq::empty(), hi@);
    }
    let right = merge_cvs(builder, hi, false);
    let ghost b2 = *builder;
    assert(b2.has_all(left@)) by {
        lemma_words32_kept(b1, b2, Seq::empty(), left@);
    }
    let r = blake3_parent(builder, &left, &right, is_root);
    proof {
        assert forall|w: Seq<u64>|
            #![trigger words32(*builder, w, r@)]
            #![trigger all_32(*builder, w, r@)]
            cvs_32(b0, w, cvs@) implies all_32(*builder, w, r@) && words32(*builder, w, r@)
            == tree_value(cv_values(b0, w, cvs@), is_root) by {
            let all = cv_values(b0, w, cvs@);
            assert(cvs_32(b0, w, lo@)) by {
                assert forall|i: int| 0 <= i < lo@.len() implies all_32(b0, w, #[trigger] lo@[i]@) by {
                    assert(all_32(b0, w, cvs@[i]@));
                }
            }
            assert(cvs_32(b0, w, hi@)) by {
                assert forall|i: int| 0 <= i < hi@.len() implies all_32(b0, w, #[trigger] hi@[i]@) by {
                    assert(all_32(b0, w, cvs@[split + i]@));
                }
            }
            lemma_cvs_kept(b0, b1, w, hi@);
            assert(all_32(b1, w, left@));
            lemma_words32_kept(b1, b2, w, left@);
            assert(all_32(b2, w, right@));
            assert(cv_values(b0, w, lo@) =~= all.subrange(0, split as int));
            assert(cv_values(b0, w, hi@) =~= all.subrange(split as int, all.len() as int));
        }
    }
    r
}

} // verus!
