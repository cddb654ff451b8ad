//! The BLAKE3 circuit for messages of a fixed length.
use super::constants::CHUNK_LEN;
use super::reference::{
    chunk_count, chunk_of, chunk_value, hash_bytes, hash_words, le_word, num_chunks_of,
    padded_byte,
};
use super::tree::{blake3_chunk, bytes_of_words, cv_values, cvs_32, has_cvs, merge_cvs};
use crate::blake2s::mixing::{all_32, lemma_words32_kept, words32};
use crate::circuit::word::byte_of;
use crate::circuit::{CircuitBuilder, Wire, WitnessFiller};
use vstd::prelude::*;

verus! {

/// The number of 64-bit words that hold `len` bytes.
pub open spec fn qword_count(len: int) -> int {
    (len + 7) / 8
}

fn num_qwords_of(len: usize) -> (n: usize)
    ensures
        n == qword_count(len as int),
{
    len / 8 + if len % 8 == 0 {
        0
    } else {
        1
    }
}

/// Checks that a message of `length` bytes has a given digest.
pub struct Blake3 {
    /// Message size in bytes.
    pub length: usize,
    /// Wires of the message, eight bytes each, the least significant first.
    pub message: Vec<Wire>,
    /// Wires of the digest, one 32-bit word each.
    pub digest: [Wire; 8],
}

/// The words of a message: word `i` holds bytes `8i..8i+8`, the least significant first.
pub open spec fn message_qword(message: Seq<u8>, i: int) -> u64 {
    (le_word(
        padded_byte(message, 8 * i),
        padded_byte(message, 8 * i + 1),
        padded_byte(message, 8 * i + 2),
        padded_byte(message, 8 * i + 3),
    ) as u64) | ((le_word(
        padded_byte(message, 8 * i + 4),
        padded_byte(message, 8 * i + 5),
        padded_byte(message, 8 * i + 6),
        padded_byte(message, 8 * i + 7),
    ) as u64) << 32u64)
}

/// The words of a digest.
pub open spec fn digest_word(digest: Seq<u8>, i: int) -> u32 {
    le_word(digest[4 * i], digest[4 * i + 1], digest[4 * i + 2], digest[4 * i + 3])
}

impl Blake3 {
    /// The message has the words that its length needs, and every wire is another.
    pub open spec fn wf(self) -> bool {
        &&& self.message@.len() == qword_count(self.length as int)
        &&& forall|i: int, j: int|
            0 <= i < j < self.message@.len() ==> (#[trigger] self.message@[i]).index != (
            #[trigger] self.message@[j]).index
        &&& forall|i: int, j: int|
            0 <= i < j < 8 ==> (#[trigger] self.digest@[i]).index != (
            #[trigger] self.digest@[j]).index
        &&& forall|i: int, j: int|
            0 <= i < self.message@.len() && 0 <= j < 8 ==> (#[trigger] self.message@[i]).index != (
            #[trigger] self.digest@[j]).index
    }

    /// Whether every wire is among the first `n`.
    pub open spec fn within(self, n: int) -> bool {
        &&& forall|i: int|
            0 <= i < self.message@.len() ==> (#[trigger] self.message@[i]).index < n
        &&& forall|i: int| 0 <= i < 8 ==> (#[trigger] self.digest@[i]).index < n
    }

    /// The message that a witness carries.
    pub open spec fn message_of(self, w: Seq<u64>) -> Seq<u8> {
        bytes_of_words(
            Seq::new(self.message@.len(), |i: int| w[self.message@[i].index as int]),
            self.length as nat,
        )
    }

    /// Whether the digest words that a witness carries are those of the message that it carries.
    pub open spec fn digest_matches(self, w: Seq<u64>) -> bool {
        forall|i: int|
            #![trigger self.digest@[i]]
            0 <= i < 8 ==> w[self.digest@[i].index as int] == hash_words(self.message_of(w))[i]
    }

    /// Adds the wires of a message and a digest, and the constraints that tie them.
    pub fn new_witness(builder: &mut CircuitBuilder, length: usize) -> (r: Self)
        requires
            old(builder).wf(),
        ensures
            final(builder).extends(*old(builder)),
            r.length == length,
            r.wf(),
            r.within(final(builder).n() as int),
            final(builder).adds_inputs(*old(builder), r.message@),
            final(builder).adds_inputs(*old(builder), r.digest@),
            forall|w: Seq<u64>|
                #[trigger] final(builder).accepts(w) == (old(builder).accepts(w)
                    && r.digest_matches(w)),
    {
        let ghost b0 = *builder;
        let num_words: usize = num_qwords_of(length);
        let mut message: Vec<Wire> = Vec::new();
        for i in 0..num_words
            invariant
                b0.wf(),
                builder.computes_on(b0),
                builder.n() == b0.n() + i,
                message@.len() == i,
                forall|k: int| 0 <= k < i ==> (#[trigger] message@[k]).index == b0.n() + k,
                forall|w: Seq<u64>, k: int|
                    0 <= k < i ==> #[trigger] builder.val(w, message@[k])
                        == w[message@[k].index as int],
        {
            let ghost bi = *builder;
            let ghost mi = message@;
            let x = builder.add_witness();
            message.push(x);
            proof {
                assert forall|w: Seq<u64>, k: int| 0 <= k < i + 1 implies #[trigger] builder.val(
                    w,
                    message@[k],
                ) == w[message@[k].index as int] by {
                    if k < i {
                        assert(message@[k] == mi[k]);
                        assert(bi.val(w, mi[k]) == w[mi[k].index as int]);
                    }
                }
            }
        }
        let ghost b1 = *builder;
        let d0 = builder.add_witness();
        let d1 = builder.add_witness();
        let d2 = builder.add_witness();
        let d3 = builder.add_witness();
        let d4 = builder.add_witness();
        let d5 = builder.add_witness();
        let d6 = builder.add_witness();
        let d7 = builder.add_witness();
        let digest: [Wire; 8] = [d0, d1, d2, d3, d4, d5, d6, d7];
        let ghost b2 = *builder;
        proof {
            assert forall|k: int| 0 <= k < 8 implies (#[trigger] digest@[k]).index == b1.n() + k by {}
            assert forall|w: Seq<u64>, k: int| 0 <= k < 8 implies #[trigger] b2.val(w, digest@[k])
                == w[digest@[k].index as int] by {
                assert(b2.val(w, d0) == w[d0.index as int]);
                assert(b2.val(w, d1) == w[d1.index as int]);
                assert(b2.val(w, d2) == w[d2.index as int]);
                assert(b2.val(w, d3) == w[d3.index as int]);
                assert(b2.val(w, d4) == w[d4.index as int]);
                assert(b2.val(w, d5) == w[d5.index as int]);
                assert(b2.val(w, d6) == w[d6.index as int]);
            }
        }
        Self::build_circuit(builder, length, message.as_slice(), digest);
        let r = Blake3 { length, message, digest };
        proof {
            assert forall|w: Seq<u64>| #[trigger] builder.accepts(w) == (b0.accepts(w)
                && r.digest_matches(w)) by {
                let ws = Seq::new(message@.len(), |i: int| w[message@[i].index as int]);
                assert forall|k: int| 0 <= k < message@.len() implies b2.val(
                    w,
                    #[trigger] message@[k],
                ) == ws[k] by {
                    assert(b1.val(w, message@[k]) == w[message@[k].index as int]);
                }
                assert(b2.vals(w, message@) =~= ws);
                assert(b2.accepts(w) == b1.accepts(w) && b1.accepts(w) == b0.accepts(w));
                if r.digest_matches(w) {
                    assert forall|i: int| 0 <= i < 8 implies b2.val(w, #[trigger] digest@[i])
                        == hash_words(r.message_of(w))[i] by {
                        assert(w[r.digest@[i].index as int] == hash_words(r.message_of(w))[i]);
                    }
                } else {
                    let i = choose|i: int|
                        #![trigger r.digest@[i]]
                        0 <= i < 8 && w[r.digest@[i].index as int] != hash_words(r.message_of(w))[i];
                    assert(b2.val(w, digest@[i]) != hash_words(r.message_of(w))[i]);
                }
            }
        }
        r
    }

    /// Adds the constraints that tie a digest to a message.
    pub fn build_circuit(
        builder: &mut CircuitBuilder,
        length: usize,
        message: &[Wire],
        expected_digest: [Wire; 8],
    )
        requires
            old(builder).wf(),
            message@.len() == qword_count(length as int),
            old(builder).has_all(message@),
            old(builder).has_all(expected_digest@),
        ensures
            final(builder).extends(*old(builder)),
            forall|w: Seq<u64>|
                #[trigger] final(builder).accepts(w) == (old(builder).accepts(w) && forall|i: int|
                    #![trigger expected_digest@[i]]
                    0 <= i < 8 ==> old(builder).val(w, expected_digest@[i]) == hash_words(
                        bytes_of_words(old(builder).vals(w, message@), length as nat),
                    )[i]),
    {
        let ghost b0 = *builder;
        let ghost bytes = |w: Seq<u64>| bytes_of_words(b0.vals(w, message@), length as nat);
        let num_chunks: usize = num_chunks_of(length);
        let mut chunk_cvs: Vec<[Wire; 8]> = Vec::new();
        for chunk_idx in 0..num_chunks
            invariant
                b0.wf(),
                b0.has_all(message@),
                builder.computes_on(b0),
                message@.len() == qword_count(length as int),
                num_chunks == chunk_count(length as int),
                num_chunks >= 1,
                length > 0 ==> 1024 * (num_chunks - 1) < length <= 1024 * num_chunks,
                bytes == (|w: Seq<u64>| bytes_of_words(b0.vals(w, message@), length as nat)),
                chunk_cvs@.len() == chunk_idx,
                has_cvs(*builder, chunk_cvs@),
                forall|w: Seq<u64>, k: int|
                    #![trigger words32(*builder, w, chunk_cvs@[k]@)]
                    #![trigger all_32(*builder, w, chunk_cvs@[k]@)]
                    0 <= k < chunk_idx ==> all_32(*builder, w, chunk_cvs@[k]@) && words32(
                        *builder,
                        w,
                        chunk_cvs@[k]@,
                    ) == (if num_chunks == 1 {
                        chunk_value(bytes(w), 0, true)
                    } else {
                        chunk_value(chunk_of(bytes(w), k), k as u64, false)
                    }),
        {
            let ghost bi = *builder;
            let ghost cvi = chunk_cvs@;
            let start: usize = chunk_idx * CHUNK_LEN;
            let chunk_byte_len: usize = if length - start < CHUNK_LEN {
                length - start
            } else {
                CHUNK_LEN
            };
            let qword_start: usize = start / 8;
            let num_qwords: usize = num_qwords_of(chunk_byte_len);
            let chunk_qwords = vstd::slice::slice_subrange(
                message,
                qword_start,
                qword_start + num_qwords,
            );
            proof {
                assert forall|i: int| 0 <= i < chunk_qwords@.len() implies bi.has(
                    #[trigger] chunk_qwords@[i],
                ) by {
                    assert(b0.has(message@[qword_start + i]));
                }
            }
            let cv = blake3_chunk(
                builder,
                chunk_qwords,
                chunk_byte_len,
                chunk_idx as u64,
                num_chunks == 1,
            );
            chunk_cvs.push(cv);
            proof {
                assert forall|w: Seq<u64>, k: int|
                    #![trigger words32(*builder, w, chunk_cvs@[k]@)]
                    #![trigger all_32(*builder, w, chunk_cvs@[k]@)]
                    0 <= k < chunk_idx + 1 implies all_32(*builder, w, chunk_cvs@[k]@) && words32(
                    *builder,
                    w,
                    chunk_cvs@[k]@,
                ) == (if num_chunks == 1 {
                    chunk_value(bytes(w), 0, true)
                } else {
                    chunk_value(chunk_of(bytes(w), k), k as u64, false)
                }) by {
                    if k < chunk_idx {
                        assert(chunk_cvs@[k] == cvi[k]);
                        assert(bi.has_all(cvi[k]@));
                        lemma_words32_kept(bi, *builder, w, cvi[k]@);
                        assert(all_32(bi, w, cvi[k]@));
                    } else {
                        assert(chunk_cvs@[k] == cv);
                        let local = bytes_of_words(
                            bi.vals(w, chunk_qwords@),
                            chunk_byte_len as nat,
                        );
                        assert forall|j: int| 0 <= j < chunk_byte_len implies #[trigger] local[j]
                            == bytes(w)[start + j] by {
                            assert((start + j) / 8 == qword_start + j / 8);
                            assert((start + j) % 8 == j % 8);
                            assert(chunk_qwords@[j / 8] == message@[qword_start + j / 8]);
                            assert(b0.has(message@[qword_start + j / 8]));
                            assert(bi.val(w, chunk_qwords@[j / 8]) == b0.val(
                                w,
                                message@[qword_start + j / 8],
                            ));
                        }
                        if num_chunks == 1 {
                            assert(local =~= bytes(w));
                        } else {
                            assert(local =~= chunk_of(bytes(w), k));
                        }
                        assert(all_32(*builder, w, cv@));
                    }
                }
                assert forall|i: int| 0 <= i < chunk_cvs@.len() implies builder.has_all(
                    #[trigger] chunk_cvs@[i]@,
                ) by {
                    if i < chunk_idx {
                        assert(chunk_cvs@[i] == cvi[i]);
                        lemma_words32_kept(bi, *builder, Seq::empty(), cvi[i]@);
                    }
                }
            }
        }
        let ghost bm = *builder;
        let root_cv: [Wire; 8] = if chunk_cvs.len() == 1 {
            chunk_cvs[0]
        } else {
            merge_cvs(builder, chunk_cvs.as_slice(), true)
        };
        proof {
            assert forall|w: Seq<u64>|
                #![trigger words32(*builder, w, root_cv@)]
                #![trigger all_32(*builder, w, root_cv@)]
                all_32(*builder, w, root_cv@) && words32(*builder, w, root_cv@) == hash_words(
                    bytes(w),
                ) by {
                if num_chunks == 1 {
                    assert(all_32(bm, w, chunk_cvs@[0]@));
                } else {
                    assert(cvs_32(bm, w, chunk_cvs@)) by {
                        assert forall|i: int| 0 <= i < chunk_cvs@.len() implies all_32(
                            bm,
                            w,
                            #[trigger] chunk_cvs@[i]@,
                        ) by {}
                    }
                    assert(cv_values(bm, w, chunk_cvs@) =~= Seq::new(
                        num_chunks as nat,
                        |k: int| chunk_value(chunk_of(bytes(w), k), k as u64, false),
                    )) by {
                        assert forall|k: int| 0 <= k < num_chunks implies cv_values(
                            bm,
                            w,
                            chunk_cvs@,
                        )[k] == chunk_value(chunk_of(bytes(w), k), k as u64, false) by {
                            assert(words32(bm, w, chunk_cvs@[k]@) == chunk_value(
                                chunk_of(bytes(w), k),
                                k as u64,
                                false,
                            ));
                        }
                    }
                }
            }
            assert(builder.has_all(root_cv@)) by {
                if num_chunks == 1 {
                    assert(bm.has_all(chunk_cvs@[0]@));
                }
            }
        }
        let ghost br = *builder;
        for i in 0..8
            invariant
                b0.wf(),
                br.computes_on(b0),
                builder.extends(br),
                br.has_all(root_cv@),
                b0.has_all(expected_digest@),
                forall|w: Seq<u64>|
                    #![trigger words32(br, w, root_cv@)]
                    all_32(br, w, root_cv@) && words32(br, w, root_cv@) == hash_words(bytes(w)),
                forall|w: Seq<u64>|
                    #[trigger] builder.accepts(w) == (b0.accepts(w) && forall|k: int|
                        #![trigger expected_digest@[k]]
                        0 <= k < i ==> b0.val(w, expected_digest@[k]) == hash_words(bytes(w))[k]),
        {
            let ghost bi = *builder;
            assert(br.has(root_cv@[i as int]) && b0.has(expected_digest@[i as int]));
            builder.assert_eq(root_cv[i], expected_digest[i]);
            proof {
                assert forall|w: Seq<u64>|
                    #[trigger] builder.accepts(w) == (b0.accepts(w) && forall|k: int|
                        #![trigger expected_digest@[k]]
                        0 <= k < i + 1 ==> b0.val(w, expected_digest@[k]) == hash_words(
                            bytes(w),
                        )[k]) by {
                    assert(words32(br, w, root_cv@) == hash_words(bytes(w)));
                    assert(br.val(w, root_cv@[i as int]) <= 0xffff_ffff);
                    assert(words32(br, w, root_cv@)[i as int] == br.val(w, root_cv@[i as int]));
                    assert(bi.val(w, root_cv@[i as int]) == hash_words(bytes(w))[i as int]);
                    assert(bi.val(w, expected_digest@[i as int]) == b0.val(
                        w,
                        expected_digest@[i as int],
                    ));
                    assert(bi.accepts(w) == (b0.accepts(w) && forall|k: int|
                        #![trigger expected_digest@[k]]
                        0 <= k < i ==> b0.val(w, expected_digest@[k]) == hash_words(bytes(w))[k]));
                }
            }
        }
    }

    /// Puts a message on its wires.
    pub fn populate_message(&self, witness: &mut WitnessFiller, message: &[u8])
        requires
            self.wf(),
            message@.len() == self.length,
            self.within(old(witness).words@.len() as int),
        ensures
            final(witness).words@.len() == old(witness).words@.len(),
            forall|i: int|
                0 <= i < self.message@.len() ==> final(witness).words@[(
                #[trigger] self.message@[i]).index as int] == message_qword(message@, i),
            forall|j: int|
                0 <= j < old(witness).words@.len() && (forall|i: int|
                    0 <= i < self.message@.len() ==> (#[trigger] self.message@[i]).index != j)
                    ==> #[trigger] final(witness).words@[j] == old(witness).words@[j],
            self.message_of(final(witness).words@) == message@,
    {
        let num_words: usize = self.message.len();
        let len: usize = message.len();
        for i in 0..num_words
            invariant
                self.wf(),
                num_words == self.message@.len(),
                len == message@.len(),
                len == self.length,
                self.within(witness.words@.len() as int),
                witness.words@.len() == old(witness).words@.len(),
                forall|k: int|
                    0 <= k < i ==> witness.words@[(#[trigger] self.message@[k]).index as int]
                        == message_qword(message@, k),
                forall|j: int|
                    0 <= j < old(witness).words@.len() && (forall|k: int|
                        0 <= k < self.message@.len() ==> (#[trigger] self.message@[k]).index != j)
                        ==> #[trigger] witness.words@[j] == old(witness).words@[j],
        {
            let lo: u32 = read_le_word(message, 8 * i);
            let hi: u32 = if len - 8 * i > 4 {
                read_le_word(message, 8 * i + 4)
            } else {
                proof {
                    lemma_qword_bits(0, 0, 0, 0, 0, 0, 0, 0);
                }
                0
            };
            let word: u64 = (lo as u64) | ((hi as u64) << 32u64);
            assert(self.message@[i as int].index < witness.words@.len());
            witness.set(self.message[i], word);
        }
        proof {
            let ws = Seq::new(
                self.message@.len(),
                |i: int| witness.words@[self.message@[i].index as int],
            );
            assert forall|j: int| 0 <= j < len implies #[trigger] bytes_of_words(
                ws,
                len as nat,
            )[j] == message@[j] by {
                let i = j / 8;
                assert(0 <= i < self.message@.len());
                assert(ws[i] == message_qword(message@, i));
                lemma_qword_bits(
                    padded_byte(message@, 8 * i),
                    padded_byte(message@, 8 * i + 1),
                    padded_byte(message@, 8 * i + 2),
                    padded_byte(message@, 8 * i + 3),
                    padded_byte(message@, 8 * i + 4),
                    padded_byte(message@, 8 * i + 5),
                    padded_byte(message@, 8 * i + 6),
                    padded_byte(message@, 8 * i + 7),
                );
                let t = j % 8;
                assert(j == 8 * i + t);
                assert(byte_of(ws[i], t) as u8 == padded_byte(message@, 8 * i + t)) by {
                    if t == 0 {
                    } else if t == 1 {
                    } else if t == 2 {
                    } else if t == 3 {
                    } else if t == 4 {
                    } else if t == 5 {
                    } else if t == 6 {
                    } else {
                        assert(t == 7);
                    }
                }
            }
            assert(self.message_of(witness.words@) =~= message@);
        }
    }

    /// Puts a digest on its wires.
    pub fn populate_digest(&self, witness: &mut WitnessFiller, digest: &[u8; 32])
        requires
            self.wf(),
            self.within(old(witness).words@.len() as int),
        ensures
            final(witness).words@.len() == old(witness).words@.len(),
            forall|i: int|
                0 <= i < 8 ==> final(witness).words@[(#[trigger] self.digest@[i]).index as int]
                    == digest_word(digest@, i),
            forall|j: int|
                0 <= j < old(witness).words@.len() && (forall|i: int|
                    0 <= i < 8 ==> (#[trigger] self.digest@[i]).index != j)
                    ==> #[trigger] final(witness).words@[j] == old(witness).words@[j],
    {
        for i in 0..8
            invariant
                self.wf(),
                self.within(witness.words@.len() as int),
                witness.words@.len() == old(witness).words@.len(),
                forall|k: int|
                    0 <= k < i ==> witness.words@[(#[trigger] self.digest@[k]).index as int]
                        == digest_word(digest@, k),
                forall|j: int|
                    0 <= j < old(witness).words@.len() && (forall|k: int|
                        0 <= k < 8 ==> (#[trigger] self.digest@[k]).index != j)
                        ==> #[trigger] witness.words@[j] == old(witness).words@[j],
        {
            let word: u32 = (digest[4 * i] as u32) | ((digest[4 * i + 1] as u32) << 8u32) | ((
            digest[4 * i + 2] as u32) << 16u32) | ((digest[4 * i + 3] as u32) << 24u32);
            assert(self.digest@[i as int].index < witness.words@.len());
            witness.set(self.digest[i], word as u64);
        }
    }
}

proof fn lemma_qword_bits(b0: u8, b1: u8, b2: u8, b3: u8, b4: u8, b5: u8, b6: u8, b7: u8)
    by (bit_vector)
    ensures
        ({
            let q = (le_word(b0, b1, b2, b3) as u64) | ((le_word(b4, b5, b6, b7) as u64) << 32u64);
            &&& ((q >> 0u64) & 0xff) as u8 == b0
            &&& ((q >> 8u64) & 0xff) as u8 == b1
            &&& ((q >> 16u64) & 0xff) as u8 == b2
            &&& ((q >> 24u64) & 0xff) as u8 == b3
            &&& ((q >> 32u64) & 0xff) as u8 == b4
            &&& ((q >> 40u64) & 0xff) as u8 == b5
            &&& ((q >> 48u64) & 0xff) as u8 == b6
            &&& ((q >> 56u64) & 0xff) as u8 == b7
        }),
        le_word(0, 0, 0, 0) == 0,
{
}

proof fn lemma_word_bytes_bits(x: u32, b0: u8, b1: u8, b2: u8, b3: u8)
    by (bit_vector)
    ensures
        (x == le_word(b0, b1, b2, b3)) == (b0 == ((x >> 0u32) & 0xff) as u8 && b1 == ((x >> 8u32)
            & 0xff) as u8 && b2 == ((x >> 16u32) & 0xff) as u8 && b3 == ((x >> 24u32) & 0xff) as u8),
{
}

/// The word that starts at byte `i` of a message, zero beyond its end.
fn read_le_word(message: &[u8], i: usize) -> (r: u32)
    requires
        i < message@.len(),
    ensures
        r == le_word(
            padded_byte(message@, i as int),
            padded_byte(message@, i + 1),
            padded_byte(message@, i + 2),
            padded_byte(message@, i + 3),
        ),
{
    let b1: u8 = if i + 1 < message.len() {
        message[i + 1]
    } else {
        0
    };
    let b2: u8 = if message.len() - i > 2 {
        message[i + 2]
    } else {
        0
    };
    let b3: u8 = if message.len() - i > 3 {
        message[i + 3]
    } else {
        0
    };
    (message[i] as u32) | ((b1 as u32) << 8u32) | ((b2 as u32) << 16u32) | ((b3 as u32) << 24u32)
}

/// A witness whose wires carry a message and a digest passes the check exactly where the digest
/// is the BLAKE3 hash of the message.
pub proof fn lemma_accepts_exactly_the_hash(
    circuit: Blake3,
    w: Seq<u64>,
    message: Seq<u8>,
    digest: Seq<u8>,
)
    requires
        circuit.message_of(w) == message,
        digest.len() == 32,
        forall|i: int|
            0 <= i < 8 ==> w[(#[trigger] circuit.digest@[i]).index as int] == digest_word(digest, i),
    ensures
        circuit.digest_matches(w) == (digest == hash_bytes(message)),
{
    let h = hash_words(message);
    assert forall|i: int| 0 <= i < 8 implies (digest_word(digest, i) == h[i]) == (digest[4 * i]
        == hash_bytes(message)[4 * i] && digest[4 * i + 1] == hash_bytes(message)[4 * i + 1]
        && digest[4 * i + 2] == hash_bytes(message)[4 * i + 2] && digest[4 * i + 3] == hash_bytes(
        message,
    )[4 * i + 3]) by {
        lemma_word_bytes_bits(
            h[i],
            digest[4 * i],
            digest[4 * i + 1],
            digest[4 * i + 2],
            digest[4 * i + 3],
        );
    }
    if circuit.digest_matches(w) {
        assert forall|j: int| 0 <= j < 32 implies digest[j] == hash_bytes(message)[j] by {
            let i = j / 4;
            assert(w[circuit.digest@[i].index as int] == h[i]);
            assert(j == 4 * i || j == 4 * i + 1 || j == 4 * i + 2 || j == 4 * i + 3);
        }
        assert(digest =~= hash_bytes(message));
    }
    if digest == hash_bytes(message) {
        assert forall|i: int| 0 <= i < 8 implies w[(#[trigger] circuit.digest@[i]).index as int]
            == h[i] by {
            assert(digest_word(digest, i) == h[i]);
        }
    }
}

} // verus!
