//! The BLAKE3 compression circuit.
use super::constants::{lemma_schedules, IV, ROUNDS, SCHEDULES};
use super::reference::{
    compress_words, finalized, g_at, initial_state, message_at, permuted, round_of, state_at,
};
use crate::blake2s::mixing::{all_32, g_function, words32};
use crate::circuit::{CircuitBuilder, Wire};
use vstd::prelude::*;

verus! {

/// The message words of round `r` are those that the schedule picks from the block.
pub proof fn lemma_message_at(m: Seq<u32>, r: nat)
    requires
        r < 7,
        m.len() == 16,
    ensures
        message_at(m, r) == Seq::new(16, |i: int| m[SCHEDULES[r as int][i] as int]),
    decreases r,
{
    if r == 0 {
        assert forall|i: int| 0 <= i < 16 implies m[i] == m[SCHEDULES[0][i] as int] by {
            lemma_schedules(0, i);
        }
        assert(message_at(m, 0) =~= Seq::new(16, |i: int| m[SCHEDULES[0][i] as int]));
    } else {
        let p = (r - 1) as nat;
        lemma_message_at(m, p);
        assert forall|i: int| 0 <= i < 16 implies permuted(message_at(m, p))[i]
            == m[SCHEDULES[r as int][i] as int] by {
            lemma_schedules(p as int, i);
        }
        assert(message_at(m, r) =~= Seq::new(16, |i: int| m[SCHEDULES[r as int][i] as int]));
    }
}

/// The quarter-round on the state wires at four positions.
fn mix(
    builder: &mut CircuitBuilder,
    v: &mut [Wire; 16],
    a: usize,
    b: usize,
    c: usize,
    d: usize,
    mx: Wire,
    my: Wire,
)
    requires
        a < 16,
        b < 16,
        c < 16,
        d < 16,
        a != b,
        a != c,
        a != d,
        b != c,
        b != d,
        c != d,
        old(builder).wf(),
        old(builder).has_all(old(v)@),
        old(builder).has(mx),
        old(builder).has(my),
    ensures
        final(builder).computes_on(*old(builder)),
        final(builder).has_all(final(v)@),
        forall|w: Seq<u64>|
            #![trigger words32(*final(builder), w, final(v)@)]
            #![trigger all_32(*final(builder), w, final(v)@)]
            all_32(*old(builder), w, old(v)@) && old(builder).val(w, mx) <= 0xffff_ffff && old(
                builder,
            ).val(w, my) <= 0xffff_ffff ==> {
                &&& all_32(*final(builder), w, final(v)@)
                &&& words32(*final(builder), w, final(v)@) == g_at(
                    words32(*old(builder), w, old(v)@),
                    a as int,
                    b as int,
                    c as int,
                    d as int,
                    old(builder).val(w, mx) as u32,
                    old(builder).val(w, my) as u32,
                )
            },
{
    let ghost b0 = *builder;
    let ghost v0 = v@;
    let (ra, rb, rc, rd) = g_function(builder, v[a], v[b], v[c], v[d], mx, my);
    v[a] = ra;
    v[b] = rb;
    v[c] = rc;
    v[d] = rd;
    proof {
        let v1 = v@;
        assert(v1 == v0.update(a as int, ra).update(b as int, rb).update(c as int, rc).update(
            d as int,
            rd,
        ));
        assert forall|w: Seq<u64>|
            #![trigger words32(*builder, w, v1)]
            #![trigger all_32(*builder, w, v1)]
            all_32(b0, w, v0) && b0.val(w, mx) <= 0xffff_ffff && b0.val(w, my)
                <= 0xffff_ffff implies {
            &&& all_32(*builder, w, v1)
            &&& words32(*builder, w, v1) == g_at(
                words32(b0, w, v0),
                a as int,
                b as int,
                c as int,
                d as int,
                b0.val(w, mx) as u32,
                b0.val(w, my) as u32,
            )
        } by {
            let xs = seq![v0[a as int], v0[b as int], v0[c as int], v0[d as int], mx, my];
            assert(all_32(b0, w, xs));
            assert(builder.val(w, ra) <= 0xffff_ffff);
            assert(builder.val(w, rb) <= 0xffff_ffff);
            assert(builder.val(w, rc) <= 0xffff_ffff);
            assert(builder.val(w, rd) <= 0xffff_ffff);
            assert forall|i: int| 0 <= i < 16 && i != a && i != b && i != c && i != d implies
                builder.val(w, #[trigger] v1[i]) == b0.val(w, v0[i]) by {
                assert(b0.has(v0[i]));
            }
            assert(all_32(*builder, w, v1)) by {
                assert forall|i: int| 0 <= i < 16 implies builder.val(w, #[trigger] v1[i])
                    <= 0xffff_ffff by {
                    assert(b0.val(w, v0[i]) <= 0xffff_ffff);
                }
            }
            assert(words32(*builder, w, v1) =~= g_at(
                words32(b0, w, v0),
                a as int,
                b as int,
                c as int,
                d as int,
                b0.val(w, mx) as u32,
                b0.val(w, my) as u32,
            ));
        }
    }
}

/// One round on the state wires.
fn round_gates(builder: &mut CircuitBuilder, v: &mut [Wire; 16], m: &[Wire; 16])
    requires
        old(builder).wf(),
        old(builder).has_all(old(v)@),
        old(builder).has_all(m@),
    ensures
        final(builder).computes_on(*old(builder)),
        final(builder).has_all(final(v)@),
        forall|w: Seq<u64>|
            #![trigger words32(*final(builder), w, final(v)@)]
            #![trigger all_32(*final(builder), w, final(v)@)]
            all_32(*old(builder), w, old(v)@) && all_32(*old(builder), w, m@) ==> {
                &&& all_32(*final(builder), w, final(v)@)
                &&& words32(*final(builder), w, final(v)@) == round_of(
                    words32(*old(builder), w, old(v)@),
                    words32(*old(builder), w, m@),
                )
            },
{
    let ghost b0 = *builder;
    let ghost v0 = v@;
    mix(builder, v, 0, 4, 8, 12, m[0], m[1]);
    let ghost (b1, v1) = (*builder, v@);
    mix(builder, v, 1, 5, 9, 13, m[2], m[3]);
    let ghost (b2, v2) = (*builder, v@);
    mix(builder, v, 2, 6, 10, 14, m[4], m[5]);
    let ghost (b3, v3) = (*builder, v@);
    mix(builder, v, 3, 7, 11, 15, m[6], m[7]);
    let ghost (b4, v4) = (*builder, v@);
    mix(builder, v, 0, 5, 10, 15, m[8], m[9]);
    let ghost (b5, v5) = (*builder, v@);
    mix(builder, v, 1, 6, 11, 12, m[10], m[11]);
    let ghost (b6, v6) = (*builder, v@);
    mix(builder, v, 2, 7, 8, 13, m[12], m[13]);
    let ghost (b7, v7) = (*builder, v@);
    mix(builder, v, 3, 4, 9, 14, m[14], m[15]);
    proof {
        assert forall|w: Seq<u64>|
            #![trigger words32(*builder, w, v@)]
            #![trigger all_32(*builder, w, v@)]
            all_32(b0, w, v0) && all_32(b0, w, m@) implies {
            &&& all_32(*builder, w, v@)
            &&& words32(*builder, w, v@) == round_of(words32(b0, w, v0), words32(b0, w, m@))
        } by {
            let mw = words32(b0, w, m@);
            assert forall|i: int| 0 <= i < 16 implies b0.val(w, #[trigger] m@[i]) <= 0xffff_ffff
                && mw[i] == b0.val(w, m@[i]) as u32 by {}
            assert(all_32(b1, w, v1));
            assert(all_32(b2, w, v2));
            assert(all_32(b3, w, v3));
            assert(all_32(b4, w, v4));
            assert(all_32(b5, w, v5));
            assert(all_32(b6, w, v6));
            assert(all_32(b7, w, v7));
            assert(all_32(*builder, w, v@));
        }
    }
}

/// The BLAKE3 compression circuit: one 64-byte block under a chaining value, a counter, a block
/// length and flags. Returns the sixteen words of the output.
pub fn blake3_compress(
    builder: &mut CircuitBuilder,
    chaining_value: &[Wire; 8],
    block_words: &[Wire; 16],
    counter_lo: Wire,
    counter_hi: Wire,
    block_len: Wire,
    flags: Wire,
) -> (r: [Wire; 16])
    requires
        old(builder).wf(),
        old(builder).has_all(chaining_value@),
        old(builder).has_all(block_words@),
        old(builder).has(counter_lo),
        old(builder).has(counter_hi),
        old(builder).has(block_len),
        old(builder).has(flags),
    ensures
        final(builder).computes_on(*old(builder)),
        final(builder).has_all(r@),
        forall|w: Seq<u64>|
            #![trigger words32(*final(builder), w, r@)]
            #![trigger all_32(*final(builder), w, r@)]
            all_32(*old(builder), w, chaining_value@) && all_32(*old(builder), w, block_words@)
                && all_32(
                *old(builder),
                w,
                seq![counter_lo, counter_hi, block_len, flags],
            ) ==> {
                &&& all_32(*final(builder), w, r@)
                &&& words32(*final(builder), w, r@) == compress_words(
                    words32(*old(builder), w, chaining_value@),
                    words32(*old(builder), w, block_words@),
                    old(builder).val(w, counter_lo) as u32,
                    old(builder).val(w, counter_hi) as u32,
                    old(builder).val(w, block_len) as u32,
                    old(builder).val(w, flags) as u32,
                )
            },
{
    let ghost b0 = *builder;
    let ghost cvw = chaining_value@;
    let ghost bw = block_words@;
    let ghost tail = seq![counter_lo, counter_hi, block_len, flags];
    let iv0 = builder.add_constant_64(IV[0] as u64);
    let iv1 = builder.add_constant_64(IV[1] as u64);
    let iv2 = builder.add_constant_64(IV[2] as u64);
    let iv3 = builder.add_constant_64(IV[3] as u64);
    let mut v: [Wire; 16] = [
        chaining_value[0],
        chaining_value[1],
        chaining_value[2],
        chaining_value[3],
        chaining_value[4],
        chaining_value[5],
        chaining_value[6],
        chaining_value[7],
        iv0,
        iv1,
        iv2,
        iv3,
        counter_lo,
        counter_hi,
        block_len,
        flags,
    ];
    let ghost inputs = |w: Seq<u64>|
        all_32(b0, w, cvw) && all_32(b0, w, bw) && all_32(b0, w, tail);
    let ghost start = |w: Seq<u64>|
        initial_state(
            words32(b0, w, cvw),
            b0.val(w, counter_lo) as u32,
            b0.val(w, counter_hi) as u32,
            b0.val(w, block_len) as u32,
            b0.val(w, flags) as u32,
        );
    proof {
        assert forall|w: Seq<u64>| #[trigger] inputs(w) implies all_32(*builder, w, v@)
            && words32(*builder, w, v@) == start(w) by {
            assert forall|i: int| 0 <= i < 8 implies b0.val(w, #[trigger] cvw[i]) <= 0xffff_ffff
                && builder.val(w, cvw[i]) == b0.val(w, cvw[i]) by {}
            assert forall|i: int| 0 <= i < 4 implies b0.val(w, #[trigger] tail[i]) <= 0xffff_ffff
                && builder.val(w, tail[i]) == b0.val(w, tail[i]) by {}
            assert(tail[0] == counter_lo && tail[1] == counter_hi && tail[2] == block_len && tail[3]
                == flags);
            assert(words32(*builder, w, v@) =~= start(w));
            assert forall|i: int| 0 <= i < 16 implies builder.val(w, #[trigger] v@[i])
                <= 0xffff_ffff by {
                if i < 8 {
                    assert(v@[i] == cvw[i]);
                } else if i >= 12 {
                    assert(v@[i] == tail[i - 12]);
                }
            }
        }
    }
    for round in 0..ROUNDS
        invariant
            b0.wf(),
            builder.computes_on(b0),
            builder.has_all(v@),
            b0.has_all(cvw),
            b0.has_all(bw),
            bw == block_words@,
            cvw == chaining_value@,
            inputs == (|w: Seq<u64>|
                all_32(b0, w, cvw) && all_32(b0, w, bw) && all_32(b0, w, tail)),
            forall|w: Seq<u64>|
                #![trigger inputs(w)]
                inputs(w) ==> all_32(*builder, w, v@) && words32(*builder, w, v@) == state_at(
                    start(w),
                    words32(b0, w, bw),
                    round as nat,
                ),
    {
        let ghost (bi, vi) = (*builder, v@);
        let mut m: [Wire; 16] = *block_words;
        for i in 0..16
            invariant
                round < 7,
                bw == block_words@,
                forall|k: int| 0 <= k < i ==> m@[k] == bw[SCHEDULES[round as int][k] as int],
        {
            proof {
                lemma_schedules(round as int, i as int);
            }
            m[i] = block_words[SCHEDULES[round][i]];
        }
        proof {
            assert forall|i: int| 0 <= i < 16 implies builder.has(#[trigger] m@[i]) by {
                lemma_schedules(round as int, i);
                assert(m@[i] == bw[SCHEDULES[round as int][i] as int]);
            }
        }
        round_gates(builder, &mut v, &m);
        proof {
            assert forall|w: Seq<u64>| #[trigger] inputs(w) implies all_32(*builder, w, v@)
                && words32(*builder, w, v@) == state_at(
                start(w),
                words32(b0, w, bw),
                (round + 1) as nat,
            ) by {
                lemma_message_at(words32(b0, w, bw), round as nat);
                assert forall|i: int| 0 <= i < 16 implies bi.val(w, #[trigger] m@[i])
                    <= 0xffff_ffff && bi.val(w, m@[i]) as u32 == message_at(
                    words32(b0, w, bw),
                    round as nat,
                )[i] by {
                    lemma_schedules(round as int, i);
                    let x = bw[SCHEDULES[round as int][i] as int];
                    assert(m@[i] == x);
                    assert(b0.has(x));
                    assert(bi.val(w, x) == b0.val(w, x));
                }
                assert(words32(bi, w, m@) =~= message_at(words32(b0, w, bw), round as nat));
                assert(all_32(bi, w, m@));
            }
        }
    }
    let ghost (bl, vl) = (*builder, v@);
    for i in 0..8
        invariant
            b0.wf(),
            bl.computes_on(b0),
            builder.computes_on(bl),
            bl.has_all(vl),
            builder.has_all(v@),
            b0.has_all(cvw),
            vl.len() == 16,
            cvw == chaining_value@,
            forall|k: int| i <= k < 8 ==> #[trigger] v@[k] == vl[k],
            forall|k: int| i + 8 <= k < 16 ==> #[trigger] v@[k] == vl[k],
            forall|w: Seq<u64>, k: int|
                0 <= k < i ==> #[trigger] builder.val(w, v@[k]) == bl.val(w, vl[k]) ^ bl.val(
                    w,
                    vl[k + 8],
                ),
            forall|w: Seq<u64>, k: int|
                8 <= k < i + 8 ==> #[trigger] builder.val(w, v@[k]) == bl.val(w, vl[k]) ^ b0.val(
                    w,
                    cvw[k - 8],
                ),
    {
        let ghost (bi, vi) = (*builder, v@);
        let lo = builder.bxor(v[i], v[i + 8]);
        let ghost bm = *builder;
        let hi = builder.bxor(v[i + 8], chaining_value[i]);
        v[i] = lo;
        v[i + 8] = hi;
        proof {
            assert(vi[i as int] == vl[i as int] && vi[i + 8] == vl[i + 8]);
            assert(bl.has(vl[i as int]) && bl.has(vl[i + 8]) && b0.has(cvw[i as int]));
            assert forall|w: Seq<u64>, k: int| 0 <= k < i + 1 implies #[trigger] builder.val(
                w,
                v@[k],
            ) == bl.val(w, vl[k]) ^ bl.val(w, vl[k + 8]) by {
                if k < i {
                    assert(v@[k] == vi[k]);
                    assert(bi.has(vi[k]));
                    assert(bi.val(w, vi[k]) == bl.val(w, vl[k]) ^ bl.val(w, vl[k + 8]));
                } else {
                    assert(bm.val(w, lo) == bi.val(w, vi[i as int]) ^ bi.val(w, vi[i + 8]));
                }
            }
            assert forall|w: Seq<u64>, k: int| 8 <= k < i + 9 implies #[trigger] builder.val(
                w,
                v@[k],
            ) == bl.val(w, vl[k]) ^ b0.val(w, cvw[k - 8]) by {
                if k < i + 8 {
                    assert(v@[k] == vi[k]);
                    assert(bi.has(vi[k]));
                    assert(bi.val(w, vi[k]) == bl.val(w, vl[k]) ^ b0.val(w, cvw[k - 8]));
                } else {
                    assert(builder.val(w, hi) == bm.val(w, vi[i + 8]) ^ bm.val(w, cvw[i as int]));
                }
            }
        }
    }
    proof {
        assert forall|w: Seq<u64>|
            #![trigger words32(*builder, w, v@)]
            #![trigger all_32(*builder, w, v@)]
            inputs(w) implies all_32(*builder, w, v@) && words32(*builder, w, v@)
            == compress_words(
            words32(b0, w, cvw),
            words32(b0, w, bw),
            b0.val(w, counter_lo) as u32,
            b0.val(w, counter_hi) as u32,
            b0.val(w, block_len) as u32,
            b0.val(w, flags) as u32,
        ) by {
            let s = words32(bl, w, vl);
            let cv = words32(b0, w, cvw);
            assert forall|k: int| 0 <= k < 16 implies builder.val(w, #[trigger] v@[k])
                <= 0xffff_ffff && builder.val(w, v@[k]) as u32 == finalized(s, cv)[k] by {
                assert(bl.val(w, vl[k]) <= 0xffff_ffff);
                if k < 8 {
                    assert(bl.val(w, vl[k + 8]) <= 0xffff_ffff);
                    assert(builder.val(w, v@[k]) == (s[k] ^ s[k + 8]) as u64);
                } else {
                    assert(b0.val(w, cvw[k - 8]) <= 0xffff_ffff);
                    assert(builder.val(w, v@[k]) == (s[k] ^ cv[k - 8]) as u64);
                }
            }
            assert(words32(*builder, w, v@) =~= finalized(s, cv));
        }
    }
    v
}

} // verus!
