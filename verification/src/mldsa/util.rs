//! Small gadgets shared by the ML-DSA relations.
use crate::circuit::word::{add64, byte_of, is_true, sub64};
use crate::circuit::{CircuitBuilder, Wire};
use vstd::arithmetic::power2::{lemma2_to64, lemma_pow2_pos, lemma_pow2_unfold, pow2};
use vstd::prelude::*;

verus! {

/// An index as an integer.
pub open spec fn ix(i: usize) -> int {
    i as int
}

/// A word as an integer.
pub open spec fn iw(v: u64) -> int {
    v as int
}

/// The constant wire that holds an index.
pub(crate) fn constant_index(builder: &mut CircuitBuilder, i: usize) -> (r: Wire)
    requires
        old(builder).wf(),
    ensures
        final(builder).computes_on(*old(builder)),
        final(builder).has(r),
        forall|w: Seq<u64>| #[trigger] final(builder).val(w, r) == i,
{
    builder.add_constant_64(i as u64)
}

/// Asserts `pred` where `cond` is true.
pub(crate) fn assert_true_cond(builder: &mut CircuitBuilder, pred: Wire, cond: Wire)
    requires
        old(builder).wf(),
        old(builder).has(pred),
        old(builder).has(cond),
    ensures
        final(builder).extends(*old(builder)),
        forall|w: Seq<u64>|
            #[trigger] final(builder).accepts(w) == (old(builder).accepts(w) && (is_true(
                old(builder).val(w, cond),
            ) ==> is_true(old(builder).val(w, pred)))),
{
    let true_wire = builder.add_constant_64(u64::MAX);
    let guarded = builder.select(cond, pred, true_wire);
    builder.assert_true(guarded);
}

/// The sum modulo `2^64`.
pub(crate) fn iadd_wrapping(builder: &mut CircuitBuilder, a: Wire, b: Wire) -> (r: Wire)
    requires
        old(builder).wf(),
        old(builder).has(a),
        old(builder).has(b),
    ensures
        final(builder).computes_on(*old(builder)),
        final(builder).has(r),
        forall|w: Seq<u64>|
            #[trigger] final(builder).val(w, r) == add64(
                old(builder).val(w, a),
                old(builder).val(w, b),
            ),
{
    let (sum, _carry) = builder.iadd(a, b);
    sum
}

/// The predecessor modulo `2^64`.
pub(crate) fn isub_one(builder: &mut CircuitBuilder, x: Wire) -> (r: Wire)
    requires
        old(builder).wf(),
        old(builder).has(x),
    ensures
        final(builder).computes_on(*old(builder)),
        final(builder).has(r),
        forall|w: Seq<u64>| #[trigger] final(builder).val(w, r) == sub64(old(builder).val(w, x), 1),
{
    let one = builder.add_constant_64(1);
    let zero = builder.add_constant_64(0);
    let (diff, _borrow) = builder.isub_bin_bout(x, one, zero);
    diff
}

/// The low `n` bits of `c`.
spec fn low_bits(c: u64, n: nat) -> nat {
    (c as nat) % pow2(n)
}

proof fn lemma_low_bits_step(c: u64, n: nat)
    requires
        n < 64,
    ensures
        low_bits(c, n + 1) == low_bits(c, n) + (if (c >> (n as u64)) & 1 == 1 {
            pow2(n)
        } else {
            0
        }),
        low_bits(c, n + 1) <= c,
{
    lemma_pow2_pos(n);
    lemma_pow2_unfold(n + 1);
    lemma2_to64();
    vstd::arithmetic::power2::lemma_pow2_strictly_increases(n, 64);
    vstd::bits::lemma_u64_shr_is_div(c, n as u64);
    let p = pow2(n) as int;
    let q = c as int / p;
    let shifted = c >> (n as u64);
    assert(shifted & 1 == shifted % 2) by (bit_vector);
    vstd::arithmetic::div_mod::lemma_breakdown(c as int, p, 2);
    assert(p * 2 == pow2(n + 1));
    assert(c as int % (p * 2) == p * (q % 2) + c as int % p);
    let bit = q % 2;
    assert(p * bit == if bit == 1 {
        p
    } else {
        0
    }) by (nonlinear_arith)
        requires
            bit == 0 || bit == 1,
    ;
    vstd::arithmetic::div_mod::lemma_mod_decreases(c as nat, pow2(n + 1));
}

/// Multiplies a wire by a constant with shifts and additions. The product must fit in 64 bits
/// for the result to be the product.
#[verifier::spinoff_prover]
#[verifier::rlimit(40)]
pub(crate) fn mul_const_no_overflow(builder: &mut CircuitBuilder, x: Wire, c: u64) -> (r: Wire)
    requires
        old(builder).wf(),
        old(builder).has(x),
    ensures
        final(builder).computes_on(*old(builder)),
        final(builder).has(r),
        forall|w: Seq<u64>|
            #![trigger final(builder).val(w, r)]
            old(builder).val(w, x) * c <= u64::MAX ==> final(builder).val(w, r) == old(builder).val(
                w,
                x,
            ) * c,
{
    let ghost b0 = *builder;
    let mut acc: Option<Wire> = None;
    proof {
        lemma2_to64();
    }
    for bit in 0..64
        invariant
            b0.wf(),
            b0.has(x),
            builder.computes_on(b0),
            acc is None ==> low_bits(c, bit as nat) == 0,
            acc matches Some(a) ==> builder.has(a) && forall|w: Seq<u64>|
                #![trigger builder.val(w, a)]
                b0.val(w, x) * c <= u64::MAX ==> builder.val(w, a) == b0.val(w, x) * low_bits(
                    c,
                    bit as nat,
                ),
    {
        proof {
            lemma_low_bits_step(c, bit as nat);
        }
        if (c >> (bit as u64)) & 1 == 1 {
            let ghost bi = *builder;
            let term = if bit == 0 {
                x
            } else {
                builder.shl(x, bit as u32)
            };
            let ghost bt = *builder;
            proof {
                assert forall|w: Seq<u64>| b0.val(w, x) * c <= u64::MAX implies #[trigger] bt.val(
                    w,
                    term,
                ) == b0.val(w, x) * pow2(bit as nat) by {
                    let v = b0.val(w, x);
                    let p = pow2(bit as nat);
                    assert(p <= c);
                    assert(v * p <= v * c) by (nonlinear_arith)
                        requires
                            p <= c,
                    ;
                    vstd::bits::lemma_u64_shl_is_mul(v, bit as u64);
                    assert(bi.val(w, x) == v);
                    if bit == 0 {
                        lemma2_to64();
                        assert(v * p == v) by (nonlinear_arith)
                            requires
                                p == 1,
                        ;
                    } else {
                        assert(bt.val(w, term) == v << (bit as u64));
                    }
                }
            }
            match acc {
                Some(a) => {
                    let (sum, _carry) = builder.iadd(a, term);
                    proof {
                        assert forall|w: Seq<u64>| b0.val(w, x) * c
                            <= u64::MAX implies #[trigger] builder.val(w, sum) == b0.val(w, x)
                            * low_bits(c, (bit + 1) as nat) by {
                            let v = b0.val(w, x);
                            let (l, p) = (low_bits(c, bit as nat), pow2(bit as nat));
                            assert(bi.val(w, a) == v * l);
                            assert(bt.val(w, a) == v * l);
                            assert(bt.val(w, term) == v * p);
                            assert(v * l + v * p == v * (l + p)) by (nonlinear_arith);
                            assert(v * (l + p) <= v * c) by (nonlinear_arith)
                                requires
                                    l + p <= c,
                            ;
                        }
                    }
                    acc = Some(sum);
                },
                None => {
                    acc = Some(term);
                },
            }
        }
    }
    proof {
        vstd::arithmetic::div_mod::lemma_small_mod(c as nat, pow2(64));
    }
    match acc {
        Some(a) => a,
        None => {
            let z = builder.add_constant_64(0);
            proof {
                assert forall|w: Seq<u64>| b0.val(w, x) * c <= u64::MAX implies #[trigger] builder.val(
                    w,
                    z,
                ) == b0.val(w, x) * c by {
                    assert(c == 0);
                    assert(b0.val(w, x) * c == 0) by (nonlinear_arith)
                        requires
                            c == 0,
                    ;
                }
            }
            z
        },
    }
}

proof fn lemma_index_bits(x: u64, lvl: u64)
    by (bit_vector)
    requires
        lvl < 63,
    ensures
        ((x << ((63 - lvl) as u64)) >= 0x8000_0000_0000_0000u64) == ((x >> lvl) & 1 == 1),
        x >> ((lvl + 1) as u64) == (x >> lvl) / 2,
        (x >> lvl) & 1 == (x >> lvl) % 2,
        x >> 0u64 == x,
{
}

/// One level of the multiplexer: from each pair the value that the condition picks.
fn mux_level(builder: &mut CircuitBuilder, values: &Vec<Wire>, odd: Wire) -> (r: Vec<Wire>)
    requires
        old(builder).wf(),
        old(builder).has_all(values@),
        old(builder).has(odd),
        values@.len() > 0,
    ensures
        final(builder).computes_on(*old(builder)),
        final(builder).has_all(r@),
        r@.len() == (values@.len() + 1) / 2,
        forall|w: Seq<u64>, i: int|
            0 <= i < r@.len() && (2 * i + 1 < values@.len() || !is_true(old(builder).val(w, odd)))
                ==> #[trigger] final(builder).val(w, r@[i]) == old(builder).val(
                w,
                values@[if is_true(old(builder).val(w, odd)) {
                    2 * i + 1
                } else {
                    2 * i
                }],
            ),
{
    let ghost b0 = *builder;
    let n: usize = values.len();
    let m: usize = n / 2 + n % 2;
    let mut r: Vec<Wire> = Vec::new();
    for i in 0..m
        invariant
            b0.wf(),
            b0.has_all(values@),
            b0.has(odd),
            builder.computes_on(b0),
            builder.has_all(r@),
            n == values@.len(),
            m == (n + 1) / 2,
            r@.len() == i,
            forall|w: Seq<u64>, k: int|
                0 <= k < i && (2 * k + 1 < n || !is_true(b0.val(w, odd))) ==> #[trigger] builder.val(
                    w,
                    r@[k],
                ) == b0.val(
                    w,
                    values@[if is_true(b0.val(w, odd)) {
                        2 * k + 1
                    } else {
                        2 * k
                    }],
                ),
    {
        let ghost bi = *builder;
        let ghost ri = r@;
        assert(b0.has(values@[2 * i as int]));
        let lo = values[2 * i];
        let picked = if n - 2 * i > 1 {
            assert(b0.has(values@[2 * i + 1]));
            builder.select(odd, values[2 * i + 1], lo)
        } else {
            lo
        };
        r.push(picked);
        proof {
            assert forall|w: Seq<u64>, k: int|
                0 <= k < i + 1 && (2 * k + 1 < n || !is_true(
                    b0.val(w, odd),
                )) implies #[trigger] builder.val(w, r@[k]) == b0.val(
                w,
                values@[if is_true(b0.val(w, odd)) {
                    2 * k + 1
                } else {
                    2 * k
                }],
            ) by {
                if k < i {
                    assert(r@[k] == ri[k]);
                    assert(bi.has(ri[k]));
                    assert(bi.val(w, ri[k]) == b0.val(
                        w,
                        values@[if is_true(b0.val(w, odd)) {
                            2 * k + 1
                        } else {
                            2 * k
                        }],
                    ));
                }
            }
        }
    }
    r
}

/// Balanced multiplexer: the value at `index`, where the index is in range.
pub(crate) fn select_indexed_wire_unchecked(
    builder: &mut CircuitBuilder,
    values: &[Wire],
    index: Wire,
) -> (r: Wire)
    requires
        old(builder).wf(),
        old(builder).has_all(values@),
        old(builder).has(index),
        0 < values@.len() <= 1024,
    ensures
        final(builder).computes_on(*old(builder)),
        final(builder).has(r),
        forall|w: Seq<u64>|
            #![trigger final(builder).val(w, r)]
            old(builder).val(w, index) < values@.len() ==> final(builder).val(w, r) == old(
                builder,
            ).val(w, values@[old(builder).val(w, index) as int]),
{
    let ghost b0 = *builder;
    let n: usize = values.len();
    let mut cur: Vec<Wire> = Vec::new();
    for i in 0..n
        invariant
            n == values@.len(),
            cur@ =~= values@.take(i as int),
    {
        cur.push(values[i]);
    }
    let mut lvl: u32 = 0;
    proof {
        assert(cur@ =~= values@);
        assert forall|w: Seq<u64>| #[trigger] b0.val(w, index) >> 0u64 == b0.val(w, index) by {
            lemma_index_bits(b0.val(w, index), 0);
        }
    }
    while cur.len() > 1
        invariant
            b0.wf(),
            b0.has_all(values@),
            b0.has(index),
            builder.computes_on(b0),
            builder.has_all(cur@),
            0 < values@.len() <= 1024,
            0 < cur@.len() <= 1024,
            lvl <= 10,
            cur@.len() <= 1024 && lvl <= 10,
            lvl == 0 ==> cur@.len() <= 1024,
            lvl == 1 ==> cur@.len() <= 512,
            lvl == 2 ==> cur@.len() <= 256,
            lvl == 3 ==> cur@.len() <= 128,
            lvl == 4 ==> cur@.len() <= 64,
            lvl == 5 ==> cur@.len() <= 32,
            lvl == 6 ==> cur@.len() <= 16,
            lvl == 7 ==> cur@.len() <= 8,
            lvl == 8 ==> cur@.len() <= 4,
            lvl == 9 ==> cur@.len() <= 2,
            lvl == 10 ==> cur@.len() <= 1,
            forall|w: Seq<u64>|
                #![trigger b0.val(w, index)]
                b0.val(w, index) < values@.len() ==> (b0.val(w, index) >> (lvl as u64))
                    < cur@.len() && builder.val(
                    w,
                    cur@[(b0.val(w, index) >> (lvl as u64)) as int],
                ) == b0.val(w, values@[b0.val(w, index) as int]),
        decreases cur@.len(),
    {
        let ghost bi = *builder;
        let ghost ci = cur@;
        let odd = builder.shl(index, 63 - lvl);
        let ghost bo = *builder;
        assert(bo.has_all(ci)) by {
            assert forall|i: int| 0 <= i < ci.len() implies bo.has(#[trigger] ci[i]) by {
                assert(bi.has(ci[i]));
            }
        }
        let next = mux_level(builder, &cur, odd);
        proof {
            assert forall|w: Seq<u64>|
                #![trigger b0.val(w, index)]
                b0.val(w, index) < values@.len() implies (b0.val(w, index) >> ((lvl + 1) as u64))
                < next@.len() && builder.val(
                w,
                next@[(b0.val(w, index) >> ((lvl + 1) as u64)) as int],
            ) == b0.val(w, values@[b0.val(w, index) as int]) by {
                let x = b0.val(w, index);
                lemma_index_bits(x, lvl as u64);
                let p = x >> (lvl as u64);
                let h = x >> ((lvl + 1) as u64);
                assert(bi.val(w, index) == x);
                assert(is_true(bo.val(w, odd)) == (p % 2 == 1));
                assert(bi.has(ci[p as int]));
                assert(bo.val(w, ci[p as int]) == bi.val(w, ci[p as int]));
                assert(h == p / 2);
                assert(builder.val(w, next@[h as int]) == bo.val(
                    w,
                    ci[if is_true(bo.val(w, odd)) {
                        2 * h + 1
                    } else {
                        2 * h as int
                    }],
                ));
            }
        }
        cur = next;
        lvl = lvl + 1;
    }
    let r = cur[0];
    proof {
        assert(builder.has(cur@[0]));
        assert forall|w: Seq<u64>|
            #![trigger builder.val(w, r)]
            b0.val(w, index) < values@.len() implies builder.val(w, r) == b0.val(
            w,
            values@[b0.val(w, index) as int],
        ) by {
            assert((b0.val(w, index) >> (lvl as u64)) == 0);
        }
    }
    r
}

/// The bytes of a list of words, the least significant byte of each word first.
pub(crate) fn unpack_bytes_from_words(
    builder: &mut CircuitBuilder,
    words: &[Wire],
    len_bytes: usize,
) -> (r: Vec<Wire>)
    requires
        old(builder).wf(),
        old(builder).has_all(words@),
        words@.len() == (len_bytes + 7) / 8,
    ensures
        final(builder).computes_on(*old(builder)),
        final(builder).has_all(r@),
        r@.len() == len_bytes,
        forall|w: Seq<u64>, i: int|
            0 <= i < len_bytes ==> #[trigger] final(builder).val(w, r@[i]) == byte_of(
                old(builder).val(w, words@[i / 8]),
                i % 8,
            ),
{
    let ghost b0 = *builder;
    let mut r: Vec<Wire> = Vec::new();
    for i in 0..len_bytes
        invariant
            b0.wf(),
            b0.has_all(words@),
            words@.len() == (len_bytes + 7) / 8,
            builder.computes_on(b0),
            builder.has_all(r@),
            r@.len() == i,
            forall|w: Seq<u64>, k: int|
                0 <= k < i ==> #[trigger] builder.val(w, r@[k]) == byte_of(
                    b0.val(w, words@[k / 8]),
                    k % 8,
                ),
    {
        let ghost bi = *builder;
        let ghost ri = r@;
        assert(b0.has(words@[i as int / 8]));
        let byte = builder.extract_byte(words[i / 8], (i % 8) as u32);
        r.push(byte);
        proof {
            assert forall|w: Seq<u64>, k: int| 0 <= k < i + 1 implies #[trigger] builder.val(
                w,
                r@[k],
            ) == byte_of(b0.val(w, words@[k / 8]), k % 8) by {
                if k < i {
                    assert(r@[k] == ri[k]);
                    assert(bi.has(ri[k]));
                    assert(bi.val(w, ri[k]) == byte_of(b0.val(w, words@[k / 8]), k % 8));
                }
            }
        }
    }
    r
}

} // verus!
