//! `w1Encode`, and the packed form of `z` with its norm bound.
use super::bits::{
    bit_of, field_of, lemma_bits, lemma_field_bits, lemma_same_bits, lemma_six_bits, w1_stream,
    word_stream,
};
use super::mldsa44;
use super::util::ix;
use crate::circuit::{lemma_vals_kept, CircuitBuilder, Wire};
use vstd::prelude::*;

verus! {

/// `w1Encode(w1)`: six bits of each coefficient, as a stream of 96 words.
pub open spec fn w1_encode_of(coeffs: Seq<u64>) -> Seq<u64> {
    Seq::new(96, |j: int| field_of(w1_stream(coeffs), 64 * j, 64))
}

/// Whether every word is at most `max`.
pub open spec fn all_at_most(xs: Seq<u64>, max: u64) -> bool {
    forall|i: int| 0 <= i < xs.len() ==> #[trigger] xs[i] <= max
}

/// The packed coefficients `y`: contiguous 18-bit integers, the lowest bit first.
pub open spec fn z_packed_y_of(words: Seq<u64>) -> Seq<u64> {
    Seq::new(1024, |i: int| field_of(word_stream(words), 18 * i, 18))
}

/// Whether `|z| < gamma1 - beta` holds of every coefficient `z = gamma1 - y`.
pub open spec fn z_norm_ok(packed_y: Seq<u64>) -> bool {
    forall|i: int|
        0 <= i < packed_y.len() ==> -(mldsa44::GAMMA1 - mldsa44::BETA) < mldsa44::GAMMA1
            - #[trigger] packed_y[i] < mldsa44::GAMMA1 - mldsa44::BETA
}

/// Asserts that every word is at most `max`.
fn assert_all_at_most(builder: &mut CircuitBuilder, xs: &[Wire], max: u64)
    requires
        old(builder).wf(),
        old(builder).has_all(xs@),
    ensures
        final(builder).extends(*old(builder)),
        forall|w: Seq<u64>|
            #[trigger] final(builder).accepts(w) == (old(builder).accepts(w) && all_at_most(
                old(builder).vals(w, xs@),
                max,
            )),
{
    let ghost b0 = *builder;
    let n: usize = xs.len();
    let max_wire = builder.add_constant_64(max);
    let ghost bz = *builder;
    for i in 0..n
        invariant
            n == xs@.len(),
            b0.wf(),
            b0.has_all(xs@),
            bz.computes_on(b0),
            bz.has(max_wire),
            forall|w: Seq<u64>| #[trigger] bz.val(w, max_wire) == max,
            builder.extends(bz),
            forall|w: Seq<u64>|
                #[trigger] builder.accepts(w) == (b0.accepts(w) && all_at_most(
                    b0.vals(w, xs@).take(ix(i)),
                    max,
                )),
    {
        let ghost bi = *builder;
        assert(b0.has(xs@[ix(i)]));
        let ok = builder.icmp_ule(xs[i], max_wire);
        builder.assert_true(ok);
        proof {
            assert forall|w: Seq<u64>| #[trigger] builder.accepts(w) == (b0.accepts(w)
                && all_at_most(b0.vals(w, xs@).take(i + 1), max)) by {
                let v = b0.vals(w, xs@);
                let (a, b) = (v.take(ix(i)), v.take(i + 1));
                assert(bz.val(w, max_wire) == max);
                assert(bi.val(w, xs@[ix(i)]) == v[ix(i)]);
                if all_at_most(b, max) {
                    assert forall|k: int| 0 <= k < a.len() implies #[trigger] a[k] <= max by {
                        assert(b[k] <= max);
                    }
                    assert(b[ix(i)] <= max);
                }
                if all_at_most(a, max) && v[ix(i)] <= max {
                    assert forall|k: int| 0 <= k < b.len() implies #[trigger] b[k] <= max by {
                        if k < i {
                            assert(a[k] <= max);
                        }
                    }
                }
            }
        }
    }
    proof {
        assert forall|w: Seq<u64>| #[trigger] builder.accepts(w) == (b0.accepts(w) && all_at_most(
            b0.vals(w, xs@),
            max,
        )) by {
            assert(b0.vals(w, xs@).take(ix(n)) =~= b0.vals(w, xs@));
        }
    }
}

/// Encodes `w1` coefficients as `w1Encode(w1)`, and asserts that each is at most 43.
///
/// Each coefficient takes six bits, the lowest first. The 768-byte stream is packed into 96 words.
pub fn mldsa44_encode_w1(builder: &mut CircuitBuilder, w1_coeffs: &[Wire]) -> (r: [Wire;
    mldsa44::W1_ENCODE_WORDS])
    requires
        old(builder).wf(),
        old(builder).has_all(w1_coeffs@),
        w1_coeffs@.len() == mldsa44::W1_COEFFICIENTS,
    ensures
        final(builder).extends(*old(builder)),
        final(builder).has_all(r@),
        forall|w: Seq<u64>|
            #[trigger] final(builder).accepts(w) == (old(builder).accepts(w) && all_at_most(
                old(builder).vals(w, w1_coeffs@),
                mldsa44::W1_COEFF_MAX,
            )),
        forall|w: Seq<u64>|
            #![trigger final(builder).vals(w, r@)]
            all_at_most(old(builder).vals(w, w1_coeffs@), 63) ==> final(builder).vals(w, r@)
                == w1_encode_of(old(builder).vals(w, w1_coeffs@)),
{
    let ghost b0 = *builder;
    assert_all_at_most(builder, w1_coeffs, mldsa44::W1_COEFF_MAX);
    proof {
        lemma_vals_kept(*builder, b0, w1_coeffs@);
    }
    mldsa44_encode_w1_unchecked(builder, w1_coeffs)
}

/// Bits of the encoded words after the first `i` coefficients.
spec fn encoded_upto(v: Seq<u64>, words: Seq<u64>, i: int) -> bool {
    forall|j: int, t: int|
        0 <= j < 96 && 0 <= t < 64 ==> #[trigger] bit_of(words[j], t) == (64 * j + t < 6 * i
            && bit_of(v[(64 * j + t) / 6], (64 * j + t) % 6))
}

proof fn lemma_encode_step(v: Seq<u64>, old_words: Seq<u64>, words: Seq<u64>, i: int)
    requires
        v.len() == 1024,
        all_at_most(v, 63),
        0 <= i < 1024,
        old_words.len() == 96,
        words.len() == 96,
        encoded_upto(v, old_words, i),
        forall|j: int|
            0 <= j < 96 ==> #[trigger] words[j] == (if j == 6 * i / 64 {
                old_words[j] | (v[i] << (((6 * i) % 64) as u64))
            } else if j == 6 * i / 64 + 1 && (6 * i) % 64 > 58 {
                old_words[j] | (v[i] >> ((64 - (6 * i) % 64) as u64))
            } else {
                old_words[j]
            }),
    ensures
        encoded_upto(v, words, i + 1),
{
    let (q, s) = (6 * i / 64, (6 * i) % 64);
    assert(v[i] <= 63);
    assert forall|j: int, t: int| 0 <= j < 96 && 0 <= t < 64 implies #[trigger] bit_of(
        words[j],
        t,
    ) == (64 * j + t < 6 * (i + 1) && bit_of(v[(64 * j + t) / 6], (64 * j + t) % 6)) by {
        let pos = 64 * j + t;
        assert(bit_of(old_words[j], t) == (pos < 6 * i && bit_of(v[pos / 6], pos % 6)));
        if 6 * i <= pos < 6 * i + 6 {
            assert(pos / 6 == i && pos % 6 == pos - 6 * i);
        }
        if j == q {
            lemma_bits(v[i], 0, s, t);
            lemma_bits(old_words[j], v[i] << (s as u64), 0, t);
            if t >= s + 6 {
                lemma_six_bits(v[i], t - s);
            }
        } else if j == q + 1 && s > 58 {
            let l = 64 - s;
            lemma_bits(v[i], 0, l, t);
            lemma_bits(old_words[j], v[i] >> (l as u64), 0, t);
            if 6 <= t + l < 64 {
                lemma_six_bits(v[i], t + l);
            }
        }
    }
}

/// Encodes `w1` coefficients as `w1Encode(w1)`. Where a coefficient exceeds six bits the words are
/// not the encoding.
pub(crate) fn mldsa44_encode_w1_unchecked(
    builder: &mut CircuitBuilder,
    w1_coeffs: &[Wire],
) -> (words: [Wire; mldsa44::W1_ENCODE_WORDS])
    requires
        old(builder).wf(),
        old(builder).has_all(w1_coeffs@),
        w1_coeffs@.len() == mldsa44::W1_COEFFICIENTS,
    ensures
        final(builder).computes_on(*old(builder)),
        final(builder).has_all(words@),
        forall|w: Seq<u64>|
            #![trigger final(builder).vals(w, words@)]
            all_at_most(old(builder).vals(w, w1_coeffs@), 63) ==> final(builder).vals(w, words@)
                == w1_encode_of(old(builder).vals(w, w1_coeffs@)),
{
    let ghost b0 = *builder;
    let ghost cs = w1_coeffs@;
    let zero = builder.add_constant_64(0);
    let mut words = [zero; mldsa44::W1_ENCODE_WORDS];
    proof {
        assert forall|w: Seq<u64>|
            #![trigger builder.vals(w, words@)]
            all_at_most(b0.vals(w, cs), 63) implies encoded_upto(
            b0.vals(w, cs),
            builder.vals(w, words@),
            0,
        ) by {
            assert forall|j: int, t: int| 0 <= j < 96 && 0 <= t < 64 implies !(#[trigger] bit_of(
                builder.vals(w, words@)[j],
                t,
            )) by {
                lemma_bits(0, 0, 0, t);
            }
        }
    }
    for i in 0..1024
        invariant
            b0.wf(),
            b0.has_all(cs),
            cs == w1_coeffs@,
            cs.len() == 1024,
            builder.computes_on(b0),
            builder.has_all(words@),
            words@.len() == 96,
            forall|w: Seq<u64>|
                #![trigger builder.vals(w, words@)]
                all_at_most(b0.vals(w, cs), 63) ==> encoded_upto(
                    b0.vals(w, cs),
                    builder.vals(w, words@),
                    i as int,
                ),
    {
        let ghost bi = *builder;
        let ghost ws = words@;
        let coeff = w1_coeffs[i];
        assert(b0.has(cs[i as int]));
        let bit_offset: usize = i * mldsa44::W1_BITS_PER_COEFF;
        let word_idx: usize = bit_offset / 64;
        let shift: usize = bit_offset % 64;
        assert(bi.has(ws[word_idx as int]));
        let low = builder.shl(coeff, shift as u32);
        let joined = builder.bor(words[word_idx], low);
        words[word_idx] = joined;
        if shift > 64 - mldsa44::W1_BITS_PER_COEFF {
            let low_bits: usize = 64 - shift;
            assert(bi.has(ws[word_idx + 1]));
            let high = builder.shr(coeff, low_bits as u32);
            let joined = builder.bor(words[word_idx + 1], high);
            words[word_idx + 1] = joined;
        }
        proof {
            assert(builder.has_all(words@)) by {
                assert forall|j: int| 0 <= j < 96 implies builder.has(#[trigger] words@[j]) by {
                    assert(bi.has(ws[j]));
                }
            }
            assert forall|w: Seq<u64>|
                #![trigger builder.vals(w, words@)]
                all_at_most(b0.vals(w, cs), 63) implies encoded_upto(
                b0.vals(w, cs),
                builder.vals(w, words@),
                i + 1,
            ) by {
                let v = b0.vals(w, cs);
                let (before, after) = (bi.vals(w, ws), builder.vals(w, words@));
                assert(bi.val(w, coeff) == v[i as int]);
                assert forall|j: int| 0 <= j < 96 implies #[trigger] after[j] == (if j == 6 * i
                    / 64 {
                    before[j] | (v[i as int] << (((6 * i) % 64) as u64))
                } else if j == 6 * i / 64 + 1 && (6 * i) % 64 > 58 {
                    before[j] | (v[i as int] >> ((64 - (6 * i) % 64) as u64))
                } else {
                    before[j]
                }) by {
                    assert(bi.has(ws[j]));
                    assert(bi.val(w, ws[j]) == before[j]);
                }
                lemma_encode_step(v, before, after, i as int);
            }
        }
    }
    proof {
        assert forall|w: Seq<u64>|
            #![trigger builder.vals(w, words@)]
            all_at_most(b0.vals(w, cs), 63) implies builder.vals(w, words@) == w1_encode_of(
            b0.vals(w, cs),
        ) by {
            let v = b0.vals(w, cs);
            let words_v = builder.vals(w, words@);
            assert forall|j: int| 0 <= j < 96 implies #[trigger] words_v[j] == w1_encode_of(
                v,
            )[j] by {
                let target = field_of(w1_stream(v), 64 * j, 64);
                assert forall|t: int| 0 <= t < 64 implies #[trigger] bit_of(words_v[j], t)
                    == bit_of(target, t) by {
                    lemma_field_bits(w1_stream(v), 64 * j, 64, t);
                }
                lemma_same_bits(words_v[j], target);
            }
            assert(words_v =~= w1_encode_of(v));
        }
    }
    words
}

/// Enforces the `z` norm check on decoded coefficients `y = gamma1 - z`, one per wire.
pub fn assert_mldsa44_z_norm_from_packed_y(builder: &mut CircuitBuilder, packed_y_coeffs: &[Wire])
    requires
        old(builder).wf(),
        old(builder).has_all(packed_y_coeffs@),
        packed_y_coeffs@.len() == mldsa44::Z_COEFFICIENTS,
    ensures
        final(builder).extends(*old(builder)),
        forall|w: Seq<u64>|
            #[trigger] final(builder).accepts(w) == (old(builder).accepts(w) && z_norm_ok(
                old(builder).vals(w, packed_y_coeffs@),
            )),
{
    let ghost b0 = *builder;
    let ghost ys = packed_y_coeffs@;
    let min = builder.add_constant_64(mldsa44::Z_NORM_PACKED_Y_MIN);
    let max = builder.add_constant_64(mldsa44::Z_NORM_PACKED_Y_MAX);
    let ghost bz = *builder;
    for i in 0..1024
        invariant
            ys == packed_y_coeffs@,
            ys.len() == 1024,
            b0.wf(),
            b0.has_all(ys),
            bz.computes_on(b0),
            bz.has(min),
            bz.has(max),
            forall|w: Seq<u64>| #[trigger] bz.val(w, min) == 79,
            forall|w: Seq<u64>| #[trigger] bz.val(w, max) == 262065,
            builder.extends(bz),
            forall|w: Seq<u64>|
                #[trigger] builder.accepts(w) == (b0.accepts(w) && z_norm_ok(
                    b0.vals(w, ys).take(ix(i)),
                )),
    {
        let ghost bi = *builder;
        assert(b0.has(ys[ix(i)]));
        let gte_min = builder.icmp_ule(min, packed_y_coeffs[i]);
        let lte_max = builder.icmp_ule(packed_y_coeffs[i], max);
        builder.assert_true(gte_min);
        builder.assert_true(lte_max);
        proof {
            assert forall|w: Seq<u64>| #[trigger] builder.accepts(w) == (b0.accepts(w)
                && z_norm_ok(b0.vals(w, ys).take(i + 1))) by {
                let v = b0.vals(w, ys);
                let (a, b) = (v.take(ix(i)), v.take(i + 1));
                assert(bz.val(w, min) == 79);
                assert(bz.val(w, max) == 262065);
                assert(bi.val(w, ys[ix(i)]) == v[ix(i)]);
                if z_norm_ok(b) {
                    assert forall|k: int| 0 <= k < a.len() implies -(mldsa44::GAMMA1
                        - mldsa44::BETA) < mldsa44::GAMMA1 - #[trigger] a[k] < mldsa44::GAMMA1
                        - mldsa44::BETA by {
                        assert(b[k] == a[k]);
                    }
                    assert(b[ix(i)] == v[ix(i)]);
                }
                if z_norm_ok(a) && 79 <= v[ix(i)] <= 262065 {
                    assert forall|k: int| 0 <= k < b.len() implies -(mldsa44::GAMMA1
                        - mldsa44::BETA) < mldsa44::GAMMA1 - #[trigger] b[k] < mldsa44::GAMMA1
                        - mldsa44::BETA by {
                        if k < i {
                            assert(b[k] == a[k]);
                        }
                    }
                }
            }
        }
    }
    proof {
        assert forall|w: Seq<u64>| #[trigger] builder.accepts(w) == (b0.accepts(w) && z_norm_ok(
            b0.vals(w, ys),
        )) by {
            assert(b0.vals(w, ys).take(1024) =~= b0.vals(w, ys));
        }
    }
}

/// Coefficient `i` of the packed `z`.
fn decode_z_coeff(builder: &mut CircuitBuilder, z_words: &[Wire], i: usize) -> (r: Wire)
    requires
        old(builder).wf(),
        old(builder).has_all(z_words@),
        z_words@.len() == mldsa44::Z_PACKED_WORDS,
        i < mldsa44::Z_COEFFICIENTS,
    ensures
        final(builder).computes_on(*old(builder)),
        final(builder).has(r),
        forall|w: Seq<u64>|
            #[trigger] final(builder).val(w, r) == field_of(
                word_stream(old(builder).vals(w, z_words@)),
                18 * i,
                18,
            ),
{
    let ghost b0 = *builder;
    let ghost zs = z_words@;
    let mask = builder.add_constant_64(0x3_ffff);
    let bit_offset: usize = i * mldsa44::Z_BITS_PER_COEFF;
    let word_idx: usize = bit_offset / 64;
    let shift: usize = bit_offset % 64;
    assert(b0.has(zs[word_idx as int]));
    let low = builder.shr(z_words[word_idx], shift as u32);
    let r = if shift <= 64 - mldsa44::Z_BITS_PER_COEFF {
        builder.band(low, mask)
    } else {
        let low_bits: usize = 64 - shift;
        let high_bits: usize = mldsa44::Z_BITS_PER_COEFF - low_bits;
        assert(b0.has(zs[word_idx + 1]));
        proof {
            lemma_power_range(high_bits as u64);
        }
        let high_mask = builder.add_constant_64((1u64 << high_bits) - 1);
        let high = builder.band(z_words[word_idx + 1], high_mask);
        let high_shifted = builder.shl(high, low_bits as u32);
        let joined = builder.bor(low, high_shifted);
        builder.band(joined, mask)
    };
    proof {
        assert forall|w: Seq<u64>| #[trigger] builder.val(w, r) == field_of(
            word_stream(b0.vals(w, zs)),
            18 * i,
            18,
        ) by {
            let v = b0.vals(w, zs);
            let target = field_of(word_stream(v), 18 * i, 18);
            let value = builder.val(w, r);
            let x = v[word_idx as int];
            lemma_power_range(18);
            assert forall|t: int| 0 <= t < 64 implies #[trigger] bit_of(value, t) == bit_of(
                target,
                t,
            ) by {
                lemma_field_bits(word_stream(v), 18 * i, 18, t);
                let pos = 18 * i + t;
                lemma_bits(0, 0, 18, t);
                lemma_bits(x, 0, shift as int, t);
                let lo = x >> (shift as u64);
                if shift <= 46 {
                    lemma_bits(lo, 0x3ffffu64, 0, t);
                    if t < 18 {
                        assert(pos / 64 == word_idx && pos % 64 == shift + t);
                    }
                } else {
                    let y = v[word_idx + 1];
                    let (l, h) = (64 - shift, 18 - (64 - shift));
                    lemma_power_range(h as u64);
                    let hm = ((1u64 << (h as u64)) - 1) as u64;
                    let hi = y & hm;
                    let hs = hi << (l as u64);
                    lemma_bits(hi, 0, l, t);
                    if t >= l {
                        lemma_bits(y, hm, h, t - l);
                    }
                    lemma_bits(lo, hs, 0, t);
                    lemma_bits(lo | hs, 0x3ffffu64, 0, t);
                    assert(value == (lo | hs) & 0x3ffffu64);
                    if t < 18 {
                        if t < l {
                            assert(pos / 64 == word_idx && pos % 64 == shift + t);
                        } else {
                            assert(pos / 64 == word_idx + 1 && pos % 64 == t - l);
                        }
                    }
                }
            }
            lemma_same_bits(value, target);
        }
    }
    r
}

proof fn lemma_power_range(h: u64)
    by (bit_vector)
    requires
        h < 64,
    ensures
        1u64 << h >= 1,
        1u64 << 18u64 == 0x40000,
{
}

/// Decodes `z` from its packed form: contiguous 18-bit integers `y = gamma1 - z`, one per wire.
pub fn mldsa44_decode_z_packed_y(builder: &mut CircuitBuilder, z_words: &[Wire]) -> (coeffs: Vec<
    Wire,
>)
    requires
        old(builder).wf(),
        old(builder).has_all(z_words@),
        z_words@.len() == mldsa44::Z_PACKED_WORDS,
    ensures
        final(builder).computes_on(*old(builder)),
        final(builder).has_all(coeffs@),
        coeffs@.len() == mldsa44::Z_COEFFICIENTS,
        forall|w: Seq<u64>|
            #[trigger] final(builder).vals(w, coeffs@) == z_packed_y_of(
                old(builder).vals(w, z_words@),
            ),
{
    let ghost b0 = *builder;
    let mut coeffs: Vec<Wire> = Vec::new();
    for i in 0..1024
        invariant
            b0.wf(),
            b0.has_all(z_words@),
            z_words@.len() == mldsa44::Z_PACKED_WORDS,
            builder.computes_on(b0),
            builder.has_all(coeffs@),
            coeffs@.len() == i,
            forall|w: Seq<u64>, k: int|
                0 <= k < i ==> #[trigger] builder.val(w, coeffs@[k]) == z_packed_y_of(
                    b0.vals(w, z_words@),
                )[k],
    {
        let ghost bi = *builder;
        let ghost ci = coeffs@;
        proof {
            lemma_vals_kept(bi, b0, z_words@);
        }
        let coeff = decode_z_coeff(builder, z_words, i);
        coeffs.push(coeff);
        proof {
            assert forall|w: Seq<u64>, k: int| 0 <= k < i + 1 implies #[trigger] builder.val(
                w,
                coeffs@[k],
            ) == z_packed_y_of(b0.vals(w, z_words@))[k] by {
                assert(bi.vals(w, z_words@) == b0.vals(w, z_words@));
                if k < i {
                    assert(coeffs@[k] == ci[k]);
                    assert(bi.has(ci[k]));
                    assert(bi.val(w, ci[k]) == z_packed_y_of(b0.vals(w, z_words@))[k]);
                }
            }
        }
    }
    proof {
        assert forall|w: Seq<u64>| #[trigger] builder.vals(w, coeffs@) == z_packed_y_of(
            b0.vals(w, z_words@),
        ) by {
            assert(builder.vals(w, coeffs@) =~= z_packed_y_of(b0.vals(w, z_words@)));
        }
    }
    coeffs
}

/// Decodes hidden packed `z` and enforces `|z| < gamma1 - beta` on every coefficient.
pub fn assert_mldsa44_z_packed_bytes_norm(
    builder: &mut CircuitBuilder,
    z_words: &[Wire],
) -> (coeffs: Vec<Wire>)
    requires
        old(builder).wf(),
        old(builder).has_all(z_words@),
        z_words@.len() == mldsa44::Z_PACKED_WORDS,
    ensures
        final(builder).extends(*old(builder)),
        final(builder).has_all(coeffs@),
        coeffs@.len() == mldsa44::Z_COEFFICIENTS,
        forall|w: Seq<u64>|
            #[trigger] final(builder).vals(w, coeffs@) == z_packed_y_of(
                old(builder).vals(w, z_words@),
            ),
        forall|w: Seq<u64>|
            #[trigger] final(builder).accepts(w) == (old(builder).accepts(w) && z_norm_ok(
                z_packed_y_of(old(builder).vals(w, z_words@)),
            )),
{
    let ghost b0 = *builder;
    let coeffs = mldsa44_decode_z_packed_y(builder, z_words);
    let ghost b1 = *builder;
    assert_mldsa44_z_norm_from_packed_y(builder, coeffs.as_slice());
    proof {
        lemma_vals_kept(*builder, b1, coeffs@);
        assert forall|w: Seq<u64>| #[trigger] builder.accepts(w) == (b0.accepts(w) && z_norm_ok(
            z_packed_y_of(b0.vals(w, z_words@)),
        )) by {
            assert(b1.vals(w, coeffs@) == z_packed_y_of(b0.vals(w, z_words@)));
        }
        assert forall|w: Seq<u64>| #[trigger] builder.vals(w, coeffs@) == z_packed_y_of(
            b0.vals(w, z_words@),
        ) by {
            assert(b1.vals(w, coeffs@) == z_packed_y_of(b0.vals(w, z_words@)));
        }
    }
    coeffs
}

/// The encoding of `w1` can be read back: bits `6 i` to `6 i + 5` of the stream are coefficient `i`.
pub proof fn lemma_w1_encode_reads_back(coeffs: Seq<u64>, i: int)
    requires
        coeffs.len() == 1024,
        all_at_most(coeffs, 63),
        0 <= i < 1024,
    ensures
        field_of(word_stream(w1_encode_of(coeffs)), 6 * i, 6) == coeffs[i],
{
    let words = w1_encode_of(coeffs);
    let value = field_of(word_stream(words), 6 * i, 6);
    assert(coeffs[i] <= 63);
    assert forall|t: int| 0 <= t < 64 implies #[trigger] bit_of(value, t) == bit_of(
        coeffs[i],
        t,
    ) by {
        lemma_field_bits(word_stream(words), 6 * i, 6, t);
        if t < 6 {
            let pos = 6 * i + t;
            let (j, k) = (pos / 64, pos % 64);
            assert(0 <= j < 96);
            lemma_field_bits(w1_stream(coeffs), 64 * j, 64, k);
            assert(64 * j + k == pos);
            assert(pos / 6 == i && pos % 6 == t);
        } else {
            lemma_six_bits(coeffs[i], t);
        }
    }
    lemma_same_bits(value, coeffs[i]);
}

/// The decoded coefficients determine the packed `z`: every bit of every word belongs to one of
/// them.
pub proof fn lemma_z_decode_injective(a: Seq<u64>, b: Seq<u64>)
    requires
        a.len() == 288,
        b.len() == 288,
        z_packed_y_of(a) == z_packed_y_of(b),
    ensures
        a == b,
{
    assert forall|j: int| 0 <= j < 288 implies #[trigger] a[j] == b[j] by {
        assert forall|k: int| 0 <= k < 64 implies #[trigger] bit_of(a[j], k) == bit_of(b[j], k) by {
            let pos = 64 * j + k;
            let (i, t) = (pos / 18, pos % 18);
            assert(0 <= i < 1024);
            assert(pos / 64 == j && pos % 64 == k);
            assert(18 * i + t == pos);
            lemma_field_bits(word_stream(a), 18 * i, 18, t);
            lemma_field_bits(word_stream(b), 18 * i, 18, t);
            assert(z_packed_y_of(a)[i] == field_of(word_stream(a), 18 * i, 18));
            assert(z_packed_y_of(b)[i] == field_of(word_stream(b), 18 * i, 18));
            assert(word_stream(a)(pos) == bit_of(a[j], k));
            assert(word_stream(b)(pos) == bit_of(b[j], k));
        }
        lemma_same_bits(a[j], b[j]);
    }
    assert(a =~= b);
}

/// Where the bits of a decoded coefficient come from: bit `t` of coefficient `i` is bit `18 i + t` of
/// the packed words, the least significant bit of the first word being the first, and a coefficient has
/// 18 bits.
pub proof fn lemma_z_decode_bits(words: Seq<u64>, i: int, t: int, j: int, k: int)
    requires
        0 <= i < 1024,
        0 <= t < 18,
        0 <= k < 64,
        64 * j + k == 18 * i + t,
    ensures
        z_packed_y_of(words).len() == 1024,
        bit_of(z_packed_y_of(words)[i], t) == bit_of(words[j], k),
        forall|u: int| 18 <= u < 64 ==> !#[trigger] bit_of(z_packed_y_of(words)[i], u),
{
    let pos = 18 * i + t;
    assert(pos / 64 == j && pos % 64 == k);
    lemma_field_bits(word_stream(words), 18 * i, 18, t);
    assert forall|u: int| 18 <= u < 64 implies !#[trigger] bit_of(z_packed_y_of(words)[i], u) by {
        lemma_field_bits(word_stream(words), 18 * i, 18, u);
    }
}

} // verus!
