//! Words and the bits that they are made of.
use vstd::prelude::*;

verus! {

/// Bit `t` of a word.
pub open spec fn bit_of(x: u64, t: int) -> bool {
    (x >> (t as u64)) & 1 == 1
}

/// The word whose low `n` bits are those of the stream `f` from `start` on, the first one lowest.
pub open spec fn field_of(f: spec_fn(int) -> bool, start: int, n: nat) -> u64
    decreases n,
{
    if n == 0 {
        0
    } else {
        field_of(f, start, (n - 1) as nat) | (if f(start + n - 1) {
            1u64 << ((n - 1) as u64)
        } else {
            0
        })
    }
}

/// The stream of the bits of a list of words.
pub open spec fn word_stream(words: Seq<u64>) -> spec_fn(int) -> bool {
    |t: int| bit_of(words[t / 64], t % 64)
}

/// The stream of the low six bits of each coefficient.
pub open spec fn w1_stream(coeffs: Seq<u64>) -> spec_fn(int) -> bool {
    |t: int| bit_of(coeffs[t / 6], t % 6)
}

proof fn lemma_bit_ops(x: u64, y: u64, s: u64, t: u64)
    by (bit_vector)
    requires
        s < 64,
        t < 64,
    ensures
        (((x | y) >> t) & 1 == 1) == ((x >> t) & 1 == 1 || (y >> t) & 1 == 1),
        (((x & y) >> t) & 1 == 1) == ((x >> t) & 1 == 1 && (y >> t) & 1 == 1),
        (((1u64 << s) >> t) & 1 == 1) == (s == t),
        (0u64 >> t) & 1 == 0,
        (((x << s) >> t) & 1 == 1) == (t >= s && (x >> ((t - s) as u64)) & 1 == 1),
        (((x >> s) >> t) & 1 == 1) == (s + t < 64 && (x >> ((s + t) as u64)) & 1 == 1),
        (((((1u64 << s) - 1) as u64) >> t) & 1 == 1) == (t < s),
{
}

/// The bits of words combined by `|`, `&` and shifts.
pub proof fn lemma_bits(x: u64, y: u64, s: int, t: int)
    requires
        0 <= s < 64,
        0 <= t < 64,
    ensures
        bit_of(x | y, t) == (bit_of(x, t) || bit_of(y, t)),
        bit_of(x & y, t) == (bit_of(x, t) && bit_of(y, t)),
        bit_of(1u64 << (s as u64), t) == (s == t),
        !bit_of(0, t),
        bit_of(x << (s as u64), t) == (t >= s && bit_of(x, t - s)),
        bit_of(x >> (s as u64), t) == (s + t < 64 && bit_of(x, s + t)),
        bit_of(((1u64 << (s as u64)) - 1) as u64, t) == (t < s),
{
    lemma_bit_ops(x, y, s as u64, t as u64);
}

proof fn lemma_shift_step(x: u64, y: u64, t: u64)
    by (bit_vector)
    requires
        t < 63,
        x >> ((t + 1) as u64) == y >> ((t + 1) as u64),
        ((x >> t) & 1 == 1) == ((y >> t) & 1 == 1),
    ensures
        x >> t == y >> t,
{
}

proof fn lemma_shift_ends(x: u64, y: u64)
    by (bit_vector)
    ensures
        ((x >> 63u64) & 1 == 1) == ((y >> 63u64) & 1 == 1) ==> x >> 63u64 == y >> 63u64,
        x >> 0u64 == x,
        y >> 0u64 == y,
        x < 64 ==> ((x >> 6u64) == 0),
{
}

proof fn lemma_same_shift(x: u64, y: u64, t: int)
    requires
        0 <= t < 64,
        forall|i: int| 0 <= i < 64 ==> #[trigger] bit_of(x, i) == bit_of(y, i),
    ensures
        x >> (t as u64) == y >> (t as u64),
    decreases 64 - t,
{
    lemma_shift_ends(x, y);
    assert(bit_of(x, t) == bit_of(y, t));
    if t < 63 {
        lemma_same_shift(x, y, t + 1);
        lemma_shift_step(x, y, t as u64);
    }
}

/// Words with the same bits are equal.
pub proof fn lemma_same_bits(x: u64, y: u64)
    requires
        forall|i: int| 0 <= i < 64 ==> #[trigger] bit_of(x, i) == bit_of(y, i),
    ensures
        x == y,
{
    lemma_same_shift(x, y, 0);
    lemma_shift_ends(x, y);
}

proof fn lemma_small_bits(x: u64, t: u64)
    by (bit_vector)
    requires
        x < 64,
        6 <= t < 64,
    ensures
        (x >> t) & 1 == 0,
{
}

/// A word below 64 has no bit from the sixth on.
pub proof fn lemma_six_bits(x: u64, t: int)
    requires
        x < 64,
        6 <= t < 64,
    ensures
        !bit_of(x, t),
{
    lemma_small_bits(x, t as u64);
}

/// The bits of a field are those of its stream.
pub proof fn lemma_field_bits(f: spec_fn(int) -> bool, start: int, n: nat, t: int)
    requires
        n <= 64,
        0 <= t < 64,
    ensures
        bit_of(field_of(f, start, n), t) == (t < n && f(start + t)),
    decreases n,
{
    if n == 0 {
        lemma_bits(0, 0, 0, t);
    } else {
        lemma_field_bits(f, start, (n - 1) as nat, t);
        let top = if f(start + n - 1) {
            1u64 << ((n - 1) as u64)
        } else {
            0
        };
        lemma_bits(field_of(f, start, (n - 1) as nat), top, n - 1, t);
    }
}

/// A bit moved to the top decides a selection.
pub proof fn lemma_sign_bit(x: u64, r: u64)
    by (bit_vector)
    requires
        r < 64,
    ensures
        ((((x >> r) & 1) << 63u64) >= 0x8000_0000_0000_0000u64) == ((x >> r) & 1 == 1),
{
}

} // verus!
