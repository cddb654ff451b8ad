//! GHASH multiplication, squaring and widening products over underliers that offer carry-less
//! multiplication on their 128-bit lanes.
use super::clmul::{
    clmul, clmul64, hi64, lemma_gf_mul_halves, lemma_karatsuba, lemma_square_halves, lemma_xpow64,
    lo64,
};
use super::gf128::{
    gf_mul, lemma_xor128, lemma_xpow_sum, lemma_xpow_xor, lemma_xpow_zero, xpow, POLY,
};
use vstd::prelude::*;

verus! {

/// Underliers made of 128-bit lanes on which carry-less products can be taken.
pub trait ClMulUnderlier: Sized + Copy {
    /// The 128-bit lanes, lowest first.
    spec fn lanes(self) -> Seq<u128>;

    /// The lane-wise XOR.
    spec fn xor_of(self, rhs: Self) -> Self;

    /// The number of lanes of every value of the type.
    spec fn width() -> nat;

    /// Every value has `width()` lanes, and `xor_of` is the XOR of the lanes.
    proof fn lemma_lanes(self, rhs: Self)
        ensures
            self.lanes().len() == Self::width(),
            self.xor_of(rhs).lanes().len() == Self::width(),
            forall|i: int|
                0 <= i < Self::width() ==> #[trigger] self.xor_of(rhs).lanes()[i]
                    == self.lanes()[i] ^ rhs.lanes()[i],
    ;

    /// For each lane, the carry-less product of the half of `a` selected by bit 0 of `IMM8`
    /// and the half of `b` selected by bit 4.
    fn clmulepi64<const IMM8: u32>(a: Self, b: Self) -> (r: Self)
        ensures
            forall|i: int|
                0 <= i < Self::width() ==> #[trigger] r.lanes()[i] == clmul(
                    if IMM8 & 0x01 == 0 {
                        lo64(a.lanes()[i])
                    } else {
                        hi64(a.lanes()[i])
                    },
                    if IMM8 & 0x10 == 0 {
                        lo64(b.lanes()[i])
                    } else {
                        hi64(b.lanes()[i])
                    },
                ),
    ;

    /// For each lane, shifts the lower 64 bits to the upper 64 bits and zeroes the lower 64 bits.
    fn move_64_to_hi(a: Self) -> (r: Self)
        ensures
            forall|i: int|
                0 <= i < Self::width() ==> #[trigger] r.lanes()[i] == a.lanes()[i] << 64u128,
    ;

    /// For each lane, XORs the high and low halves into the low 64 bits; the high 64 bits are
    /// left open.
    fn xor_halves(a: Self) -> (r: Self)
        ensures
            forall|i: int|
                0 <= i < Self::width() ==> lo64(#[trigger] r.lanes()[i]) == lo64(a.lanes()[i])
                    ^ hi64(a.lanes()[i]),
    ;

    /// The lane-wise XOR.
    fn bitxor(self, rhs: Self) -> (r: Self)
        ensures
            r == self.xor_of(rhs),
    ;

    /// The value with every lane equal to `v`.
    fn broadcast_subvalue(v: u128) -> (r: Self)
        ensures
            forall|i: int| 0 <= i < Self::width() ==> #[trigger] r.lanes()[i] == v,
    ;
}

proof fn lemma_imm_bits()
    by (bit_vector)
    ensures
        0x00u32 & 0x01 == 0,
        0x00u32 & 0x10 == 0,
        0x01u32 & 0x01 == 1,
        0x01u32 & 0x10 == 0,
        0x10u32 & 0x01 == 0,
        0x10u32 & 0x10 == 0x10,
        0x11u32 & 0x01 == 1,
        0x11u32 & 0x10 == 0x10,
        lo64(POLY) == POLY as u64,
{
}

/// Whether the lanes of `r` are the field products of the lanes of `x` and `y`.
pub open spec fn is_lane_product<U: ClMulUnderlier>(x: U, y: U, r: U) -> bool {
    &&& r.lanes().len() == U::width()
    &&& forall|i: int|
        0 <= i < U::width() ==> #[trigger] r.lanes()[i] == gf_mul(x.lanes()[i], y.lanes()[i])
}

/// The lane-wise field product.
pub fn mul_clmul<U: ClMulUnderlier>(x: U, y: U) -> (r: U)
    ensures
        is_lane_product(x, y, r),
{
    proof {
        lemma_imm_bits();
    }
    // t1a = x.hi * y.lo
    let t1a = U::clmulepi64::<0x01>(x, y);
    // t1b = x.lo * y.hi
    let t1b = U::clmulepi64::<0x10>(x, y);
    let t1x = t1a.bitxor(t1b);
    // t2 = x.hi * y.hi
    let t2 = U::clmulepi64::<0x11>(x, y);
    let t1 = gf2_128_reduce(t1x, t2);
    // t0 = x.lo * y.lo
    let t0 = U::clmulepi64::<0x00>(x, y);
    let r = gf2_128_reduce(t0, t1);
    proof {
        t1a.lemma_lanes(t1b);
        assert forall|i: int| 0 <= i < U::width() implies #[trigger] r.lanes()[i] == gf_mul(
            x.lanes()[i],
            y.lanes()[i],
        ) by {
            let (a, b) = (x.lanes()[i], y.lanes()[i]);
            lemma_gf_mul_halves(a, b);
            lemma_xor128();
            let c = t1x.lanes()[i];
            let h = t2.lanes()[i];
            assert(c == clmul(lo64(a), hi64(b)) ^ clmul(hi64(a), lo64(b)));
            assert(t1.lanes()[i] == c ^ xpow(h, 64));
            lemma_xpow_xor(c, xpow(h, 64), 64);
            lemma_xpow_sum(h, 64, 64);
        }
    }
    r
}

/// The lane-wise field square.
pub fn square_clmul<U: ClMulUnderlier>(x: U) -> (r: U)
    ensures
        is_lane_product(x, x, r),
{
    proof {
        lemma_imm_bits();
    }
    // The cross terms cancel; t2 = x.hi * x.hi
    let t2 = U::clmulepi64::<0x11>(x, x);
    let t1 = gf2_128_shift_reduce(t2);
    // t0 = x.lo * x.lo
    let t0 = U::clmulepi64::<0x00>(x, x);
    let r = gf2_128_reduce(t0, t1);
    proof {
        assert forall|i: int| 0 <= i < U::width() implies #[trigger] r.lanes()[i] == gf_mul(
            x.lanes()[i],
            x.lanes()[i],
        ) by {
            lemma_square_halves(x.lanes()[i]);
            assert(t1.lanes()[i] == xpow(t2.lanes()[i], 64));
            lemma_xpow_sum(t2.lanes()[i], 64, 64);
        }
    }
    r
}

/// Performs a reduction step: `t0 + x^64 * t1`.
fn gf2_128_reduce<U: ClMulUnderlier>(t0: U, t1: U) -> (r: U)
    ensures
        r.lanes().len() == U::width(),
        forall|i: int|
            0 <= i < U::width() ==> #[trigger] r.lanes()[i] == t0.lanes()[i] ^ xpow(
                t1.lanes()[i],
                64,
            ),
{
    proof {
        lemma_imm_bits();
    }
    let poly = U::broadcast_subvalue(POLY);
    let shifted = U::move_64_to_hi(t1);
    let folded = U::clmulepi64::<0x01>(t1, poly);
    let partial = t0.bitxor(shifted);
    let r = partial.bitxor(folded);
    proof {
        t0.lemma_lanes(shifted);
        partial.lemma_lanes(folded);
        lemma_imm_bits();
        assert forall|i: int| 0 <= i < U::width() implies #[trigger] r.lanes()[i] == t0.lanes()[i]
            ^ xpow(t1.lanes()[i], 64) by {
            lemma_xpow64(t1.lanes()[i]);
            lemma_xor128();
            assert(partial.lanes()[i] == t0.lanes()[i] ^ shifted.lanes()[i]);
            assert(poly.lanes()[i] == POLY);
            assert(folded.lanes()[i] == clmul(hi64(t1.lanes()[i]), lo64(POLY)));
        }
    }
    r
}

/// Returns `x^64 * t` after reduction.
fn gf2_128_shift_reduce<U: ClMulUnderlier>(t: U) -> (r: U)
    ensures
        r.lanes().len() == U::width(),
        forall|i: int| 0 <= i < U::width() ==> #[trigger] r.lanes()[i] == xpow(t.lanes()[i], 64),
{
    proof {
        lemma_imm_bits();
    }
    let poly = U::broadcast_subvalue(POLY);
    let shifted = U::move_64_to_hi(t);
    let folded = U::clmulepi64::<0x01>(t, poly);
    let r = shifted.bitxor(folded);
    proof {
        shifted.lemma_lanes(folded);
        lemma_imm_bits();
        assert forall|i: int| 0 <= i < U::width() implies #[trigger] r.lanes()[i] == xpow(
            t.lanes()[i],
            64,
        ) by {
            lemma_xpow64(t.lanes()[i]);
            assert(poly.lanes()[i] == POLY);
            assert(folded.lanes()[i] == clmul(hi64(t.lanes()[i]), lo64(POLY)));
        }
    }
    r
}

/// An unreduced product of two GF(2^128) elements in Karatsuba form. Products are accumulated
/// by XOR and reduced once at the end.
#[derive(Clone, Copy)]
pub struct WideGhashProduct<U: ClMulUnderlier> {
    /// `x.lo * y.lo`.
    pub lo: U,
    /// `x.hi * y.hi`.
    pub hi: U,
    /// `(x.lo + x.hi) * (y.lo + y.hi)`.
    pub mid: U,
}

/// The field element that three Karatsuba limbs stand for.
pub open spec fn karatsuba_value(lo: u128, hi: u128, mid: u128) -> u128 {
    lo ^ xpow(mid ^ lo ^ hi, 64) ^ xpow(hi, 128)
}

impl<U: ClMulUnderlier> WideGhashProduct<U> {
    /// The field element that lane `i` stands for.
    pub open spec fn value(self, i: int) -> u128 {
        karatsuba_value(self.lo.lanes()[i], self.hi.lanes()[i], self.mid.lanes()[i])
    }

    /// Karatsuba widening multiply: three carry-less products, no reduction.
    pub fn widening_mul(x: U, y: U) -> (r: Self)
        ensures
            forall|i: int|
                #![trigger r.lo.lanes()[i]]
                #![trigger r.hi.lanes()[i]]
                #![trigger r.mid.lanes()[i]]
                0 <= i < U::width() ==> {
                    &&& r.lo.lanes()[i] == clmul(lo64(x.lanes()[i]), lo64(y.lanes()[i]))
                    &&& r.hi.lanes()[i] == clmul(hi64(x.lanes()[i]), hi64(y.lanes()[i]))
                    &&& r.mid.lanes()[i] == clmul(
                        lo64(x.lanes()[i]) ^ hi64(x.lanes()[i]),
                        lo64(y.lanes()[i]) ^ hi64(y.lanes()[i]),
                    )
                },
            forall|i: int|
                0 <= i < U::width() ==> #[trigger] r.value(i) == gf_mul(x.lanes()[i], y.lanes()[i]),
    {
        proof {
            lemma_imm_bits();
        }
        let lo = U::clmulepi64::<0x00>(x, y);
        let hi = U::clmulepi64::<0x11>(x, y);
        let xs = U::xor_halves(x);
        let ys = U::xor_halves(y);
        let mid = U::clmulepi64::<0x00>(xs, ys);
        let r = WideGhashProduct { lo, hi, mid };
        proof {
            assert forall|i: int| 0 <= i < U::width() implies #[trigger] r.value(i) == gf_mul(
                x.lanes()[i],
                y.lanes()[i],
            ) by {
                assert(lo64(xs.lanes()[i]) == lo64(x.lanes()[i]) ^ hi64(x.lanes()[i]));
                assert(lo64(ys.lanes()[i]) == lo64(y.lanes()[i]) ^ hi64(y.lanes()[i]));
                lemma_karatsuba(x.lanes()[i], y.lanes()[i]);
                lemma_gf_mul_halves(x.lanes()[i], y.lanes()[i]);
            }
        }
        r
    }

    /// Reduces the accumulated product to one GF(2^128) element per lane.
    pub fn reduce(self) -> (r: U)
        ensures
            r.lanes().len() == U::width(),
            forall|i: int| 0 <= i < U::width() ==> #[trigger] r.lanes()[i] == self.value(i),
    {
        let ml = self.mid.bitxor(self.lo);
        let cross = ml.bitxor(self.hi);
        let t1 = gf2_128_reduce(cross, self.hi);
        let r = gf2_128_reduce(self.lo, t1);
        proof {
            self.mid.lemma_lanes(self.lo);
            ml.lemma_lanes(self.hi);
            assert forall|i: int| 0 <= i < U::width() implies #[trigger] r.lanes()[i]
                == self.value(i) by {
                assert(ml.lanes()[i] == self.mid.lanes()[i] ^ self.lo.lanes()[i]);
                let c = cross.lanes()[i];
                let h = self.hi.lanes()[i];
                assert(t1.lanes()[i] == c ^ xpow(h, 64));
                lemma_xpow_xor(c, xpow(h, 64), 64);
                lemma_xpow_sum(h, 64, 64);
                lemma_xor128();
            }
        }
        r
    }

    /// The limb-wise sum of two unreduced products.
    pub open spec fn sum_of(self, rhs: Self) -> Self {
        WideGhashProduct {
            lo: self.lo.xor_of(rhs.lo),
            hi: self.hi.xor_of(rhs.hi),
            mid: self.mid.xor_of(rhs.mid),
        }
    }

    /// Adds `rhs` limb by limb.
    pub fn add_assign(&mut self, rhs: Self)
        ensures
            *final(self) == old(self).sum_of(rhs),
    {
        self.lo = self.lo.bitxor(rhs.lo);
        self.hi = self.hi.bitxor(rhs.hi);
        self.mid = self.mid.bitxor(rhs.mid);
    }
}

impl<U: ClMulUnderlier> Default for WideGhashProduct<U> {
    /// The empty sum.
    fn default() -> (r: Self)
        ensures
            forall|i: int| 0 <= i < U::width() ==> #[trigger] r.lo.lanes()[i] == 0,
            forall|i: int| 0 <= i < U::width() ==> #[trigger] r.hi.lanes()[i] == 0,
            forall|i: int| 0 <= i < U::width() ==> #[trigger] r.mid.lanes()[i] == 0,
            forall|i: int| 0 <= i < U::width() ==> #[trigger] r.value(i) == 0,
    {
        let z = U::broadcast_subvalue(0);
        let r = WideGhashProduct { lo: z, hi: z, mid: z };
        proof {
            assert forall|i: int| 0 <= i < U::width() implies #[trigger] r.value(i) == 0 by {
                lemma_wide_zero(r, i);
            }
        }
        r
    }
}

impl<U: ClMulUnderlier> core::ops::Add for WideGhashProduct<U> {
    type Output = Self;

    /// The limb-wise sum.
    fn add(self, rhs: Self) -> Self {
        WideGhashProduct {
            lo: self.lo.bitxor(rhs.lo),
            hi: self.hi.bitxor(rhs.hi),
            mid: self.mid.bitxor(rhs.mid),
        }
    }
}

impl<U: ClMulUnderlier> vstd::std_specs::ops::AddSpecImpl for WideGhashProduct<U> {
    open spec fn obeys_add_spec() -> bool {
        true
    }

    open spec fn add_req(self, rhs: Self) -> bool {
        true
    }

    open spec fn add_spec(self, rhs: Self) -> Self {
        self.sum_of(rhs)
    }
}

/// Reduction is additive: the sum of two unreduced products stands for the sum of what they
/// stand for.
pub proof fn lemma_wide_sum<U: ClMulUnderlier>(a: WideGhashProduct<U>, b: WideGhashProduct<U>, i: int)
    requires
        0 <= i < U::width(),
    ensures
        a.sum_of(b).value(i) == a.value(i) ^ b.value(i),
{
    a.lo.lemma_lanes(b.lo);
    a.hi.lemma_lanes(b.hi);
    a.mid.lemma_lanes(b.mid);
    let (al, ah, am) = (a.lo.lanes()[i], a.hi.lanes()[i], a.mid.lanes()[i]);
    let (bl, bh, bm) = (b.lo.lanes()[i], b.hi.lanes()[i], b.mid.lanes()[i]);
    let s = a.sum_of(b);
    assert(s.lo.lanes()[i] == al ^ bl);
    assert(s.hi.lanes()[i] == ah ^ bh);
    assert(s.mid.lanes()[i] == am ^ bm);
    lemma_xpow_xor(ah, bh, 128);
    lemma_xpow_xor(am ^ al ^ ah, bm ^ bl ^ bh, 64);
    assert((am ^ bm) ^ (al ^ bl) ^ (ah ^ bh) == (am ^ al ^ ah) ^ (bm ^ bl ^ bh)) by (bit_vector);
    let (p, q) = (xpow(am ^ al ^ ah, 64), xpow(bm ^ bl ^ bh, 64));
    let (u, v) = (xpow(ah, 128), xpow(bh, 128));
    assert((al ^ bl) ^ (p ^ q) ^ (u ^ v) == (al ^ p ^ u) ^ (bl ^ q ^ v)) by (bit_vector);
}

/// The empty sum stands for zero.
pub proof fn lemma_wide_zero<U: ClMulUnderlier>(w: WideGhashProduct<U>, i: int)
    requires
        w.lo.lanes()[i] == 0,
        w.hi.lanes()[i] == 0,
        w.mid.lanes()[i] == 0,
    ensures
        w.value(i) == 0,
{
    lemma_xor128();
    lemma_xpow_zero(64);
    lemma_xpow_zero(128);
}

/// The limb-wise sum of a list of unreduced products, from `start` on.
pub open spec fn wide_sum_of<U: ClMulUnderlier>(
    start: WideGhashProduct<U>,
    terms: Seq<WideGhashProduct<U>>,
) -> WideGhashProduct<U>
    decreases terms.len(),
{
    if terms.len() == 0 {
        start
    } else {
        wide_sum_of(start, terms.drop_last()).sum_of(terms.last())
    }
}

/// The sum of the field products of a list of pairs, in lane `i`.
pub open spec fn product_sum_of<U: ClMulUnderlier>(pairs: Seq<(U, U)>, i: int) -> u128
    decreases pairs.len(),
{
    if pairs.len() == 0 {
        0
    } else {
        product_sum_of(pairs.drop_last(), i) ^ gf_mul(
            pairs.last().0.lanes()[i],
            pairs.last().1.lanes()[i],
        )
    }
}

/// One reduction at the end equals reducing every term: the sum of the unreduced products of any
/// number of pairs, from the empty sum on, stands for the sum of their field products.
pub proof fn lemma_wide_accumulation<U: ClMulUnderlier>(
    empty: WideGhashProduct<U>,
    terms: Seq<WideGhashProduct<U>>,
    pairs: Seq<(U, U)>,
    i: int,
)
    requires
        0 <= i < U::width(),
        empty.value(i) == 0,
        terms.len() == pairs.len(),
        forall|k: int|
            0 <= k < terms.len() ==> (#[trigger] terms[k]).value(i) == gf_mul(
                pairs[k].0.lanes()[i],
                pairs[k].1.lanes()[i],
            ),
    ensures
        wide_sum_of(empty, terms).value(i) == product_sum_of(pairs, i),
    decreases terms.len(),
{
    if terms.len() > 0 {
        let (head, last) = (terms.drop_last(), terms.last());
        assert forall|k: int| 0 <= k < head.len() implies (#[trigger] head[k]).value(i) == gf_mul(
            pairs.drop_last()[k].0.lanes()[i],
            pairs.drop_last()[k].1.lanes()[i],
        ) by {
            assert(terms[k].value(i) == gf_mul(pairs[k].0.lanes()[i], pairs[k].1.lanes()[i]));
        }
        lemma_wide_accumulation(empty, head, pairs.drop_last(), i);
        lemma_wide_sum(wide_sum_of(empty, head), last, i);
        assert(terms[terms.len() - 1].value(i) == gf_mul(
            pairs[pairs.len() - 1].0.lanes()[i],
            pairs[pairs.len() - 1].1.lanes()[i],
        ));
    }
}

proof fn lemma_product_sum_fold<U: ClMulUnderlier>(pairs: Seq<(U, U)>, i: int, v: u128)
    ensures
        pairs.fold_right(
            |p: (U, U), acc: u128| acc ^ gf_mul(p.0.lanes()[i], p.1.lanes()[i]),
            v,
        ) == v ^ product_sum_of(pairs, i),
    decreases pairs.len(),
{
    lemma_xor128();
    if pairs.len() > 0 {
        let p = pairs.last();
        lemma_product_sum_fold(
            pairs.drop_last(),
            i,
            v ^ gf_mul(p.0.lanes()[i], p.1.lanes()[i]),
        );
    }
}

/// The order of the terms does not matter: lists of the same pairs have the same sum of products,
/// so that their unreduced sums stand for the same element.
pub proof fn lemma_product_sum_order<U: ClMulUnderlier>(
    pairs: Seq<(U, U)>,
    others: Seq<(U, U)>,
    i: int,
)
    requires
        pairs.to_multiset() == others.to_multiset(),
    ensures
        product_sum_of(pairs, i) == product_sum_of(others, i),
{
    let f = |p: (U, U), acc: u128| acc ^ gf_mul(p.0.lanes()[i], p.1.lanes()[i]);
    lemma_xor128();
    lemma_product_sum_fold(pairs, i, 0);
    lemma_product_sum_fold(others, i, 0);
    assert(vstd::seq_lib::commutative_foldr(f));
    vstd::seq_lib::lemma_fold_right_permutation(pairs, others, f, 0u128);
}

/// The 128-bit underlier: one lane.
#[derive(Clone, Copy, PartialEq, Eq, Structural, Debug)]
pub struct M128(pub u128);

/// The 256-bit underlier: two lanes, lowest first.
#[derive(Clone, Copy, PartialEq, Eq, Structural, Debug)]
pub struct M256(pub u128, pub u128);

/// The carry-less product of one half of `a` and one half of `b`, as `imm` selects them.
fn clmul_lane(a: u128, b: u128, imm: u32) -> (r: u128)
    ensures
        r == clmul(
            if imm & 0x01 == 0 {
                lo64(a)
            } else {
                hi64(a)
            },
            if imm & 0x10 == 0 {
                lo64(b)
            } else {
                hi64(b)
            },
        ),
{
    let p: u64 = if imm & 0x01 == 0 {
        (a & 0xffff_ffff_ffff_ffff) as u64
    } else {
        (a >> 64u128) as u64
    };
    let q: u64 = if imm & 0x10 == 0 {
        (b & 0xffff_ffff_ffff_ffff) as u64
    } else {
        (b >> 64u128) as u64
    };
    clmul64(p, q)
}

/// The XOR of a lane with its halves exchanged.
fn xor_halves_lane(a: u128) -> (r: u128)
    ensures
        lo64(r) == lo64(a) ^ hi64(a),
{
    assert(lo64(a ^ ((a << 64u128) | (a >> 64u128))) == lo64(a) ^ hi64(a)) by (bit_vector);
    a ^ ((a << 64u128) | (a >> 64u128))
}

impl ClMulUnderlier for M128 {
    open spec fn lanes(self) -> Seq<u128> {
        seq![self.0]
    }

    open spec fn xor_of(self, rhs: Self) -> Self {
        M128(self.0 ^ rhs.0)
    }

    open spec fn width() -> nat {
        1
    }

    proof fn lemma_lanes(self, rhs: Self) {
    }

    fn clmulepi64<const IMM8: u32>(a: Self, b: Self) -> Self {
        M128(clmul_lane(a.0, b.0, IMM8))
    }

    fn move_64_to_hi(a: Self) -> Self {
        M128(a.0 << 64u128)
    }

    fn xor_halves(a: Self) -> Self {
        M128(xor_halves_lane(a.0))
    }

    fn bitxor(self, rhs: Self) -> Self {
        M128(self.0 ^ rhs.0)
    }

    fn broadcast_subvalue(v: u128) -> Self {
        M128(v)
    }
}

impl ClMulUnderlier for M256 {
    open spec fn lanes(self) -> Seq<u128> {
        seq![self.0, self.1]
    }

    open spec fn xor_of(self, rhs: Self) -> Self {
        M256(self.0 ^ rhs.0, self.1 ^ rhs.1)
    }

    open spec fn width() -> nat {
        2
    }

    proof fn lemma_lanes(self, rhs: Self) {
    }

    fn clmulepi64<const IMM8: u32>(a: Self, b: Self) -> Self {
        M256(clmul_lane(a.0, b.0, IMM8), clmul_lane(a.1, b.1, IMM8))
    }

    fn move_64_to_hi(a: Self) -> Self {
        M256(a.0 << 64u128, a.1 << 64u128)
    }

    fn xor_halves(a: Self) -> Self {
        M256(xor_halves_lane(a.0), xor_halves_lane(a.1))
    }

    fn bitxor(self, rhs: Self) -> Self {
        M256(self.0 ^ rhs.0, self.1 ^ rhs.1)
    }

    fn broadcast_subvalue(v: u128) -> Self {
        M256(v, v)
    }
}

} // verus!
