//! GHASH field arithmetic: products, squares, inverses and unreduced sums.
use binius64::field::arithmetic_traits::{
    InvertOrZero, Square, TaggedInvertOrZero, TaggedMul, TaggedSquare, WideningMul,
};
use binius64::field::ghash::{M128, M256, WideGhashProduct};
use binius64::field::packed::{
    Ghash256Strategy, OptimalPackedB128, PackedBinaryGhash1x128b, PackedBinaryGhash2x128b,
};
use binius64::field::{BinaryField, BinaryField128bGhash, B128};
use rand::rngs::StdRng;
use rand::{Rng, SeedableRng};

fn random_1x(rng: &mut StdRng) -> PackedBinaryGhash1x128b {
    PackedBinaryGhash1x128b(M128(rng.random()))
}

fn random_2x(rng: &mut StdRng) -> PackedBinaryGhash2x128b {
    PackedBinaryGhash2x128b(M256(rng.random(), rng.random()))
}

fn mul_2x(a: PackedBinaryGhash2x128b, b: PackedBinaryGhash2x128b) -> PackedBinaryGhash2x128b {
    <PackedBinaryGhash2x128b as TaggedMul<Ghash256Strategy>>::mul(a, b)
}

/// Schoolbook product, bit by bit.
fn schoolbook(a: u128, b: u128) -> u128 {
    let mut acc = 0u128;
    let mut shifted = a;
    for i in 0..128 {
        if (b >> i) & 1 == 1 {
            acc ^= shifted;
        }
        let carry = shifted >> 127;
        shifted <<= 1;
        if carry == 1 {
            shifted ^= 0x87;
        }
    }
    acc
}

#[test]
fn test_widening_mul_correctness_1x128() {
    let mut rng = StdRng::seed_from_u64(42);
    for _ in 0..100 {
        let a = random_1x(&mut rng);
        let b = random_1x(&mut rng);
        let wide = PackedBinaryGhash1x128b::widening_mul(a, b);
        let reduced = PackedBinaryGhash1x128b::reduce_wide(wide);
        let direct = a.mul(b);
        assert_eq!(reduced, direct, "reduce(widening_mul(a, b)) must equal a * b");
    }
}

#[test]
fn test_widening_mul_linearity_1x128() {
    let mut rng = StdRng::seed_from_u64(123);
    for _ in 0..100 {
        let (a1, b1) = (random_1x(&mut rng), random_1x(&mut rng));
        let (a2, b2) = (random_1x(&mut rng), random_1x(&mut rng));
        let wide1 = PackedBinaryGhash1x128b::widening_mul(a1, b1);
        let wide2 = PackedBinaryGhash1x128b::widening_mul(a2, b2);
        let sum_reduced = PackedBinaryGhash1x128b::reduce_wide(wide1 + wide2);
        let direct_sum = a1.mul(b1).add(a2.mul(b2));
        assert_eq!(sum_reduced, direct_sum, "reduce(wide1 + wide2) must equal a1*b1 + a2*b2");
    }
}

#[test]
fn test_widening_mul_correctness_optimal() {
    let mut rng = StdRng::seed_from_u64(42);
    for _ in 0..100 {
        let a: OptimalPackedB128 = random_2x(&mut rng);
        let b: OptimalPackedB128 = random_2x(&mut rng);
        let wide = OptimalPackedB128::widening_mul(a, b);
        let reduced = OptimalPackedB128::reduce_wide(wide);
        assert_eq!(reduced, mul_2x(a, b), "reduce(widening_mul(a, b)) must equal a * b");
    }
}

#[test]
fn test_widening_mul_linearity_optimal() {
    let mut rng = StdRng::seed_from_u64(123);
    for _ in 0..100 {
        let (a1, b1) = (random_2x(&mut rng), random_2x(&mut rng));
        let (a2, b2) = (random_2x(&mut rng), random_2x(&mut rng));
        let wide1 = OptimalPackedB128::widening_mul(a1, b1);
        let wide2 = OptimalPackedB128::widening_mul(a2, b2);
        let sum_reduced = OptimalPackedB128::reduce_wide(wide1 + wide2);
        let direct_sum = mul_2x(a1, b1).add(mul_2x(a2, b2));
        assert_eq!(sum_reduced, direct_sum, "reduce(wide1 + wide2) must equal a1*b1 + a2*b2");
    }
}

#[test]
fn test_widening_mul_accumulation() {
    let mut rng = StdRng::seed_from_u64(999);
    let n = 64;
    let a_vals: Vec<OptimalPackedB128> = (0..n).map(|_| random_2x(&mut rng)).collect();
    let b_vals: Vec<OptimalPackedB128> = (0..n).map(|_| random_2x(&mut rng)).collect();

    let wide_sum = a_vals
        .iter()
        .zip(b_vals.iter())
        .map(|(&a, &b)| OptimalPackedB128::widening_mul(a, b))
        .fold(WideGhashProduct::<M256>::default(), |acc, w| acc + w);
    let reduced = OptimalPackedB128::reduce_wide(wide_sum);

    let direct_sum = a_vals
        .iter()
        .zip(b_vals.iter())
        .map(|(&a, &b)| mul_2x(a, b))
        .fold(PackedBinaryGhash2x128b(M256(0, 0)), |acc, p| acc.add(p));

    assert_eq!(
        reduced, direct_sum,
        "Accumulated widening inner product must equal direct inner product"
    );
}

#[test]
fn accumulated_products_do_not_depend_on_their_order() {
    let mut rng = StdRng::seed_from_u64(1000);
    let mut terms: Vec<_> = (0..9)
        .map(|_| OptimalPackedB128::widening_mul(random_2x(&mut rng), random_2x(&mut rng)))
        .collect();
    let forward = terms.iter().fold(WideGhashProduct::<M256>::default(), |acc, &w| acc + w);
    terms.reverse();
    terms.swap(2, 5);
    let shuffled = terms.iter().fold(WideGhashProduct::<M256>::default(), |acc, &w| acc + w);
    assert_eq!(
        OptimalPackedB128::reduce_wide(forward),
        OptimalPackedB128::reduce_wide(shuffled)
    );
    let empty = OptimalPackedB128::reduce_wide(WideGhashProduct::<M256>::default());
    assert_eq!(empty, PackedBinaryGhash2x128b(M256(0, 0)));
}

#[test]
fn products_match_the_schoolbook_method() {
    let mut rng = StdRng::seed_from_u64(7);
    for _ in 0..50 {
        let (a, b): (u128, u128) = (rng.random(), rng.random());
        assert_eq!(
            BinaryField128bGhash(a).mul(BinaryField128bGhash(b)),
            BinaryField128bGhash(schoolbook(a, b))
        );
        let p = PackedBinaryGhash1x128b(M128(a)).mul(PackedBinaryGhash1x128b(M128(b)));
        assert_eq!(p, PackedBinaryGhash1x128b(M128(schoolbook(a, b))));
        let (c, d): (u128, u128) = (rng.random(), rng.random());
        let q = mul_2x(PackedBinaryGhash2x128b(M256(a, c)), PackedBinaryGhash2x128b(M256(b, d)));
        assert_eq!(
            q,
            PackedBinaryGhash2x128b(M256(schoolbook(a, b), schoolbook(c, d)))
        );
    }
}

#[test]
fn products_on_given_values() {
    let mul = |a: u128, b: u128| BinaryField128bGhash(a).mul(BinaryField128bGhash(b)).0;
    assert_eq!(mul(2, 2), 4);
    assert_eq!(mul(1 << 127, 2), 0x87);
    assert_eq!(mul(1 << 64, 1 << 64), 0x87);
    assert_eq!(mul(0xffff, 1), 0xffff);
    assert_eq!(mul(0xffff, 0), 0);
    assert_eq!(mul(0x87, 0x87), 0x4015);
}

#[test]
fn squares_match_products() {
    let mut rng = StdRng::seed_from_u64(8);
    for _ in 0..50 {
        let a = random_1x(&mut rng);
        assert_eq!(a.square(), a.mul(a));
        let b = random_2x(&mut rng);
        let sq = <PackedBinaryGhash2x128b as TaggedSquare<Ghash256Strategy>>::square(b);
        assert_eq!(sq, mul_2x(b, b));
    }
}

/// A nonzero element times its inverse is one, and zero inverts to zero.
#[test]
fn inverses_invert() {
    let mut rng = StdRng::seed_from_u64(9);
    for _ in 0..20 {
        let a = BinaryField128bGhash(rng.random());
        assert_eq!(a.mul(BinaryField::invert_or_zero(a)), B128::one());
        let p = random_1x(&mut rng);
        let inv = InvertOrZero::invert_or_zero(p);
        assert_eq!(p.mul(inv), PackedBinaryGhash1x128b(M128(1)));
        let q = random_2x(&mut rng);
        let inv = <PackedBinaryGhash2x128b as TaggedInvertOrZero<Ghash256Strategy>>::invert_or_zero(q);
        assert_eq!(mul_2x(q, inv), PackedBinaryGhash2x128b(M256(1, 1)));
    }
    assert_eq!(BinaryField::invert_or_zero(B128::zero()), B128::zero());
    assert_eq!(BinaryField::invert_or_zero(B128::one()), B128::one());
    assert_eq!(
        InvertOrZero::invert_or_zero(PackedBinaryGhash1x128b(M128(0))),
        PackedBinaryGhash1x128b(M128(0))
    );
}

/// Squaring 128 times is the identity.
#[test]
fn frobenius_has_order_128() {
    let mut rng = StdRng::seed_from_u64(10);
    for _ in 0..5 {
        let a = BinaryField128bGhash(rng.random());
        let mut b = a;
        for _ in 0..128 {
            b = b.mul(b);
        }
        assert_eq!(a, b);
    }
}

#[test]
fn the_field_is_a_ring() {
    let mut rng = StdRng::seed_from_u64(11);
    for _ in 0..20 {
        let a = BinaryField128bGhash(rng.random());
        let b = BinaryField128bGhash(rng.random());
        let c = BinaryField128bGhash(rng.random());
        assert_eq!(a.mul(b), b.mul(a));
        assert_eq!(a.mul(b).mul(c), a.mul(b.mul(c)));
        assert_eq!(a.mul(b.add(c)), a.mul(b).add(a.mul(c)));
        assert_eq!(a.add(a), B128::zero());
        assert!(a.equals(a) && !a.equals(a.add(B128::one())));
    }
}
