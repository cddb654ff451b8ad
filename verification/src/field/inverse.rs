//! Every nonzero element of GF(2^128) has an inverse: its power with exponent `2^128 - 2`.
//!
//! Squaring is linear. Applied 128 times it is the identity, because it fixes `x`, so that `a^(2^128)
//! = a` for every `a`. Hence `a^(2^128 - 1)` is its own square, and zero and one are the only
//! elements that are.
use super::gf128::{
    bit128, gf_mul, gf_pow, lemma_gf_mul_assoc, lemma_gf_mul_comm, lemma_gf_mul_units,
    lemma_gf_mul_xor, lemma_gf_mul_xpow, lemma_low_part_step, lemma_mul_upto_monomial,
    lemma_xor128, lemma_xpow_one, lemma_xpow_sum, low_part, xpow, xtime,
};
use vstd::arithmetic::power2::{lemma2_to64, lemma_pow2_adds, lemma_pow2_unfold, pow2};
use vstd::prelude::*;

verus! {

/// The bits of `x` moved to the even places.
spec fn spread(x: u64) -> u128 {
    let a = x as u128;
    let b = (a | (a << 32u128)) & 0x00000000ffffffff00000000ffffffffu128;
    let c = (b | (b << 16u128)) & 0x0000ffff0000ffff0000ffff0000ffffu128;
    let d = (c | (c << 8u128)) & 0x00ff00ff00ff00ff00ff00ff00ff00ffu128;
    let e = (d | (d << 4u128)) & 0x0f0f0f0f0f0f0f0f0f0f0f0f0f0f0f0fu128;
    let f = (e | (e << 2u128)) & 0x33333333333333333333333333333333u128;
    (f | (f << 1u128)) & 0x55555555555555555555555555555555u128
}

/// The square, from the spread halves and the reduction of the high one.
spec fn squared(x: u128) -> u128 {
    let lo = spread(x as u64);
    let hi = spread((x >> 64u128) as u64);
    let over = (hi >> 121u128) ^ (hi >> 126u128) ^ (hi >> 127u128);
    lo ^ hi ^ (hi << 1u128) ^ (hi << 2u128) ^ (hi << 7u128) ^ over ^ (over << 1u128) ^ (over
        << 2u128) ^ (over << 7u128)
}

/// Zero and one are the only elements that are their own squares.
proof fn lemma_fixed(x: u128)
    by (bit_vector)
    requires
        squared(x) == x,
    ensures
        x == 0 || x == 1,
{
}

proof fn lemma_squared_bits(a: u128, b: u128, i: u128)
    by (bit_vector)
    requires
        i < 127,
    ensures
        squared(a ^ b) == squared(a) ^ squared(b),
        squared(0) == 0,
        squared(1) == 1,
        squared(1u128 << ((i + 1) as u128)) == xtime(xtime(squared(1u128 << i))),
        1u128 << 0u128 == 1,
        1u128 << 1u128 == 2,
{
}

/// The squares of the monomials.
proof fn lemma_squared_monomial(n: nat)
    requires
        n < 128,
    ensures
        squared(1u128 << (n as u128)) == gf_mul(1u128 << (n as u128), 1u128 << (n as u128)),
        squared(1u128 << (n as u128)) == xpow(1, 2 * n),
    decreases n,
{
    let m = 1u128 << (n as u128);
    if n == 0 {
        lemma_squared_bits(0, 0, 0);
        lemma_gf_mul_units(1);
    } else {
        lemma_squared_monomial((n - 1) as nat);
        lemma_squared_bits(0, 0, (n - 1) as u128);
        assert(xpow(1, 2 * n) == xtime(xpow(1, (2 * n - 1) as nat)));
        assert(xpow(1, (2 * n - 1) as nat) == xtime(xpow(1, (2 * n - 2) as nat)));
        assert((2 * n - 2) as nat == 2 * (n - 1) as nat);
        lemma_mul_upto_monomial(m, n, 128);
        lemma_xpow_one(n);
        lemma_xpow_sum(1, n, n);
    }
}

/// The square of a sum is the sum of the squares.
proof fn lemma_square_sum(a: u128, b: u128)
    ensures
        gf_mul(a ^ b, a ^ b) == gf_mul(a, a) ^ gf_mul(b, b),
{
    lemma_gf_mul_xor(a, b, a ^ b);
    lemma_gf_mul_xor(a, a, b);
    lemma_gf_mul_xor(b, a, b);
    lemma_gf_mul_comm(a, b);
    let (p, q, r) = (gf_mul(a, a), gf_mul(a, b), gf_mul(b, b));
    lemma_xor128();
    assert((p ^ q) ^ (q ^ r) == p ^ (q ^ (q ^ r)));
}

proof fn lemma_squared_upto(a: u128, n: nat)
    requires
        n <= 128,
    ensures
        squared(low_part(a, n)) == gf_mul(low_part(a, n), low_part(a, n)),
    decreases n,
{
    lemma_squared_bits(0, 0, 0);
    lemma_gf_mul_units(0);
    lemma_low_part_step(a, 0);
    if n > 0 {
        let k = (n - 1) as nat;
        lemma_squared_upto(a, k);
        lemma_low_part_step(a, k);
        let t = if bit128(a, k) {
            1u128 << (k as u128)
        } else {
            0
        };
        lemma_squared_bits(low_part(a, k), t, 0);
        lemma_square_sum(low_part(a, k), t);
        lemma_squared_monomial(k);
    }
}

/// The bit form of the square is the square.
proof fn lemma_squared(a: u128)
    ensures
        squared(a) == gf_mul(a, a),
{
    lemma_squared_upto(a, 128);
}

/// `a^(2^k)`.
spec fn frobenius(a: u128, k: nat) -> u128
    decreases k,
{
    if k == 0 {
        a
    } else {
        let f = frobenius(a, (k - 1) as nat);
        gf_mul(f, f)
    }
}

proof fn lemma_frobenius_hom(a: u128, b: u128, k: nat)
    ensures
        frobenius(a ^ b, k) == frobenius(a, k) ^ frobenius(b, k),
        frobenius(gf_mul(a, b), k) == gf_mul(frobenius(a, k), frobenius(b, k)),
        frobenius(0, k) == 0,
        frobenius(1, k) == 1,
    decreases k,
{
    lemma_gf_mul_units(0);
    lemma_gf_mul_units(1);
    if k > 0 {
        let j = (k - 1) as nat;
        lemma_frobenius_hom(a, b, j);
        let (p, q) = (frobenius(a, j), frobenius(b, j));
        lemma_square_sum(p, q);
        lemma_gf_mul_assoc(p, q, gf_mul(p, q));
        lemma_gf_mul_assoc(q, p, q);
        lemma_gf_mul_comm(q, p);
        lemma_gf_mul_assoc(p, q, q);
        lemma_gf_mul_assoc(p, p, gf_mul(q, q));
    }
}

proof fn lemma_chain()
    by (bit_vector)
    ensures
        squared(0x2u128) == 0x4u128,
        squared(0x4u128) == 0x10u128,
        squared(0x10u128) == 0x100u128,
        squared(0x100u128) == 0x10000u128,
        squared(0x10000u128) == 0x100000000u128,
        squared(0x100000000u128) == 0x10000000000000000u128,
        squared(0x10000000000000000u128) == 0x87u128,
        squared(0x87u128) == 0x4015u128,
        squared(0x4015u128) == 0x10000111u128,
        squared(0x10000111u128) == 0x100000000010101u128,
        squared(0x100000000010101u128) == 0x10000000000000000000100010001u128,
        squared(0x10000000000000000000100010001u128) == 0x87000000010000000100000001u128,
        squared(0x87000000010000000100000001u128) == 0x21caea0000000000000086u128,
        squared(0x21caea0000000000000086u128) == 0x21cae93f7cfc8u128,
        squared(0x21cae93f7cfc8u128) == 0x4015044544105551550555040u128,
        squared(0x4015044544105551550555040u128) == 0x1001001111110961118fe6196978ef70u128,
        squared(0x1001001111110961118fe6196978ef70u128) == 0x860140d2541486c693c692c775187987u128,
        squared(0x860140d2541486c693c692c775187987u128) == 0x8b69509b312d6501ea618e11df04ea1eu128,
        squared(0x8b69509b312d6501ea618e11df04ea1eu128) == 0xb715594eb7756558cad0352d30b311b4u128,
        squared(0xb715594eb7756558cad0352d30b311b4u128) == 0x1afdeffd35e5fde54e1a6f865fe82b9u128,
        squared(0x1afdeffd35e5fde54e1a6f865fe82b9u128) == 0x11b4a30358935542218289f09c0659edu128,
        squared(0x11b4a30358935542218289f09c0659edu128) == 0x83a513579eda579397b14587eebe264du128,
        squared(0x83a513579eda579397b14587eebe264du128) == 0x83ad91f69582bddf38d15180f9de45adu128,
        squared(0x83ad91f69582bddf38d15180f9de45adu128) == 0xc7f8a41756ad614d1a97936b620f481du128,
        squared(0xc7f8a41756ad614d1a97936b620f481du128) == 0xbb844bf6957599a6e94bf5687ccf4c39u128,
        squared(0xbb844bf6957599a6e94bf5687ccf4c39u128) == 0x2c3bd83d0661350d5aadb3837634c244u128,
        squared(0x2c3bd83d0661350d5aadb3837634c244u128) == 0x24f6fc2353c7f2321f726995c3f33829u128,
        squared(0x24f6fc2353c7f2321f726995c3f33829u128) == 0x150e344316f35f82a5b7efc52c5e9c53u128,
        squared(0x150e344316f35f82a5b7efc52c5e9c53u128) == 0xcbe66ebbc72d228a891738c79d5ad319u128,
        squared(0xcbe66ebbc72d228a891738c79d5ad319u128) == 0xd331a77342cf2867fbb824714f38f6c2u128,
        squared(0xd331a77342cf2867fbb824714f38f6c2u128) == 0x60dcdee4d2f1fc9262609e6968de22b0u128,
        squared(0x60dcdee4d2f1fc9262609e6968de22b0u128) == 0x782d0a995dd3b01821777af80695052au128,
        squared(0x782d0a995dd3b01821777af80695052au128) == 0xcec3202236b9330fde0a74a95b11a7b2u128,
        squared(0xcec3202236b9330fde0a74a95b11a7b2u128) == 0xcad1b2dd09125a5f800a7b44dd8e7a70u128,
        squared(0xcad1b2dd09125a5f800a7b44dd8e7a70u128) == 0xd3f537e04c700e277016c540c190dd74u128,
        squared(0xd3f537e04c700e277016c540c190dd74u128) == 0x20b022e1c1d1bc0809bbaa007aff17a4u128,
        squared(0x20b022e1c1d1bc0809bbaa007aff17a4u128) == 0x1c621e475a73acaea5ea62f173a564deu128,
        squared(0x1c621e475a73acaea5ea62f173a564deu128) == 0xeaab3a58b8a02fe2c1d3ada9e183a6f8u128,
        squared(0xeaab3a58b8a02fe2c1d3ada9e183a6f8u128) == 0xdffeae5cfc8592a22ee29c077314ee0du128,
        squared(0xdffeae5cfc8592a22ee29c077314ee0du128) == 0x1854548bb6f4de8e1794c9c6116bca12u128,
        squared(0x1854548bb6f4de8e1794c9c6116bca12u128) == 0xa7ddbe68af10b36c5046371c4cc9eaa8u128,
        squared(0xa7ddbe68af10b36c5046371c4cc9eaa8u128) == 0xc7c20e0075b34cb3e77bd7620dd51099u128,
        squared(0xc7c20e0075b34cb3e77bd7620dd51099u128) == 0xeed7a7597ab9140ee385088258930c85u128,
        squared(0xeed7a7597ab9140ee385088258930c85u128) == 0xd3807dd9d6a39649d9bf3b428f207eecu128,
        squared(0xd3807dd9d6a39649d9bf3b428f207eecu128) == 0x64fb855fc75b066a7d1adaba58301148u128,
        squared(0x64fb855fc75b066a7d1adaba58301148u128) == 0x710a093e99bb9946aba3d15b0b675aaau128,
        squared(0x710a093e99bb9946aba3d15b0b675aaau128) == 0xafc267d97044a1c866216c6f770b3b1eu128,
        squared(0xafc267d97044a1c866216c6f770b3b1eu128) == 0xe316b61772920218fe1d7816d9eb81fdu128,
        squared(0xe316b61772920218fe1d7816d9eb81fdu128) == 0xfbcf8c1e442c8cf5b87c1159421de6c0u128,
        squared(0xfbcf8c1e442c8cf5b87c1159421de6c0u128) == 0x4d328e5ae8b1bde5687634c0bd8f66a6u128,
        squared(0x4d328e5ae8b1bde5687634c0bd8f66a6u128) == 0x4d758c29eeb484f7c8b21bf16608e4dbu128,
        squared(0x4d758c29eeb484f7c8b21bf16608e4dbu128) == 0x97da6d2e8f7686d939b53119c4b7496u128,
        squared(0x97da6d2e8f7686d939b53119c4b7496u128) == 0x60488351c7403436ccbb31a458da0423u128,
        squared(0x60488351c7403436ccbb31a458da0423u128) == 0x3c5814a4c792b3beaba321469362905fu128,
        squared(0x3c5814a4c792b3beaba321469362905fu128) == 0xf6fd92c58b52c44dfbcf513b18b860f7u128,
        squared(0xf6fd92c58b52c44dfbcf513b18b860f7u128) == 0x740252435434bd93e213b075ac781973u128,
        squared(0x740252435434bd93e213b075ac781973u128) == 0xb7740311b0146782bb228613735755a8u128,
        squared(0xb7740311b0146782bb228613735755a8u128) == 0x14a4e774428f86a14e059e6f77db9735u128,
        squared(0x14a4e774428f86a14e059e6f77db9735u128) == 0x9f07d44ae7b5f72d6728ba4f8b5ad996u128,
        squared(0x9f07d44ae7b5f72d6728ba4f8b5ad996u128) == 0x783e0e827a3c43a2e68d429870a86444u128,
        squared(0x783e0e827a3c43a2e68d429870a86444u128) == 0x9ed6f0fd3b898356dddef6f866a8cb3au128,
        squared(0x9ed6f0fd3b898356dddef6f866a8cb3au128) == 0x3dd46c137e3f5775ac6ea52692d6e84fu128,
        squared(0x3dd46c137e3f5775ac6ea52692d6e84fu128) == 0xf64e2b2e01a1818581aae137a9a1f2acu128,
        squared(0xf64e2b2e01a1818581aae137a9a1f2acu128) == 0x61651fea6b5832b944e598a795a299f6u128,
        squared(0x61651fea6b5832b944e598a795a299f6u128) == 0x7c9d30e6ed40cbc30e4292c6d87e2a65u128,
        squared(0x7c9d30e6ed40cbc30e4292c6d87e2a65u128) == 0xc2c57e31da2ff653d47f657d9736a3bcu128,
        squared(0xc2c57e31da2ff653d47f657d9736a3bcu128) == 0xe325ada8d4bf8eff55cb32146561a494u128,
        squared(0xe325ada8d4bf8eff55cb32146561a494u128) == 0xbf884491f010fcf92b42640baf97546au128,
        squared(0xbf884491f010fcf92b42640baf97546au128) == 0x744ff1cc6c4147e96f55c63e138b0f6au128,
        squared(0x744ff1cc6c4147e96f55c63e138b0f6au128) == 0xf72d4a117bba9cee44bd30ca7a959c35u128,
        squared(0xf72d4a117bba9cee44bd30ca7a959c35u128) == 0x31f9706e56dcd7c9dd3c39ec2fcb97ecu128,
        squared(0x31f9706e56dcd7c9dd3c39ec2fcb97ecu128) == 0xcafd0f1dee4b13f4f9104edc7cd7c419u128,
        squared(0xcafd0f1dee4b13f4f9104edc7cd7c419u128) == 0xc6b603373b7fff4c92f4024ed5a0366eu128,
        squared(0xc6b603373b7fff4c92f4024ed5a0366eu128) == 0xfb4b047c029d81bde9408400053759bbu128,
        squared(0xfb4b047c029d81bde9408400053759bbu128) == 0x5c12435b486ac2b0022c6b03d1e52223u128,
        squared(0x5c12435b486ac2b0022c6b03d1e52223u128) == 0xdeb4814466d6d45600cb1be4b63b5b3du128,
        squared(0xdeb4814466d6d45600cb1be4b63b5b3du128) == 0x1c8f0314c1ca2c6a235138002e3dec62u128,
        squared(0x1c8f0314c1ca2c6a235138002e3dec62u128) == 0xaa94fa2a07db8f59b4fa968f61ea5bd8u128,
        squared(0xaa94fa2a07db8f59b4fa968f61ea5bd8u128) == 0xbaed1a1f49ca7f891ec3403efa66966eu128,
        squared(0xbaed1a1f49ca7f891ec3403efa66966eu128) == 0x79a3d532b4dca977042a87c2811ee47au128,
        squared(0x79a3d532b4dca977042a87c2811ee47au128) == 0xca74daf67fe0c93b13581fc7a95df199u128,
        squared(0xca74daf67fe0c93b13581fc7a95df199u128) == 0x92d3f21915a271738441bd78c444ed45u128,
        squared(0x92d3f21915a271738441bd78c444ed45u128) == 0x52525b16c4db307dfc4ce06bfdce9edu128,
        squared(0x52525b16c4db307dfc4ce06bfdce9edu128) == 0x59a044e544805b9900ed08440dda5ebau128,
        squared(0x59a044e544805b9900ed08440dda5ebau128) == 0xd6648859781bb4ef7800914cc52e273bu128,
        squared(0xd6648859781bb4ef7800914cc52e273bu128) == 0x28266451a0c9c61d9ad1a02c574e9631u128,
        squared(0x28266451a0c9c61d9ad1a02c574e9631u128) == 0x7c8647672078f3f4cd3c813afb78aa38u128,
        squared(0x7c8647672078f3f4cd3c813afb78aa38u128) == 0x92c0cf343ae063ad494fdfab6df42306u128,
        squared(0x92c0cf343ae063ad494fdfab6df42306u128) == 0x5574a07cca7cd737aca6f91a6abde544u128,
        squared(0x5574a07cca7cd737aca6f91a6abde544u128) == 0xbbada747894bc3dd879287c869f885c3u128,
        squared(0xbbada747894bc3dd879287c869f885c3u128) == 0x386db41096f62a8af50e0632f2a35f5bu128,
        squared(0x386db41096f62a8af50e0632f2a35f5bu128) == 0xefdb4540536482251843656b2ea8f397u128,
        squared(0xefdb4540536482251843656b2ea8f397u128) == 0x864204566cee644df1c52011971b40b3u128,
        squared(0x864204566cee644df1c52011971b40b3u128) == 0x9f65220d0c78fc67048e86e374780c55u128,
        squared(0x9f65220d0c78fc67048e86e374780c55u128) == 0x6c3124a15e087d323caadfab02ea679du128,
        squared(0x6c3124a15e087d323caadfab02ea679du128) == 0x40e2dfc1450698cadca8758ed620dd7bu128,
        squared(0x40e2dfc1450698cadca8758ed620dd7bu128) == 0x217bea750913f0db29e30e4d37b882a1u128,
        squared(0x217bea750913f0db29e30e4d37b882a1u128) == 0x18cc9c758f82f3a62452c0f06b2d5154u128,
        squared(0x18cc9c758f82f3a62452c0f06b2d5154u128) == 0xa2f988953ebab6d6ff4fc66638b9c77cu128,
        squared(0xa2f988953ebab6d6ff4fc66638b9c77cu128) == 0x8b621a33b1f55be1b5cf3dbe01503955u128,
        squared(0x8b621a33b1f55be1b5cf3dbe01503955u128) == 0xa6403e49a18fdcec5bad32ffd131adf1u128,
        squared(0xa6403e49a18fdcec5bad32ffd131adf1u128) == 0xc7213453b5a004318da7ee035acac1d8u128,
        squared(0xc7213453b5a004318da7ee035acac1d8u128) == 0xfab85890c72cf5bd42908c445873de98u128,
        squared(0xfab85890c72cf5bd42908c445873de98u128) == 0x18fb3bc896b15739aba9209e72802626u128,
        squared(0x18fb3bc896b15739aba9209e72802626u128) == 0xe2ae4c18bc72d0b5584b1b8ff9fdbe53u128,
        squared(0xe2ae4c18bc72d0b5584b1b8ff9fdbe53u128) == 0xbf7fe7e158f5e6b627fbbc64727757a3u128,
        squared(0xbf7fe7e158f5e6b627fbbc64727757a3u128) == 0x74349545e390b89fc3ef36c9b75a0400u128,
        squared(0x74349545e390b89fc3ef36c9b75a0400u128) == 0xb377c7044aeb289debaf56677af1691du128,
        squared(0xb377c7044aeb289debaf56677af1691du128) == 0xdd4a597abff1c6d46b3da5829a07e0fu128,
        squared(0xdd4a597abff1c6d46b3da5829a07e0fu128) == 0x390a7a5685925c88fb31442bbbee4562u128,
        squared(0x390a7a5685925c88fb31442bbbee4562u128) == 0xef0226d7d8c4f9088d931140ce80f4cau128,
        squared(0xef0226d7d8c4f9088d931140ce80f4cau128) == 0xc77a431b17442dc246bdf85b5f5764d5u128,
        squared(0xc77a431b17442dc246bdf85b5f5764d5u128) == 0xaaf58d8527dbb51e9cb66967210ef752u128,
        squared(0xaaf58d8527dbb51e9cb66967210ef752u128) == 0xbea766c2fd57dce012c3142c06e2acc1u128,
        squared(0xbea766c2fd57dce012c3142c06e2acc1u128) == 0x718b86e46755b667022ba9c65acbed68u128,
        squared(0x718b86e46755b667022ba9c65acbed68u128) == 0xeba2e73f8e06f46e77a7af910537779du128,
        squared(0xeba2e73f8e06f46e77a7af910537779du128) == 0x9a6d9a22e2bcf10bebbd0f52366f13acu128,
        squared(0x9a6d9a22e2bcf10bebbd0f52366f13acu128) == 0x30930047648b0f33ab2b66ce2a82776cu128,
        squared(0x30930047648b0f33ab2b66ce2a82776cu128) == 0xdf6441de141c2ab56015a35f3e3c8cc5u128,
        squared(0xdf6441de141c2ab56015a35f3e3c8cc5u128) == 0x821656934ab0df98a24abe27faf17b9u128,
        squared(0x821656934ab0df98a24abe27faf17b9u128) == 0x6186189d20b819418606bb0e28094f06u128,
        squared(0x6186189d20b819418606bb0e28094f06u128) == 0x2cb2ca78e3a46e6118637a81b61a75a5u128,
        squared(0x2cb2ca78e3a46e6118637a81b61a75a5u128) == 0x34d34d3086928aeaebacd53e52b72998u128,
        squared(0x34d34d3086928aeaebacd53e52b72998u128) == 0xc71c71c308249e75db490028e7b6cf92u128,
        squared(0xc71c71c308249e75db490028e7b6cf92u128) == 0xebaebefbebaeb6db75d751453cf3b6acu128,
        squared(0xebaebefbebaeb6db75d751453cf3b6acu128) == 0x9a69a69a618618618a28a28a1451455au128,
        squared(0x9a69a69a618618618a28a28a1451455au128) == 0x24924924924924926db6db6db6db6da4u128,
        squared(0x24924924924924926db6db6db6db6da4u128) == 0x2u128,
{
}

/// Squaring 128 times fixes `x`.
#[verifier::spinoff_prover]
#[verifier::rlimit(60)]
proof fn lemma_frobenius_x()
    ensures
        frobenius(2, 128) == 2,
{
    lemma_chain();
    assert(frobenius(2, 0) == 2);
    assert(frobenius(2, 1) == 0x4u128) by {
        lemma_squared(0x2u128);
    }
    assert(frobenius(2, 2) == 0x10u128) by {
        lemma_squared(0x4u128);
    }
    assert(frobenius(2, 3) == 0x100u128) by {
        lemma_squared(0x10u128);
    }
    assert(frobenius(2, 4) == 0x10000u128) by {
        lemma_squared(0x100u128);
    }
    assert(frobenius(2, 5) == 0x100000000u128) by {
        lemma_squared(0x10000u128);
    }
    assert(frobenius(2, 6) == 0x10000000000000000u128) by {
        lemma_squared(0x100000000u128);
    }
    assert(frobenius(2, 7) == 0x87u128) by {
        lemma_squared(0x10000000000000000u128);
    }
    assert(frobenius(2, 8) == 0x4015u128) by {
        lemma_squared(0x87u128);
    }
    assert(frobenius(2, 9) == 0x10000111u128) by {
        lemma_squared(0x4015u128);
    }
    assert(frobenius(2, 10) == 0x100000000010101u128) by {
        lemma_squared(0x10000111u128);
    }
    assert(frobenius(2, 11) == 0x10000000000000000000100010001u128) by {
        lemma_squared(0x100000000010101u128);
    }
    assert(frobenius(2, 12) == 0x87000000010000000100000001u128) by {
        lemma_squared(0x10000000000000000000100010001u128);
    }
    assert(frobenius(2, 13) == 0x21caea0000000000000086u128) by {
        lemma_squared(0x87000000010000000100000001u128);
    }
    assert(frobenius(2, 14) == 0x21cae93f7cfc8u128) by {
        lemma_squared(0x21caea0000000000000086u128);
    }
    assert(frobenius(2, 15) == 0x4015044544105551550555040u128) by {
        lemma_squared(0x21cae93f7cfc8u128);
    }
    assert(frobenius(2, 16) == 0x1001001111110961118fe6196978ef70u128) by {
        lemma_squared(0x4015044544105551550555040u128);
    }
    assert(frobenius(2, 17) == 0x860140d2541486c693c692c775187987u128) by {
        lemma_squared(0x1001001111110961118fe6196978ef70u128);
    }
    assert(frobenius(2, 18) == 0x8b69509b312d6501ea618e11df04ea1eu128) by {
        lemma_squared(0x860140d2541486c693c692c775187987u128);
    }
    assert(frobenius(2, 19) == 0xb715594eb7756558cad0352d30b311b4u128) by {
        lemma_squared(0x8b69509b312d6501ea618e11df04ea1eu128);
    }
    assert(frobenius(2, 20) == 0x1afdeffd35e5fde54e1a6f865fe82b9u128) by {
        lemma_squared(0xb715594eb7756558cad0352d30b311b4u128);
    }
    assert(frobenius(2, 21) == 0x11b4a30358935542218289f09c0659edu128) by {
        lemma_squared(0x1afdeffd35e5fde54e1a6f865fe82b9u128);
    }
    assert(frobenius(2, 22) == 0x83a513579eda579397b14587eebe264du128) by {
        lemma_squared(0x11b4a30358935542218289f09c0659edu128);
    }
    assert(frobenius(2, 23) == 0x83ad91f69582bddf38d15180f9de45adu128) by {
        lemma_squared(0x83a513579eda579397b14587eebe264du128);
    }
    assert(frobenius(2, 24) == 0xc7f8a41756ad614d1a97936b620f481du128) by {
        lemma_squared(0x83ad91f69582bddf38d15180f9de45adu128);
    }
    assert(frobenius(2, 25) == 0xbb844bf6957599a6e94bf5687ccf4c39u128) by {
        lemma_squared(0xc7f8a41756ad614d1a97936b620f481du128);
    }
    assert(frobenius(2, 26) == 0x2c3bd83d0661350d5aadb3837634c244u128) by {
        lemma_squared(0xbb844bf6957599a6e94bf5687ccf4c39u128);
    }
    assert(frobenius(2, 27) == 0x24f6fc2353c7f2321f726995c3f33829u128) by {
        lemma_squared(0x2c3bd83d0661350d5aadb3837634c244u128);
    }
    assert(frobenius(2, 28) == 0x150e344316f35f82a5b7efc52c5e9c53u128) by {
        lemma_squared(0x24f6fc2353c7f2321f726995c3f33829u128);
    }
    assert(frobenius(2, 29) == 0xcbe66ebbc72d228a891738c79d5ad319u128) by {
        lemma_squared(0x150e344316f35f82a5b7efc52c5e9c53u128);
    }
    assert(frobenius(2, 30) == 0xd331a77342cf2867fbb824714f38f6c2u128) by {
        lemma_squared(0xcbe66ebbc72d228a891738c79d5ad319u128);
    }
    assert(frobenius(2, 31) == 0x60dcdee4d2f1fc9262609e6968de22b0u128) by {
        lemma_squared(0xd331a77342cf2867fbb824714f38f6c2u128);
    }
    assert(frobenius(2, 32) == 0x782d0a995dd3b01821777af80695052au128) by {
        lemma_squared(0x60dcdee4d2f1fc9262609e6968de22b0u128);
    }
    assert(frobenius(2, 33) == 0xcec3202236b9330fde0a74a95b11a7b2u128) by {
        lemma_squared(0x782d0a995dd3b01821777af80695052au128);
    }
    assert(frobenius(2, 34) == 0xcad1b2dd09125a5f800a7b44dd8e7a70u128) by {
        lemma_squared(0xcec3202236b9330fde0a74a95b11a7b2u128);
    }
    assert(frobenius(2, 35) == 0xd3f537e04c700e277016c540c190dd74u128) by {
        lemma_squared(0xcad1b2dd09125a5f800a7b44dd8e7a70u128);
    }
    assert(frobenius(2, 36) == 0x20b022e1c1d1bc0809bbaa007aff17a4u128) by {
        lemma_squared(0xd3f537e04c700e277016c540c190dd74u128);
    }
    assert(frobenius(2, 37) == 0x1c621e475a73acaea5ea62f173a564deu128) by {
        lemma_squared(0x20b022e1c1d1bc0809bbaa007aff17a4u128);
    }
    assert(frobenius(2, 38) == 0xeaab3a58b8a02fe2c1d3ada9e183a6f8u128) by {
        lemma_squared(0x1c621e475a73acaea5ea62f173a564deu128);
    }
    assert(frobenius(2, 39) == 0xdffeae5cfc8592a22ee29c077314ee0du128) by {
        lemma_squared(0xeaab3a58b8a02fe2c1d3ada9e183a6f8u128);
    }
    assert(frobenius(2, 40) == 0x1854548bb6f4de8e1794c9c6116bca12u128) by {
        lemma_squared(0xdffeae5cfc8592a22ee29c077314ee0du128);
    }
    assert(frobenius(2, 41) == 0xa7ddbe68af10b36c5046371c4cc9eaa8u128) by {
        lemma_squared(0x1854548bb6f4de8e1794c9c6116bca12u128);
    }
    assert(frobenius(2, 42) == 0xc7c20e0075b34cb3e77bd7620dd51099u128) by {
        lemma_squared(0xa7ddbe68af10b36c5046371c4cc9eaa8u128);
    }
    assert(frobenius(2, 43) == 0xeed7a7597ab9140ee385088258930c85u128) by {
        lemma_squared(0xc7c20e0075b34cb3e77bd7620dd51099u128);
    }
    assert(frobenius(2, 44) == 0xd3807dd9d6a39649d9bf3b428f207eecu128) by {
        lemma_squared(0xeed7a7597ab9140ee385088258930c85u128);
    }
    assert(frobenius(2, 45) == 0x64fb855fc75b066a7d1adaba58301148u128) by {
        lemma_squared(0xd3807dd9d6a39649d9bf3b428f207eecu128);
    }
    assert(frobenius(2, 46) == 0x710a093e99bb9946aba3d15b0b675aaau128) by {
        lemma_squared(0x64fb855fc75b066a7d1adaba58301148u128);
    }
    assert(frobenius(2, 47) == 0xafc267d97044a1c866216c6f770b3b1eu128) by {
        lemma_squared(0x710a093e99bb9946aba3d15b0b675aaau128);
    }
    assert(frobenius(2, 48) == 0xe316b61772920218fe1d7816d9eb81fdu128) by {
        lemma_squared(0xafc267d97044a1c866216c6f770b3b1eu128);
    }
    assert(frobenius(2, 49) == 0xfbcf8c1e442c8cf5b87c1159421de6c0u128) by {
        lemma_squared(0xe316b61772920218fe1d7816d9eb81fdu128);
    }
    assert(frobenius(2, 50) == 0x4d328e5ae8b1bde5687634c0bd8f66a6u128) by {
        lemma_squared(0xfbcf8c1e442c8cf5b87c1159421de6c0u128);
    }
    assert(frobenius(2, 51) == 0x4d758c29eeb484f7c8b21bf16608e4dbu128) by {
        lemma_squared(0x4d328e5ae8b1bde5687634c0bd8f66a6u128);
    }
    assert(frobenius(2, 52) == 0x97da6d2e8f7686d939b53119c4b7496u128) by {
        lemma_squared(0x4d758c29eeb484f7c8b21bf16608e4dbu128);
    }
    assert(frobenius(2, 53) == 0x60488351c7403436ccbb31a458da0423u128) by {
        lemma_squared(0x97da6d2e8f7686d939b53119c4b7496u128);
    }
    assert(frobenius(2, 54) == 0x3c5814a4c792b3beaba321469362905fu128) by {
        lemma_squared(0x60488351c7403436ccbb31a458da0423u128);
    }
    assert(frobenius(2, 55) == 0xf6fd92c58b52c44dfbcf513b18b860f7u128) by {
        lemma_squared(0x3c5814a4c792b3beaba321469362905fu128);
    }
    assert(frobenius(2, 56) == 0x740252435434bd93e213b075ac781973u128) by {
        lemma_squared(0xf6fd92c58b52c44dfbcf513b18b860f7u128);
    }
    assert(frobenius(2, 57) == 0xb7740311b0146782bb228613735755a8u128) by {
        lemma_squared(0x740252435434bd93e213b075ac781973u128);
    }
    assert(frobenius(2, 58) == 0x14a4e774428f86a14e059e6f77db9735u128) by {
        lemma_squared(0xb7740311b0146782bb228613735755a8u128);
    }
    assert(frobenius(2, 59) == 0x9f07d44ae7b5f72d6728ba4f8b5ad996u128) by {
        lemma_squared(0x14a4e774428f86a14e059e6f77db9735u128);
    }
    assert(frobenius(2, 60) == 0x783e0e827a3c43a2e68d429870a86444u128) by {
        lemma_squared(0x9f07d44ae7b5f72d6728ba4f8b5ad996u128);
    }
    assert(frobenius(2, 61) == 0x9ed6f0fd3b898356dddef6f866a8cb3au128) by {
        lemma_squared(0x783e0e827a3c43a2e68d429870a86444u128);
    }
    assert(frobenius(2, 62) == 0x3dd46c137e3f5775ac6ea52692d6e84fu128) by {
        lemma_squared(0x9ed6f0fd3b898356dddef6f866a8cb3au128);
    }
    assert(frobenius(2, 63) == 0xf64e2b2e01a1818581aae137a9a1f2acu128) by {
        lemma_squared(0x3dd46c137e3f5775ac6ea52692d6e84fu128);
    }
    assert(frobenius(2, 64) == 0x61651fea6b5832b944e598a795a299f6u128) by {
        lemma_squared(0xf64e2b2e01a1818581aae137a9a1f2acu128);
    }
    assert(frobenius(2, 65) == 0x7c9d30e6ed40cbc30e4292c6d87e2a65u128) by {
        lemma_squared(0x61651fea6b5832b944e598a795a299f6u128);
    }
    assert(frobenius(2, 66) == 0xc2c57e31da2ff653d47f657d9736a3bcu128) by {
        lemma_squared(0x7c9d30e6ed40cbc30e4292c6d87e2a65u128);
    }
    assert(frobenius(2, 67) == 0xe325ada8d4bf8eff55cb32146561a494u128) by {
        lemma_squared(0xc2c57e31da2ff653d47f657d9736a3bcu128);
    }
    assert(frobenius(2, 68) == 0xbf884491f010fcf92b42640baf97546au128) by {
        lemma_squared(0xe325ada8d4bf8eff55cb32146561a494u128);
    }
    assert(frobenius(2, 69) == 0x744ff1cc6c4147e96f55c63e138b0f6au128) by {
        lemma_squared(0xbf884491f010fcf92b42640baf97546au128);
    }
    assert(frobenius(2, 70) == 0xf72d4a117bba9cee44bd30ca7a959c35u128) by {
        lemma_squared(0x744ff1cc6c4147e96f55c63e138b0f6au128);
    }
    assert(frobenius(2, 71) == 0x31f9706e56dcd7c9dd3c39ec2fcb97ecu128) by {
        lemma_squared(0xf72d4a117bba9cee44bd30ca7a959c35u128);
    }
    assert(frobenius(2, 72) == 0xcafd0f1dee4b13f4f9104edc7cd7c419u128) by {
        lemma_squared(0x31f9706e56dcd7c9dd3c39ec2fcb97ecu128);
    }
    assert(frobenius(2, 73) == 0xc6b603373b7fff4c92f4024ed5a0366eu128) by {
        lemma_squared(0xcafd0f1dee4b13f4f9104edc7cd7c419u128);
    }
    assert(frobenius(2, 74) == 0xfb4b047c029d81bde9408400053759bbu128) by {
        lemma_squared(0xc6b603373b7fff4c92f4024ed5a0366eu128);
    }
    assert(frobenius(2, 75) == 0x5c12435b486ac2b0022c6b03d1e52223u128) by {
        lemma_squared(0xfb4b047c029d81bde9408400053759bbu128);
    }
    assert(frobenius(2, 76) == 0xdeb4814466d6d45600cb1be4b63b5b3du128) by {
        lemma_squared(0x5c12435b486ac2b0022c6b03d1e52223u128);
    }
    assert(frobenius(2, 77) == 0x1c8f0314c1ca2c6a235138002e3dec62u128) by {
        lemma_squared(0xdeb4814466d6d45600cb1be4b63b5b3du128);
    }
    assert(frobenius(2, 78) == 0xaa94fa2a07db8f59b4fa968f61ea5bd8u128) by {
        lemma_squared(0x1c8f0314c1ca2c6a235138002e3dec62u128);
    }
    assert(frobenius(2, 79) == 0xbaed1a1f49ca7f891ec3403efa66966eu128) by {
        lemma_squared(0xaa94fa2a07db8f59b4fa968f61ea5bd8u128);
    }
    assert(frobenius(2, 80) == 0x79a3d532b4dca977042a87c2811ee47au128) by {
        lemma_squared(0xbaed1a1f49ca7f891ec3403efa66966eu128);
    }
    assert(frobenius(2, 81) == 0xca74daf67fe0c93b13581fc7a95df199u128) by {
        lemma_squared(0x79a3d532b4dca977042a87c2811ee47au128);
    }
    assert(frobenius(2, 82) == 0x92d3f21915a271738441bd78c444ed45u128) by {
        lemma_squared(0xca74daf67fe0c93b13581fc7a95df199u128);
    }
    assert(frobenius(2, 83) == 0x52525b16c4db307dfc4ce06bfdce9edu128) by {
        lemma_squared(0x92d3f21915a271738441bd78c444ed45u128);
    }
    assert(frobenius(2, 84) == 0x59a044e544805b9900ed08440dda5ebau128) by {
        lemma_squared(0x52525b16c4db307dfc4ce06bfdce9edu128);
    }
    assert(frobenius(2, 85) == 0xd6648859781bb4ef7800914cc52e273bu128) by {
        lemma_squared(0x59a044e544805b9900ed08440dda5ebau128);
    }
    assert(frobenius(2, 86) == 0x28266451a0c9c61d9ad1a02c574e9631u128) by {
        lemma_squared(0xd6648859781bb4ef7800914cc52e273bu128);
    }
    assert(frobenius(2, 87) == 0x7c8647672078f3f4cd3c813afb78aa38u128) by {
        lemma_squared(0x28266451a0c9c61d9ad1a02c574e9631u128);
    }
    assert(frobenius(2, 88) == 0x92c0cf343ae063ad494fdfab6df42306u128) by {
        lemma_squared(0x7c8647672078f3f4cd3c813afb78aa38u128);
    }
    assert(frobenius(2, 89) == 0x5574a07cca7cd737aca6f91a6abde544u128) by {
        lemma_squared(0x92c0cf343ae063ad494fdfab6df42306u128);
    }
    assert(frobenius(2, 90) == 0xbbada747894bc3dd879287c869f885c3u128) by {
        lemma_squared(0x5574a07cca7cd737aca6f91a6abde544u128);
    }
    assert(frobenius(2, 91) == 0x386db41096f62a8af50e0632f2a35f5bu128) by {
        lemma_squared(0xbbada747894bc3dd879287c869f885c3u128);
    }
    assert(frobenius(2, 92) == 0xefdb4540536482251843656b2ea8f397u128) by {
        lemma_squared(0x386db41096f62a8af50e0632f2a35f5bu128);
    }
    assert(frobenius(2, 93) == 0x864204566cee644df1c52011971b40b3u128) by {
        lemma_squared(0xefdb4540536482251843656b2ea8f397u128);
    }
    assert(frobenius(2, 94) == 0x9f65220d0c78fc67048e86e374780c55u128) by {
        lemma_squared(0x864204566cee644df1c52011971b40b3u128);
    }
    assert(frobenius(2, 95) == 0x6c3124a15e087d323caadfab02ea679du128) by {
        lemma_squared(0x9f65220d0c78fc67048e86e374780c55u128);
    }
    assert(frobenius(2, 96) == 0x40e2dfc1450698cadca8758ed620dd7bu128) by {
        lemma_squared(0x6c3124a15e087d323caadfab02ea679du128);
    }
    assert(frobenius(2, 97) == 0x217bea750913f0db29e30e4d37b882a1u128) by {
        lemma_squared(0x40e2dfc1450698cadca8758ed620dd7bu128);
    }
    assert(frobenius(2, 98) == 0x18cc9c758f82f3a62452c0f06b2d5154u128) by {
        lemma_squared(0x217bea750913f0db29e30e4d37b882a1u128);
    }
    assert(frobenius(2, 99) == 0xa2f988953ebab6d6ff4fc66638b9c77cu128) by {
        lemma_squared(0x18cc9c758f82f3a62452c0f06b2d5154u128);
    }
    assert(frobenius(2, 100) == 0x8b621a33b1f55be1b5cf3dbe01503955u128) by {
        lemma_squared(0xa2f988953ebab6d6ff4fc66638b9c77cu128);
    }
    assert(frobenius(2, 101) == 0xa6403e49a18fdcec5bad32ffd131adf1u128) by {
        lemma_squared(0x8b621a33b1f55be1b5cf3dbe01503955u128);
    }
    assert(frobenius(2, 102) == 0xc7213453b5a004318da7ee035acac1d8u128) by {
        lemma_squared(0xa6403e49a18fdcec5bad32ffd131adf1u128);
    }
    assert(frobenius(2, 103) == 0xfab85890c72cf5bd42908c445873de98u128) by {
        lemma_squared(0xc7213453b5a004318da7ee035acac1d8u128);
    }
    assert(frobenius(2, 104) == 0x18fb3bc896b15739aba9209e72802626u128) by {
        lemma_squared(0xfab85890c72cf5bd42908c445873de98u128);
    }
    assert(frobenius(2, 105) == 0xe2ae4c18bc72d0b5584b1b8ff9fdbe53u128) by {
        lemma_squared(0x18fb3bc896b15739aba9209e72802626u128);
    }
    assert(frobenius(2, 106) == 0xbf7fe7e158f5e6b627fbbc64727757a3u128) by {
        lemma_squared(0xe2ae4c18bc72d0b5584b1b8ff9fdbe53u128);
    }
    assert(frobenius(2, 107) == 0x74349545e390b89fc3ef36c9b75a0400u128) by {
        lemma_squared(0xbf7fe7e158f5e6b627fbbc64727757a3u128);
    }
    assert(frobenius(2, 108) == 0xb377c7044aeb289debaf56677af1691du128) by {
        lemma_squared(0x74349545e390b89fc3ef36c9b75a0400u128);
    }
    assert(frobenius(2, 109) == 0xdd4a597abff1c6d46b3da5829a07e0fu128) by {
        lemma_squared(0xb377c7044aeb289debaf56677af1691du128);
    }
    assert(frobenius(2, 110) == 0x390a7a5685925c88fb31442bbbee4562u128) by {
        lemma_squared(0xdd4a597abff1c6d46b3da5829a07e0fu128);
    }
    assert(frobenius(2, 111) == 0xef0226d7d8c4f9088d931140ce80f4cau128) by {
        lemma_squared(0x390a7a5685925c88fb31442bbbee4562u128);
    }
    assert(frobenius(2, 112) == 0xc77a431b17442dc246bdf85b5f5764d5u128) by {
        lemma_squared(0xef0226d7d8c4f9088d931140ce80f4cau128);
    }
    assert(frobenius(2, 113) == 0xaaf58d8527dbb51e9cb66967210ef752u128) by {
        lemma_squared(0xc77a431b17442dc246bdf85b5f5764d5u128);
    }
    assert(frobenius(2, 114) == 0xbea766c2fd57dce012c3142c06e2acc1u128) by {
        lemma_squared(0xaaf58d8527dbb51e9cb66967210ef752u128);
    }
    assert(frobenius(2, 115) == 0x718b86e46755b667022ba9c65acbed68u128) by {
        lemma_squared(0xbea766c2fd57dce012c3142c06e2acc1u128);
    }
    assert(frobenius(2, 116) == 0xeba2e73f8e06f46e77a7af910537779du128) by {
        lemma_squared(0x718b86e46755b667022ba9c65acbed68u128);
    }
    assert(frobenius(2, 117) == 0x9a6d9a22e2bcf10bebbd0f52366f13acu128) by {
        lemma_squared(0xeba2e73f8e06f46e77a7af910537779du128);
    }
    assert(frobenius(2, 118) == 0x30930047648b0f33ab2b66ce2a82776cu128) by {
        lemma_squared(0x9a6d9a22e2bcf10bebbd0f52366f13acu128);
    }
    assert(frobenius(2, 119) == 0xdf6441de141c2ab56015a35f3e3c8cc5u128) by {
        lemma_squared(0x30930047648b0f33ab2b66ce2a82776cu128);
    }
    assert(frobenius(2, 120) == 0x821656934ab0df98a24abe27faf17b9u128) by {
        lemma_squared(0xdf6441de141c2ab56015a35f3e3c8cc5u128);
    }
    assert(frobenius(2, 121) == 0x6186189d20b819418606bb0e28094f06u128) by {
        lemma_squared(0x821656934ab0df98a24abe27faf17b9u128);
    }
    assert(frobenius(2, 122) == 0x2cb2ca78e3a46e6118637a81b61a75a5u128) by {
        lemma_squared(0x6186189d20b819418606bb0e28094f06u128);
    }
    assert(frobenius(2, 123) == 0x34d34d3086928aeaebacd53e52b72998u128) by {
        lemma_squared(0x2cb2ca78e3a46e6118637a81b61a75a5u128);
    }
    assert(frobenius(2, 124) == 0xc71c71c308249e75db490028e7b6cf92u128) by {
        lemma_squared(0x34d34d3086928aeaebacd53e52b72998u128);
    }
    assert(frobenius(2, 125) == 0xebaebefbebaeb6db75d751453cf3b6acu128) by {
        lemma_squared(0xc71c71c308249e75db490028e7b6cf92u128);
    }
    assert(frobenius(2, 126) == 0x9a69a69a618618618a28a28a1451455au128) by {
        lemma_squared(0xebaebefbebaeb6db75d751453cf3b6acu128);
    }
    assert(frobenius(2, 127) == 0x24924924924924926db6db6db6db6da4u128) by {
        lemma_squared(0x9a69a69a618618618a28a28a1451455au128);
    }
    assert(frobenius(2, 128) == 0x2u128) by {
        lemma_squared(0x24924924924924926db6db6db6db6da4u128);
    }
}

proof fn lemma_frobenius_monomial(n: nat)
    requires
        n < 128,
    ensures
        frobenius(1u128 << (n as u128), 128) == 1u128 << (n as u128),
    decreases n,
{
    lemma_squared_bits(0, 0, 0);
    if n == 0 {
        lemma_frobenius_hom(0, 0, 128);
    } else {
        lemma_frobenius_monomial((n - 1) as nat);
        let p = 1u128 << ((n - 1) as u128);
        lemma_xpow_one(n);
        lemma_xpow_one((n - 1) as nat);
        lemma_xpow_one(1);
        lemma_gf_mul_xpow(p, 1, 1);
        lemma_gf_mul_units(p);
        assert(xpow(p, 1) == xtime(xpow(p, 0)));
        assert(xpow(1, n) == xtime(xpow(1, (n - 1) as nat)));
        assert(gf_mul(p, 2) == 1u128 << (n as u128));
        lemma_frobenius_hom(p, 2, 128);
        lemma_frobenius_x();
    }
}

proof fn lemma_frobenius_upto(a: u128, n: nat)
    requires
        n <= 128,
    ensures
        frobenius(low_part(a, n), 128) == low_part(a, n),
    decreases n,
{
    lemma_frobenius_hom(0, 0, 128);
    lemma_low_part_step(a, 0);
    if n > 0 {
        let k = (n - 1) as nat;
        lemma_frobenius_upto(a, k);
        lemma_low_part_step(a, k);
        let t = if bit128(a, k) {
            1u128 << (k as u128)
        } else {
            0
        };
        lemma_frobenius_hom(low_part(a, k), t, 128);
        lemma_frobenius_monomial(k);
    }
}

proof fn lemma_pow_add(a: u128, m: nat, n: nat)
    ensures
        gf_pow(a, m + n) == gf_mul(gf_pow(a, m), gf_pow(a, n)),
    decreases n,
{
    if n == 0 {
        lemma_gf_mul_units(gf_pow(a, m));
    } else {
        lemma_pow_add(a, m, (n - 1) as nat);
        assert(gf_pow(a, m + n) == gf_mul(gf_pow(a, (m + n - 1) as nat), a));
        assert((m + n - 1) as nat == m + (n - 1) as nat);
        lemma_gf_mul_assoc(gf_pow(a, m), gf_pow(a, (n - 1) as nat), a);
    }
}

proof fn lemma_frobenius_pow(a: u128, k: nat)
    ensures
        frobenius(a, k) == gf_pow(a, pow2(k)),
    decreases k,
{
    lemma2_to64();
    if k == 0 {
        assert(gf_pow(a, 0) == 1);
        assert(gf_pow(a, 1) == gf_mul(gf_pow(a, 0), a));
        lemma_gf_mul_units(a);
    } else {
        lemma_frobenius_pow(a, (k - 1) as nat);
        lemma_pow2_unfold(k);
        lemma_pow_add(a, pow2((k - 1) as nat), pow2((k - 1) as nat));
    }
}

/// Every element is its own power with exponent `2^128`.
pub proof fn lemma_frobenius_identity(a: u128)
    ensures
        gf_pow(a, pow2(128)) == a,
{
    lemma_frobenius_upto(a, 128);
    lemma_frobenius_pow(a, 128);
}

/// The power with exponent `2^128 - 2` is the inverse of a nonzero element, and zero for zero.
pub proof fn lemma_gf_inverse(a: u128)
    ensures
        a != 0 ==> gf_mul(a, gf_pow(a, 0xffff_ffff_ffff_ffff_ffff_ffff_ffff_fffe)) == 1,
        a == 0 ==> gf_pow(a, 0xffff_ffff_ffff_ffff_ffff_ffff_ffff_fffe) == 0,
{
    let n: nat = 0xffff_ffff_ffff_ffff_ffff_ffff_ffff_fffe;
    let p = gf_pow(a, n);
    let e = gf_mul(p, a);
    assert(gf_pow(a, n) == gf_mul(gf_pow(a, (n - 1) as nat), a));
    lemma_gf_mul_units(gf_pow(a, (n - 1) as nat));
    if a != 0 {
        assert(gf_pow(a, n + 1) == e);
        assert(gf_pow(a, n + 2) == gf_mul(gf_pow(a, n + 1), a));
        lemma_frobenius_identity(a);
        lemma2_to64();
        vstd::arithmetic::power2::lemma2_to64_rest();
        lemma_pow2_adds(64, 64);
        assert(pow2(128) == n + 2);
        assert(gf_mul(e, a) == a);
        // e * e = p * (a * e) = p * a = e
        lemma_gf_mul_assoc(p, a, e);
        lemma_gf_mul_comm(a, e);
        assert(gf_mul(e, e) == e);
        lemma_squared(e);
        lemma_fixed(e);
        lemma_gf_mul_units(a);
        assert(e == 1);
        lemma_gf_mul_comm(a, p);
    }
}

} // verus!
