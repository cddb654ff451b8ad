//! Unrolled Keccak-f[1600] steps, without lane-coordinate loops.
use super::constants::ROUND_CONSTANTS;
use super::operands::residual_of;
use super::trace::{chi_iota_of, pre_chi_of, theta_of, theta_word, State};
use crate::circuit::word::rotate_left;
use vstd::prelude::*;

verus! {

/// Applies theta followed by rho and pi, returning the pre-chi lanes.
pub fn theta_rho_pi(state: State) -> (r: State)
    ensures
        r@ == pre_chi_of(state@),
{
    reveal(pre_chi_of);
    let a00: u64 = state[0];
    let a10: u64 = state[1];
    let a20: u64 = state[2];
    let a30: u64 = state[3];
    let a40: u64 = state[4];
    let a01: u64 = state[5];
    let a11: u64 = state[6];
    let a21: u64 = state[7];
    let a31: u64 = state[8];
    let a41: u64 = state[9];
    let a02: u64 = state[10];
    let a12: u64 = state[11];
    let a22: u64 = state[12];
    let a32: u64 = state[13];
    let a42: u64 = state[14];
    let a03: u64 = state[15];
    let a13: u64 = state[16];
    let a23: u64 = state[17];
    let a33: u64 = state[18];
    let a43: u64 = state[19];
    let a04: u64 = state[20];
    let a14: u64 = state[21];
    let a24: u64 = state[22];
    let a34: u64 = state[23];
    let a44: u64 = state[24];

    let c0: u64 = a00 ^ a01 ^ a02 ^ a03 ^ a04;
    let c1: u64 = a10 ^ a11 ^ a12 ^ a13 ^ a14;
    let c2: u64 = a20 ^ a21 ^ a22 ^ a23 ^ a24;
    let c3: u64 = a30 ^ a31 ^ a32 ^ a33 ^ a34;
    let c4: u64 = a40 ^ a41 ^ a42 ^ a43 ^ a44;

    let d0: u64 = c4 ^ rotate_left(c1, 1);
    let d1: u64 = c0 ^ rotate_left(c2, 1);
    let d2: u64 = c1 ^ rotate_left(c3, 1);
    let d3: u64 = c2 ^ rotate_left(c4, 1);
    let d4: u64 = c3 ^ rotate_left(c0, 1);

    let b00: u64 = a00 ^ d0;
    let b10: u64 = a10 ^ d1;
    let b20: u64 = a20 ^ d2;
    let b30: u64 = a30 ^ d3;
    let b40: u64 = a40 ^ d4;
    let b01: u64 = a01 ^ d0;
    let b11: u64 = a11 ^ d1;
    let b21: u64 = a21 ^ d2;
    let b31: u64 = a31 ^ d3;
    let b41: u64 = a41 ^ d4;
    let b02: u64 = a02 ^ d0;
    let b12: u64 = a12 ^ d1;
    let b22: u64 = a22 ^ d2;
    let b32: u64 = a32 ^ d3;
    let b42: u64 = a42 ^ d4;
    let b03: u64 = a03 ^ d0;
    let b13: u64 = a13 ^ d1;
    let b23: u64 = a23 ^ d2;
    let b33: u64 = a33 ^ d3;
    let b43: u64 = a43 ^ d4;
    let b04: u64 = a04 ^ d0;
    let b14: u64 = a14 ^ d1;
    let b24: u64 = a24 ^ d2;
    let b34: u64 = a34 ^ d3;
    let b44: u64 = a44 ^ d4;

    let r: State = [
        b00,
        rotate_left(b11, 44),
        rotate_left(b22, 43),
        rotate_left(b33, 21),
        rotate_left(b44, 14),
        rotate_left(b30, 28),
        rotate_left(b41, 20),
        rotate_left(b02, 3),
        rotate_left(b13, 45),
        rotate_left(b24, 61),
        rotate_left(b10, 1),
        rotate_left(b21, 6),
        rotate_left(b32, 25),
        rotate_left(b43, 8),
        rotate_left(b04, 18),
        rotate_left(b40, 27),
        rotate_left(b01, 36),
        rotate_left(b12, 10),
        rotate_left(b23, 15),
        rotate_left(b34, 56),
        rotate_left(b20, 62),
        rotate_left(b31, 55),
        rotate_left(b42, 39),
        rotate_left(b03, 41),
        rotate_left(b14, 2),
    ];
    proof {
        let s = state@;
        assert(d0 == theta_word(s, 0) && d1 == theta_word(s, 1) && d2 == theta_word(s, 2) && d3
            == theta_word(s, 3) && d4 == theta_word(s, 4));
        let t = theta_of(s);
        assert(t[0] == b00 && t[1] == b10 && t[2] == b20 && t[3] == b30 && t[4] == b40);
        assert(t[5] == b01 && t[6] == b11 && t[7] == b21 && t[8] == b31 && t[9] == b41);
        assert(t[10] == b02 && t[11] == b12 && t[12] == b22 && t[13] == b32 && t[14] == b42);
        assert(t[15] == b03 && t[16] == b13 && t[17] == b23 && t[18] == b33 && t[19] == b43);
        assert(t[20] == b04 && t[21] == b14 && t[22] == b24 && t[23] == b34 && t[24] == b44);
    }
    assert(r@ =~= pre_chi_of(state@));
    r
}

/// Applies chi followed by iota to a pre-chi state.
pub fn chi_iota(pre_chi: State, round: usize) -> (r: State)
    requires
        round < 24,
    ensures
        r@ == chi_iota_of(pre_chi@, round as int),
{
    reveal(chi_iota_of);
    let p00: u64 = pre_chi[0];
    let p10: u64 = pre_chi[1];
    let p20: u64 = pre_chi[2];
    let p30: u64 = pre_chi[3];
    let p40: u64 = pre_chi[4];
    let p01: u64 = pre_chi[5];
    let p11: u64 = pre_chi[6];
    let p21: u64 = pre_chi[7];
    let p31: u64 = pre_chi[8];
    let p41: u64 = pre_chi[9];
    let p02: u64 = pre_chi[10];
    let p12: u64 = pre_chi[11];
    let p22: u64 = pre_chi[12];
    let p32: u64 = pre_chi[13];
    let p42: u64 = pre_chi[14];
    let p03: u64 = pre_chi[15];
    let p13: u64 = pre_chi[16];
    let p23: u64 = pre_chi[17];
    let p33: u64 = pre_chi[18];
    let p43: u64 = pre_chi[19];
    let p04: u64 = pre_chi[20];
    let p14: u64 = pre_chi[21];
    let p24: u64 = pre_chi[22];
    let p34: u64 = pre_chi[23];
    let p44: u64 = pre_chi[24];

    let r: State = [
        p00 ^ ((!p10) & p20) ^ ROUND_CONSTANTS[round],
        p10 ^ ((!p20) & p30),
        p20 ^ ((!p30) & p40),
        p30 ^ ((!p40) & p00),
        p40 ^ ((!p00) & p10),
        p01 ^ ((!p11) & p21),
        p11 ^ ((!p21) & p31),
        p21 ^ ((!p31) & p41),
        p31 ^ ((!p41) & p01),
        p41 ^ ((!p01) & p11),
        p02 ^ ((!p12) & p22),
        p12 ^ ((!p22) & p32),
        p22 ^ ((!p32) & p42),
        p32 ^ ((!p42) & p02),
        p42 ^ ((!p02) & p12),
        p03 ^ ((!p13) & p23),
        p13 ^ ((!p23) & p33),
        p23 ^ ((!p33) & p43),
        p33 ^ ((!p43) & p03),
        p43 ^ ((!p03) & p13),
        p04 ^ ((!p14) & p24),
        p14 ^ ((!p24) & p34),
        p24 ^ ((!p34) & p44),
        p34 ^ ((!p44) & p04),
        p44 ^ ((!p04) & p14),
    ];
    assert(r@ =~= chi_iota_of(pre_chi@, round as int));
    r
}

/// Computes all 25 chi and iota residual words.
pub fn chi_iota_residual_words(pre_chi: &State, next: &State, round: usize) -> (r: State)
    requires
        round < 24,
    ensures
        r@ == residual_of(pre_chi@, next@, round as int),
{
    let p00: u64 = pre_chi[0];
    let p10: u64 = pre_chi[1];
    let p20: u64 = pre_chi[2];
    let p30: u64 = pre_chi[3];
    let p40: u64 = pre_chi[4];
    let p01: u64 = pre_chi[5];
    let p11: u64 = pre_chi[6];
    let p21: u64 = pre_chi[7];
    let p31: u64 = pre_chi[8];
    let p41: u64 = pre_chi[9];
    let p02: u64 = pre_chi[10];
    let p12: u64 = pre_chi[11];
    let p22: u64 = pre_chi[12];
    let p32: u64 = pre_chi[13];
    let p42: u64 = pre_chi[14];
    let p03: u64 = pre_chi[15];
    let p13: u64 = pre_chi[16];
    let p23: u64 = pre_chi[17];
    let p33: u64 = pre_chi[18];
    let p43: u64 = pre_chi[19];
    let p04: u64 = pre_chi[20];
    let p14: u64 = pre_chi[21];
    let p24: u64 = pre_chi[22];
    let p34: u64 = pre_chi[23];
    let p44: u64 = pre_chi[24];

    let r: State = [
        ((!p10) & p20) ^ p00 ^ next[0] ^ ROUND_CONSTANTS[round],
        ((!p20) & p30) ^ p10 ^ next[1],
        ((!p30) & p40) ^ p20 ^ next[2],
        ((!p40) & p00) ^ p30 ^ next[3],
        ((!p00) & p10) ^ p40 ^ next[4],
        ((!p11) & p21) ^ p01 ^ next[5],
        ((!p21) & p31) ^ p11 ^ next[6],
        ((!p31) & p41) ^ p21 ^ next[7],
        ((!p41) & p01) ^ p31 ^ next[8],
        ((!p01) & p11) ^ p41 ^ next[9],
        ((!p12) & p22) ^ p02 ^ next[10],
        ((!p22) & p32) ^ p12 ^ next[11],
        ((!p32) & p42) ^ p22 ^ next[12],
        ((!p42) & p02) ^ p32 ^ next[13],
        ((!p02) & p12) ^ p42 ^ next[14],
        ((!p13) & p23) ^ p03 ^ next[15],
        ((!p23) & p33) ^ p13 ^ next[16],
        ((!p33) & p43) ^ p23 ^ next[17],
        ((!p43) & p03) ^ p33 ^ next[18],
        ((!p03) & p13) ^ p43 ^ next[19],
        ((!p14) & p24) ^ p04 ^ next[20],
        ((!p24) & p34) ^ p14 ^ next[21],
        ((!p34) & p44) ^ p24 ^ next[22],
        ((!p44) & p04) ^ p34 ^ next[23],
        ((!p04) & p14) ^ p44 ^ next[24],
    ];
    assert(r@ =~= residual_of(pre_chi@, next@, round as int));
    r
}

} // verus!
