//! The Keccak-f[1600] permutation on wires.
use crate::circuit::{CircuitBuilder, Wire};
use crate::keccak_prove::constants::{RHO_OFFSETS, ROUND_CONSTANTS};
use crate::keccak_prove::trace::{
    chi_iota_of, chi_lane, column, keccak_f, pre_chi_of, rho_pi_of, rho_pi_source, right_of,
    rounds_state, theta_of, theta_word,
};
use vstd::prelude::*;

verus! {

/// Whether the wires of `xs` from the first to `n` carry the words `f` of what `pre` carries on
/// `state`.
spec fn carries(
    post: CircuitBuilder,
    pre: CircuitBuilder,
    xs: Seq<Wire>,
    state: Seq<Wire>,
    f: spec_fn(Seq<u64>, int) -> u64,
) -> bool {
    &&& post.computes_on(pre)
    &&& post.has_all(xs)
    &&& forall|w: Seq<u64>, i: int|
        0 <= i < xs.len() ==> #[trigger] post.val(w, xs[i]) == f(pre.vals(w, state), i)
}

/// One more wire behind those that are carried.
proof fn lemma_carries_push(
    post: CircuitBuilder,
    mid: CircuitBuilder,
    pre: CircuitBuilder,
    xs: Seq<Wire>,
    x: Wire,
    state: Seq<Wire>,
    f: spec_fn(Seq<u64>, int) -> u64,
)
    requires
        post.computes_on(mid),
        carries(mid, pre, xs, state, f),
        post.has(x),
        forall|w: Seq<u64>| #[trigger] post.val(w, x) == f(pre.vals(w, state), xs.len() as int),
    ensures
        carries(post, pre, xs.push(x), state, f),
{
    let ys = xs.push(x);
    assert(post.has_all(ys)) by {
        assert forall|i: int| 0 <= i < ys.len() implies post.has(#[trigger] ys[i]) by {
            if i < xs.len() {
                assert(mid.has(xs[i]));
            }
        }
    }
    assert forall|w: Seq<u64>, i: int| 0 <= i < ys.len() implies #[trigger] post.val(w, ys[i])
        == f(pre.vals(w, state), i) by {
        if i < xs.len() {
            assert(mid.has(xs[i]));
            assert(mid.val(w, xs[i]) == f(pre.vals(w, state), i));
        }
    }
}

/// The column parities.
fn columns(builder: &mut CircuitBuilder, state: &Vec<Wire>) -> (r: Vec<Wire>)
    requires
        old(builder).wf(),
        old(builder).has_all(state@),
        state@.len() == 25,
    ensures
        r@.len() == 5,
        carries(
            *final(builder),
            *old(builder),
            r@,
            state@,
            |s: Seq<u64>, x: int| column(s, x),
        ),
{
    let ghost b0 = *builder;
    let ghost f = |s: Seq<u64>, x: int| column(s, x);
    let mut r: Vec<Wire> = Vec::new();
    for x in 0..5
        invariant
            b0.wf(),
            b0.has_all(state@),
            state@.len() == 25,
            r@.len() == x,
            f == |s: Seq<u64>, x: int| column(s, x),
            carries(*builder, b0, r@, state@, f),
    {
        let ghost bi = *builder;
        assert(b0.has(state@[x as int]) && b0.has(state@[x + 5]) && b0.has(state@[x + 10])
            && b0.has(state@[x + 15]) && b0.has(state@[x + 20]));
        let c1 = builder.bxor(state[x], state[x + 5]);
        let c2 = builder.bxor(c1, state[x + 10]);
        let c3 = builder.bxor(c2, state[x + 15]);
        let c4 = builder.bxor(c3, state[x + 20]);
        proof {
            lemma_carries_push(*builder, bi, b0, r@, c4, state@, f);
        }
        r.push(c4);
    }
    r
}

/// The words that theta adds.
fn theta_words(builder: &mut CircuitBuilder, state: &Vec<Wire>) -> (r: Vec<Wire>)
    requires
        old(builder).wf(),
        old(builder).has_all(state@),
        state@.len() == 25,
    ensures
        r@.len() == 5,
        carries(
            *final(builder),
            *old(builder),
            r@,
            state@,
            |s: Seq<u64>, x: int| theta_word(s, x),
        ),
{
    let ghost b0 = *builder;
    let ghost f = |s: Seq<u64>, x: int| theta_word(s, x);
    let c = columns(builder, state);
    let ghost bc = *builder;
    let mut r: Vec<Wire> = Vec::new();
    for x in 0..5
        invariant
            b0.wf(),
            c@.len() == 5,
            carries(bc, b0, c@, state@, |s: Seq<u64>, x: int| column(s, x)),
            builder.computes_on(bc),
            r@.len() == x,
            f == |s: Seq<u64>, x: int| theta_word(s, x),
            carries(*builder, b0, r@, state@, f),
    {
        let ghost bi = *builder;
        let (left, right): (usize, usize) = ((x + 4) % 5, (x + 1) % 5);
        assert(bc.has(c@[left as int]) && bc.has(c@[right as int]));
        let rotated = builder.rotl(c[right], 1);
        let d = builder.bxor(c[left], rotated);
        proof {
            assert forall|w: Seq<u64>| #[trigger] builder.val(w, d) == f(
                b0.vals(w, state@),
                r@.len() as int,
            ) by {
                assert(bc.val(w, c@[left as int]) == column(b0.vals(w, state@), left as int));
                assert(bc.val(w, c@[right as int]) == column(b0.vals(w, state@), right as int));
            }
            lemma_carries_push(*builder, bi, b0, r@, d, state@, f);
        }
        r.push(d);
    }
    r
}

/// Theta, rho and pi.
fn theta_rho_pi(builder: &mut CircuitBuilder, state: &Vec<Wire>) -> (r: Vec<Wire>)
    requires
        old(builder).wf(),
        old(builder).has_all(state@),
        state@.len() == 25,
    ensures
        final(builder).computes_on(*old(builder)),
        final(builder).has_all(r@),
        r@.len() == 25,
        forall|w: Seq<u64>|
            #[trigger] final(builder).vals(w, r@) == pre_chi_of(old(builder).vals(w, state@)),
{
    let ghost b0 = *builder;
    let ghost f = |s: Seq<u64>, b: int| rho_pi_of(theta_of(s))[b];
    let d = theta_words(builder, state);
    let ghost bd = *builder;
    let mut r: Vec<Wire> = Vec::new();
    for b in 0..25
        invariant
            b0.wf(),
            b0.has_all(state@),
            state@.len() == 25,
            d@.len() == 5,
            carries(bd, b0, d@, state@, |s: Seq<u64>, x: int| theta_word(s, x)),
            builder.computes_on(bd),
            r@.len() == b,
            f == |s: Seq<u64>, b: int| rho_pi_of(theta_of(s))[b],
            carries(*builder, b0, r@, state@, f),
    {
        let ghost bi = *builder;
        let src: usize = (b % 5 + 3 * (b / 5)) % 5 + 5 * (b % 5);
        assert(src == rho_pi_source(b as int));
        assert(0 <= src < 25);
        let x: usize = src % 5;
        assert(b0.has(state@[src as int]) && bd.has(d@[x as int]));
        proof {
            lemma_offsets();
        }
        let lane = builder.bxor(state[src], d[x]);
        let rotated = builder.rotl(lane, RHO_OFFSETS[src]);
        proof {
            assert forall|w: Seq<u64>| #[trigger] builder.val(w, rotated) == f(
                b0.vals(w, state@),
                r@.len() as int,
            ) by {
                assert(bd.val(w, d@[x as int]) == theta_word(b0.vals(w, state@), x as int));
                assert(theta_of(b0.vals(w, state@))[src as int] == b0.val(w, state@[src as int])
                    ^ theta_word(b0.vals(w, state@), x as int));
            }
            lemma_carries_push(*builder, bi, b0, r@, rotated, state@, f);
        }
        r.push(rotated);
    }
    proof {
        reveal(pre_chi_of);
        assert forall|w: Seq<u64>| #[trigger] builder.vals(w, r@) == pre_chi_of(
            b0.vals(w, state@),
        ) by {
            assert(builder.vals(w, r@) =~= rho_pi_of(theta_of(b0.vals(w, state@))));
        }
    }
    r
}

proof fn lemma_offsets()
    ensures
        forall|i: int| 0 <= i < 25 ==> #[trigger] RHO_OFFSETS[i] < 64,
{
}

/// Chi and iota.
fn chi_iota(builder: &mut CircuitBuilder, state: &Vec<Wire>, round: usize) -> (r: Vec<Wire>)
    requires
        old(builder).wf(),
        old(builder).has_all(state@),
        state@.len() == 25,
        round < 24,
    ensures
        final(builder).computes_on(*old(builder)),
        final(builder).has_all(r@),
        r@.len() == 25,
        forall|w: Seq<u64>|
            #[trigger] final(builder).vals(w, r@) == chi_iota_of(
                old(builder).vals(w, state@),
                round as int,
            ),
{
    let ghost b0 = *builder;
    let ghost f = |s: Seq<u64>, i: int| chi_iota_of(s, round as int)[i];
    let constant = builder.add_constant_64(ROUND_CONSTANTS[round]);
    let ghost bc = *builder;
    let mut r: Vec<Wire> = Vec::new();
    for i in 0..25
        invariant
            b0.wf(),
            b0.has_all(state@),
            state@.len() == 25,
            round < 24,
            bc.computes_on(b0),
            bc.has(constant),
            forall|w: Seq<u64>| #[trigger] bc.val(w, constant) == ROUND_CONSTANTS[round as int],
            builder.computes_on(bc),
            r@.len() == i,
            f == |s: Seq<u64>, i: int| chi_iota_of(s, round as int)[i],
            carries(*builder, b0, r@, state@, f),
    {
        let ghost bi = *builder;
        let r1: usize = (i % 5 + 1) % 5 + 5 * (i / 5);
        let r2: usize = (i % 5 + 2) % 5 + 5 * (i / 5);
        assert(r1 == right_of(i as int, 1) && r2 == right_of(i as int, 2));
        assert(r1 < 25 && r2 < 25);
        assert(b0.has(state@[i as int]) && b0.has(state@[r1 as int]) && b0.has(
            state@[r2 as int],
        ));
        let inverted = builder.bnot(state[r1]);
        let product = builder.band(inverted, state[r2]);
        let mixed = builder.bxor(state[i], product);
        let lane = if i == 0 {
            builder.bxor(mixed, constant)
        } else {
            mixed
        };
        proof {
            assert forall|w: Seq<u64>| #[trigger] builder.val(w, lane) == f(
                b0.vals(w, state@),
                r@.len() as int,
            ) by {
                assert(bc.val(w, constant) == ROUND_CONSTANTS[round as int]);
                assert(builder.val(w, mixed) == chi_lane(b0.vals(w, state@), i as int));
                reveal(chi_iota_of);
            }
            lemma_carries_push(*builder, bi, b0, r@, lane, state@, f);
        }
        r.push(lane);
    }
    proof {
        reveal(chi_iota_of);
        assert forall|w: Seq<u64>| #[trigger] builder.vals(w, r@) == chi_iota_of(
            b0.vals(w, state@),
            round as int,
        ) by {
            assert(builder.vals(w, r@) =~= chi_iota_of(b0.vals(w, state@), round as int));
        }
    }
    r
}

/// The permutation Keccak-f[1600] on 25 lanes in the order `x + 5*y`.
pub fn keccak_f1600(builder: &mut CircuitBuilder, state: &Vec<Wire>) -> (r: Vec<Wire>)
    requires
        old(builder).wf(),
        old(builder).has_all(state@),
        state@.len() == 25,
    ensures
        final(builder).computes_on(*old(builder)),
        final(builder).has_all(r@),
        r@.len() == 25,
        forall|w: Seq<u64>|
            #[trigger] final(builder).vals(w, r@) == keccak_f(old(builder).vals(w, state@)),
{
    let ghost b0 = *builder;
    let mut cur: Vec<Wire> = state.clone();
    proof {
        assert(cur@ =~= state@);
    }
    for round in 0..24
        invariant
            b0.wf(),
            builder.computes_on(b0),
            builder.has_all(cur@),
            cur@.len() == 25,
            forall|w: Seq<u64>|
                #[trigger] builder.vals(w, cur@) == rounds_state(
                    b0.vals(w, state@),
                    round as nat,
                ),
    {
        let ghost bi = *builder;
        let ghost ci = cur@;
        let pre_chi = theta_rho_pi(builder, &cur);
        let ghost bp = *builder;
        cur = chi_iota(builder, &pre_chi, round);
        proof {
            assert forall|w: Seq<u64>| #[trigger] builder.vals(w, cur@) == rounds_state(
                b0.vals(w, state@),
                (round + 1) as nat,
            ) by {
                assert(bi.vals(w, ci) == rounds_state(b0.vals(w, state@), round as nat));
                assert(bp.vals(w, pre_chi@) == pre_chi_of(bi.vals(w, ci)));
            }
        }
    }
    cur
}

} // verus!
