//! The quarter-round circuit.
use crate::blake3::reference::g_words;
use crate::circuit::{CircuitBuilder, Wire};
use vstd::prelude::*;

verus! {

/// Whether every wire of a list carries a 32-bit word.
pub open spec fn all_32(b: CircuitBuilder, w: Seq<u64>, xs: Seq<Wire>) -> bool {
    forall|i: int| 0 <= i < xs.len() ==> b.val(w, #[trigger] xs[i]) <= 0xffff_ffff
}

/// The low halves of the words on a list of wires.
pub open spec fn words32(b: CircuitBuilder, w: Seq<u64>, xs: Seq<Wire>) -> Seq<u32> {
    Seq::new(xs.len(), |i: int| b.val(w, xs[i]) as u32)
}

/// Wires keep their words as the circuit grows.
pub proof fn lemma_words32_kept(pre: CircuitBuilder, post: CircuitBuilder, w: Seq<u64>, xs: Seq<Wire>)
    requires
        post.extends(pre),
        pre.has_all(xs),
    ensures
        words32(post, w, xs) == words32(pre, w, xs),
        all_32(post, w, xs) == all_32(pre, w, xs),
        post.has_all(xs),
{
    assert(words32(post, w, xs) =~= words32(pre, w, xs));
    assert forall|i: int| 0 <= i < xs.len() implies post.val(w, #[trigger] xs[i]) == pre.val(w, xs[i]) by {}
}

/// The quarter-round on four state wires with two message wires.
pub fn g_function(
    builder: &mut CircuitBuilder,
    a: Wire,
    b: Wire,
    c: Wire,
    d: Wire,
    mx: Wire,
    my: Wire,
) -> (r: (Wire, Wire, Wire, Wire))
    requires
        old(builder).wf(),
        old(builder).has(a),
        old(builder).has(b),
        old(builder).has(c),
        old(builder).has(d),
        old(builder).has(mx),
        old(builder).has(my),
    ensures
        final(builder).computes_on(*old(builder)),
        final(builder).has(r.0),
        final(builder).has(r.1),
        final(builder).has(r.2),
        final(builder).has(r.3),
        forall|w: Seq<u64>|
            #![trigger final(builder).val(w, r.0)]
            #![trigger final(builder).val(w, r.1)]
            #![trigger final(builder).val(w, r.2)]
            #![trigger final(builder).val(w, r.3)]
            all_32(*old(builder), w, seq![a, b, c, d, mx, my]) ==> {
                let q = g_words(
                    old(builder).val(w, a) as u32,
                    old(builder).val(w, b) as u32,
                    old(builder).val(w, c) as u32,
                    old(builder).val(w, d) as u32,
                    old(builder).val(w, mx) as u32,
                    old(builder).val(w, my) as u32,
                );
                &&& final(builder).val(w, r.0) == q.0
                &&& final(builder).val(w, r.1) == q.1
                &&& final(builder).val(w, r.2) == q.2
                &&& final(builder).val(w, r.3) == q.3
            },
{
    let ghost b0 = *builder;
    let ab = builder.iadd_32(a, b);
    let a1 = builder.iadd_32(ab, mx);
    let da = builder.bxor(d, a1);
    let d1 = builder.rotr_32(da, 16);
    let c1 = builder.iadd_32(c, d1);
    let bc = builder.bxor(b, c1);
    let b1 = builder.rotr_32(bc, 12);
    let ab1 = builder.iadd_32(a1, b1);
    let a2 = builder.iadd_32(ab1, my);
    let da2 = builder.bxor(d1, a2);
    let d2 = builder.rotr_32(da2, 8);
    let c2 = builder.iadd_32(c1, d2);
    let bc2 = builder.bxor(b1, c2);
    let b2 = builder.rotr_32(bc2, 7);
    proof {
        assert forall|w: Seq<u64>| all_32(b0, w, seq![a, b, c, d, mx, my]) implies {
            let q = g_words(
                b0.val(w, a) as u32,
                b0.val(w, b) as u32,
                b0.val(w, c) as u32,
                b0.val(w, d) as u32,
                b0.val(w, mx) as u32,
                b0.val(w, my) as u32,
            );
            &&& #[trigger] builder.val(w, a2) == q.0
            &&& builder.val(w, b2) == q.1
            &&& builder.val(w, c2) == q.2
            &&& builder.val(w, d2) == q.3
        } by {
            let xs = seq![a, b, c, d, mx, my];
            assert(xs[1] == b && xs[3] == d);
            assert(b0.val(w, xs[1]) <= 0xffff_ffff && b0.val(w, xs[3]) <= 0xffff_ffff);
            assert(builder.val(w, da) as u32 == b0.val(w, d) as u32 ^ builder.val(w, a1) as u32);
            assert(builder.val(w, bc) as u32 == b0.val(w, b) as u32 ^ builder.val(w, c1) as u32);
            assert(builder.val(w, da2) as u32 == builder.val(w, d1) as u32 ^ builder.val(w, a2) as u32);
            assert(builder.val(w, bc2) as u32 == builder.val(w, b1) as u32 ^ builder.val(w, c2) as u32);
            assert(builder.val(w, b2) as u32 == builder.val(w, b2));
        }
    }
    (a2, b2, c2, d2)
}

} // verus!
