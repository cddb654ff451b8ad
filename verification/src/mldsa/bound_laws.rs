//! Laws of the bounds on lists of coefficients: a list meets a bound exactly where both of its parts
//! do, and one coefficient meets it where it lies in the range.
use super::hint::all_bits;
use super::packing::{all_at_most, z_norm_ok};
use super::use_hint::all_below_q;
use vstd::prelude::*;

verus! {

/// Every coefficient is bounded: a list put together of two meets each bound exactly where both parts
/// do.
pub proof fn lemma_bounds_join(a: Seq<u64>, b: Seq<u64>, max: u64)
    ensures
        z_norm_ok(a + b) == (z_norm_ok(a) && z_norm_ok(b)),
        all_below_q(a + b) == (all_below_q(a) && all_below_q(b)),
        all_at_most(a + b, max) == (all_at_most(a, max) && all_at_most(b, max)),
        all_bits(a + b) == (all_bits(a) && all_bits(b)),
{
    let c = a + b;
    assert forall|i: int| 0 <= i < a.len() implies #[trigger] a[i] == c[i] by {}
    assert forall|i: int| 0 <= i < b.len() implies #[trigger] b[i] == c[a.len() + i] by {}
    assert forall|i: int| 0 <= i < c.len() implies #[trigger] c[i] == (if i < a.len() {
        a[i]
    } else {
        b[i - a.len()]
    }) by {}
    if z_norm_ok(a) && z_norm_ok(b) {
        assert(z_norm_ok(c));
    }
    if all_below_q(a) && all_below_q(b) {
        assert(all_below_q(c));
    }
}

/// A packed coefficient `y` stands for `gamma1 - y`, which is below `gamma1 - beta` in absolute value
/// exactly where `y` lies between 78 and 262066; a reduced coefficient is below 8380417, and a hint
/// bit is zero or one.
pub proof fn lemma_single_bounds(y: u64, max: u64)
    ensures
        z_norm_ok(seq![y]) == (78 < y < 262066),
        all_below_q(seq![y]) == (y < 8380417),
        all_at_most(seq![y], max) == (y <= max),
        all_bits(seq![y]) == (y == 0 || y == 1),
        z_norm_ok(Seq::empty()) && all_below_q(Seq::empty()) && all_bits(Seq::empty()),
{
    let s = seq![y];
    assert(s[0] == y);
    if z_norm_ok(s) {
        assert(s[0] == y);
    }
}

} // verus!
