//! Data-parallel maps.
use rayon::iter::{IntoParallelIterator, ParallelIterator};
use vstd::prelude::*;

verus! {

/// Applies `f` to every index below `n` on the thread pool, through rayon's parallel `map` and
/// `collect` on an index range.
///
/// What is not proved: that rayon calls `f` once on every index of the range, and collects the
/// results into the vector in the order of the indices.
#[verifier::external_body]
pub(crate) fn par_map_indices<T: Send, G: Fn(usize) -> T + Sync + Send>(n: usize, f: G) -> (r: Vec<T>)
    requires
        forall|i: usize| i < n ==> call_requires(f, (i,)),
    ensures
        r@.len() == n,
        forall|i: int| 0 <= i < n ==> call_ensures(f, (i as usize,), #[trigger] r@[i]),
{
    (0..n).into_par_iter().map(f).collect()
}

} // verus!
