//! The two parallel iterations over a vector that the mesher runs on
//! rayon's thread pool. Their contracts are taken on trust from rayon.

use vstd::prelude::*;
use rayon::iter::IntoParallelRefIterator;
use rayon::iter::ParallelIterator;

verus! {

/// `items.par_iter().any(pred)` of rayon: whether `pred` accepts some
/// element. The contract claims that `true` comes with an element on which
/// `pred` returned `true`, and `false` only after `pred` returned `false` on
/// every element.
#[verifier::external_body]
pub(crate) fn par_any<T: Sync, P: Fn(&T) -> bool + Sync + Send>(items: &Vec<T>, pred: P) -> (found:
    bool)
    requires
        forall|i: int| 0 <= i < items.len() ==> call_requires(pred, (&#[trigger] items[i],)),
    ensures
        found ==> exists|i: int|
            0 <= i < items.len() && call_ensures(pred, (&#[trigger] items[i],), true),
        !found ==> forall|i: int|
            0 <= i < items.len() ==> call_ensures(pred, (&#[trigger] items[i],), false),
{
    items.par_iter().any(pred)
}

/// `items.par_iter().map(f).collect()` of rayon into a vector. The contract
/// claims that the result has one element for each element of `items`, in
/// the same order, and that each is what `f` returned for it.
#[verifier::external_body]
pub(crate) fn par_map<T: Sync, U: Send, F: Fn(&T) -> U + Sync + Send>(items: &Vec<T>, f: F) -> (out:
    Vec<U>)
    requires
        forall|i: int| 0 <= i < items.len() ==> call_requires(f, (&#[trigger] items[i],)),
    ensures
        out.len() == items.len(),
        forall|i: int|
            0 <= i < items.len() ==> call_ensures(f, (&items[i],), #[trigger] out[i]),
{
    items.par_iter().map(f).collect()
}

} // verus!
