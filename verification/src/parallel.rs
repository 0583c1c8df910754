use rayon::iter::{IntoParallelRefIterator, ParallelIterator};
use vstd::prelude::*;

verus! {

/// Applies `f` to every item on rayon's thread pool, with the results in the
/// order of the items: rayon's `par_iter`, `map` and `collect` into a `Vec`.
///
/// What is trusted is that rayon calls `f` on each item, once, and puts the
/// value that came back at the item's own place.
#[verifier::external_body]
pub(crate) fn map_in_parallel<T: Sync, U: Send, F: Fn(&T) -> U + Sync + Send>(
    items: &[T],
    f: F,
) -> (r: Vec<U>)
    requires
        forall|i: int| 0 <= i < items@.len() ==> call_requires(f, (&#[trigger] items@[i],)),
    ensures
        r@.len() == items@.len(),
        forall|i: int|
            0 <= i < items@.len() ==> call_ensures(f, (&items@[i],), #[trigger] r@[i]),
{
    items.par_iter().map(f).collect()
}

} // verus!
