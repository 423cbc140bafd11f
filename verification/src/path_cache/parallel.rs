//! Work on several threads, done by the rayon crate.

use rayon::prelude::{IntoParallelIterator, ParallelIterator};

use vstd::prelude::*;

verus! {

/// Calls `work` for each number below `count`, on several threads, and collects the results
/// in the order of the numbers.
///
/// This is `into_par_iter` of rayon on the range of the numbers, with `map` and `collect`.
/// The map is applied to every item of the range, and collecting an indexed parallel
/// iterator into a vector keeps the order of the items.
#[verifier::external_body]
pub(super) fn map_parallel<T: Send, F: Fn(usize) -> T + Sync + Send>(
    count: usize,
    work: F,
) -> (results: Vec<T>)
    requires
        forall|i: usize| i < count ==> #[trigger] call_requires(work, (i,)),
    ensures
        results@.len() == count,
        forall|i: int|
            0 <= i < count ==> call_ensures(work, (i as usize,), #[trigger] results@[i]),
{
    (0..count).into_par_iter().map(work).collect()
}

} // verus!
