//! Plain modified quicksort (median-of-three pivots, insertion-sort
//! cutoff): the instrumented routine run with a scratch tracker.

use vstd::prelude::*;
use crate::order::{TotalOrder, sorted_leq};
use crate::sorting::sort_tracker::SortTracker;

verus! {

/// Sorts the vector in ascending order; windows of at most `cutoff`
/// elements are finished by insertion sort.
pub fn quick_sort<T: TotalOrder>(arr: &mut Vec<T>, cutoff: usize)
    ensures
        final(arr)@.to_multiset() == old(arr)@.to_multiset(),
        sorted_leq(final(arr)@),
{
    let mut tracker = SortTracker::new();
    crate::sorting::quick_sort_mod_with_tracking::quick_sort(arr, cutoff, &mut tracker);
}

} // verus!
