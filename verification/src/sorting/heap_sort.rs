//! Plain heapsort: the instrumented routine run with a scratch tracker.

use vstd::prelude::*;
use crate::order::{TotalOrder, sorted_leq};
use crate::sorting::sort_tracker::SortTracker;

verus! {

/// Sorts the vector in ascending order.
pub fn heap_sort<T: TotalOrder>(arr: &mut Vec<T>)
    ensures
        final(arr)@.to_multiset() == old(arr)@.to_multiset(),
        sorted_leq(final(arr)@),
{
    let mut tracker = SortTracker::new();
    crate::sorting::heap_sort_with_tracking::heap_sort(arr, &mut tracker);
}

} // verus!
