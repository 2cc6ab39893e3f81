//! Plain merge sort behind a small sorter object: the instrumented
//! routine run with a scratch tracker.

use vstd::prelude::*;
use crate::order::{TotalOrder, DupValue, sorted_leq};
use crate::sorting::sort_tracker::SortTracker;

verus! {

/// A stateless merge sorter.
pub struct MergeSort {}

impl MergeSort {
    /// Creates a merge sorter.
    pub fn new() -> Self {
        MergeSort {  }
    }

    /// Sorts the vector in ascending order.
    pub fn sort<T: TotalOrder + DupValue>(&self, arr: &mut Vec<T>)
        ensures
            final(arr)@.to_multiset() == old(arr)@.to_multiset(),
            sorted_leq(final(arr)@),
    {
        let mut tracker = SortTracker::new();
        crate::sorting::merge_sort_with_tracking::merge_sort(arr, &mut tracker);
    }
}

} // verus!
