//! Quicksort with median-of-three pivot selection and an insertion-sort
//! cutoff for small windows, instrumented through the tracker.

use vstd::prelude::*;
use crate::order::{TotalOrder, sorted_leq, sorted_between};
use crate::sorting::sort_tracker::SortTracker;
use crate::sorting::quick_sort_with_tracking::{partition, lemma_swap_window};
use crate::seq_facts::{lemma_splice_multiset, lemma_splice_whole, lemma_window_member};

verus! {

broadcast use {vstd::seq_lib::group_to_multiset_ensures, vstd::multiset::group_multiset_axioms};

/// Sorts the vector in ascending order; windows of at most `cutoff`
/// elements are finished by insertion sort.
pub fn quick_sort<T: TotalOrder>(arr: &mut Vec<T>, cutoff: usize, tracker: &mut SortTracker)
    ensures
        final(arr)@.to_multiset() == old(arr)@.to_multiset(),
        sorted_leq(final(arr)@),
{
    tracker.start_timer();
    if arr.len() == 0 {
        return ;
    }
    let high = arr.len() - 1;
    quick_sort_recursive(arr, 0, high, cutoff, tracker);
    proof {
        lemma_splice_whole(old(arr)@, arr@, 0, arr@.len() as int);
    }
    tracker.stop_timer();
}

/// Sorts the window `[low, high]`, both bounds inclusive.
fn quick_sort_recursive<T: TotalOrder>(
    arr: &mut Vec<T>,
    low: usize,
    high: usize,
    cutoff: usize,
    tracker: &mut SortTracker,
)
    requires
        low <= high < old(arr)@.len(),
    ensures
        final(arr)@.len() == old(arr)@.len(),
        forall|k: int| 0 <= k < low ==> final(arr)@[k] == old(arr)@[k],
        forall|k: int| high < k < old(arr)@.len() ==> final(arr)@[k] == old(arr)@[k],
        final(arr)@.subrange(low as int, high + 1).to_multiset() == old(arr)@.subrange(
            low as int,
            high + 1,
        ).to_multiset(),
        sorted_between(final(arr)@, low as int, high + 1),
    decreases high - low,
{
    proof {
        vstd::std_specs::vec::axiom_spec_len(arr);
    }
    if high <= low {
        return ;
    }
    if high - low < cutoff {
        // at most `cutoff` elements: hand the window to insertion sort
        tracker.start_timer();
        crate::sorting::insertion_sort_with_tracking::sort_range(arr, low, high + 1, tracker);
        tracker.stop_timer();
        return ;
    }
    let ghost s0 = arr@;
    let p = partition_mod(arr, low, high, tracker);
    let ghost s1 = arr@;
    let ghost pv = arr@[p as int];
    if p > low {
        quick_sort_recursive(arr, low, p - 1, cutoff, tracker);
        proof {
            lemma_splice_multiset(s1, arr@, low as int, low as int, p as int, high + 1);
            assert forall|k: int| low <= k < p implies !T::leq_spec(
                pv,
                #[trigger] arr@[k],
            ) by {
                let k0 = lemma_window_member(s1, arr@, low as int, p as int, k);
            }
        }
    }
    let ghost s2 = arr@;
    if p < high {
        quick_sort_recursive(arr, p + 1, high, cutoff, tracker);
        proof {
            lemma_splice_multiset(s2, arr@, low as int, p + 1, high + 1, high + 1);
            assert forall|k: int| p < k <= high implies T::leq_spec(
                pv,
                #[trigger] arr@[k],
            ) by {
                let k0 = lemma_window_member(s2, arr@, p + 1, high + 1, k);
            }
        }
    }
    proof {
        assert(arr@[p as int] == pv);
        assert forall|a: int, b: int|
            low <= a < b <= high as int implies T::leq_spec(
            #[trigger] arr@[a],
            #[trigger] arr@[b],
        ) by {
            if a < p {
                T::lemma_connex(pv, arr@[a]);
            }
            if a < p && b > p {
                T::lemma_transitive(arr@[a], pv, arr@[b]);
            }
        }
        assert(sorted_between(arr@, low as int, high + 1));
    }
}

/// Partition around a median-of-three pivot: the median of the first,
/// middle and last elements of the window is moved to the front and the
/// window is then split as in the plain variant.
fn partition_mod<T: TotalOrder>(
    arr: &mut Vec<T>,
    low: usize,
    high: usize,
    tracker: &mut SortTracker,
) -> (p: usize)
    requires
        low < high < old(arr)@.len(),
    ensures
        low <= p <= high,
        final(arr)@.len() == old(arr)@.len(),
        forall|k: int| 0 <= k < low ==> final(arr)@[k] == old(arr)@[k],
        forall|k: int| high < k < old(arr)@.len() ==> final(arr)@[k] == old(arr)@[k],
        final(arr)@.subrange(low as int, high + 1).to_multiset() == old(arr)@.subrange(
            low as int,
            high + 1,
        ).to_multiset(),
        forall|k: int|
            low <= k < p ==> !T::leq_spec(final(arr)@[p as int], #[trigger] final(arr)@[k]),
        forall|k: int| p < k <= high ==> T::leq_spec(final(arr)@[p as int], #[trigger] final(arr)@[k]),
{
    let ghost orig = arr@;
    let midpoint = median_of_three(arr, low, high, tracker);
    let ghost s1 = arr@;
    tracker.swap(arr, midpoint, low);
    proof {
        lemma_swap_window(s1, arr@, low as int, high + 1, midpoint as int, low as int);
        crate::seq_facts::lemma_trans_multiset(
            orig.subrange(low as int, high + 1),
            s1.subrange(low as int, high + 1),
            arr@.subrange(low as int, high + 1),
        );
    }
    let ghost s2 = arr@;
    let p = partition(arr, low, high, tracker);
    proof {
        crate::seq_facts::lemma_trans_multiset(
            orig.subrange(low as int, high + 1),
            s2.subrange(low as int, high + 1),
            arr@.subrange(low as int, high + 1),
        );
    }
    p
}

/// Orders the first, middle and last elements of the window among
/// themselves and returns the middle index, where the median now sits.
fn median_of_three<T: TotalOrder>(
    arr: &mut Vec<T>,
    low: usize,
    high: usize,
    tracker: &mut SortTracker,
) -> (m: usize)
    requires
        low < high < old(arr)@.len(),
    ensures
        low <= m <= high,
        final(arr)@.len() == old(arr)@.len(),
        forall|k: int| 0 <= k < low ==> final(arr)@[k] == old(arr)@[k],
        forall|k: int| high < k < old(arr)@.len() ==> final(arr)@[k] == old(arr)@[k],
        final(arr)@.subrange(low as int, high + 1).to_multiset() == old(arr)@.subrange(
            low as int,
            high + 1,
        ).to_multiset(),
{
    let ghost orig = arr@;
    let middle = low + (high - low) / 2;
    if tracker.compare_gt(arr, low, middle) {
        let ghost s0 = arr@;
        tracker.swap(arr, low, middle);
        proof {
            lemma_swap_window(s0, arr@, low as int, high + 1, low as int, middle as int);
            crate::seq_facts::lemma_trans_multiset(
                orig.subrange(low as int, high + 1),
                s0.subrange(low as int, high + 1),
                arr@.subrange(low as int, high + 1),
            );
        }
    }
    if tracker.compare_gt(arr, low, high) {
        let ghost s0 = arr@;
        tracker.swap(arr, low, high);
        proof {
            lemma_swap_window(s0, arr@, low as int, high + 1, low as int, high as int);
            crate::seq_facts::lemma_trans_multiset(
                orig.subrange(low as int, high + 1),
                s0.subrange(low as int, high + 1),
                arr@.subrange(low as int, high + 1),
            );
        }
    }
    if tracker.compare_gt(arr, middle, high) {
        let ghost s0 = arr@;
        tracker.swap(arr, middle, high);
        proof {
            lemma_swap_window(s0, arr@, low as int, high + 1, middle as int, high as int);
            crate::seq_facts::lemma_trans_multiset(
                orig.subrange(low as int, high + 1),
                s0.subrange(low as int, high + 1),
                arr@.subrange(low as int, high + 1),
            );
        }
    }
    middle
}

} // verus!
