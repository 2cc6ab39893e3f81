//! Quicksort with first-element pivots, instrumented: every comparison
//! and exchange goes through the tracker.

use vstd::prelude::*;
use crate::order::{TotalOrder, sorted_leq, sorted_between};
use crate::sorting::sort_tracker::SortTracker;
use crate::seq_facts::{lemma_splice_multiset, lemma_splice_whole, lemma_window_member};

verus! {

broadcast use {vstd::seq_lib::group_to_multiset_ensures, vstd::multiset::group_multiset_axioms};

/// Sorts the vector in ascending order, recording every comparison and
/// exchange in the tracker.
pub fn quick_sort<T: TotalOrder>(arr: &mut Vec<T>, tracker: &mut SortTracker)
    ensures
        final(arr)@.to_multiset() == old(arr)@.to_multiset(),
        sorted_leq(final(arr)@),
{
    tracker.start_timer();
    if arr.len() > 0 {
        let high = arr.len() - 1;
        quick_sort_recursive(arr, 0, high, tracker);
        proof {
            lemma_splice_whole(old(arr)@, arr@, 0, arr@.len() as int);
        }
    }
    tracker.stop_timer();
}

/// Sorts the window `[low, high]`, both bounds inclusive.
pub(crate) fn quick_sort_recursive<T: TotalOrder>(
    arr: &mut Vec<T>,
    low: usize,
    high: usize,
    tracker: &mut SortTracker,
)
    requires
        low <= high < old(arr)@.len(),
    ensures
        final(arr)@.len() == old(arr)@.len(),
        forall|k: int| 0 <= k < low ==> final(arr)@[k] == old(arr)@[k],
        forall|k: int| high < k < old(arr)@.len() ==> final(arr)@[k] == old(arr)@[k],
        final(arr)@.subrange(low as int, high + 1).to_multiset() == old(arr)@.subrange(
            low as int,
            high + 1,
        ).to_multiset(),
        sorted_between(final(arr)@, low as int, high + 1),
    decreases high - low,
{
    if high <= low {
        return ;
    }
    let ghost s0 = arr@;
    let p = partition(arr, low, high, tracker);
    let ghost s1 = arr@;
    let ghost pv = arr@[p as int];
    if p > low {
        quick_sort_recursive(arr, low, p - 1, tracker);
        proof {
            lemma_splice_multiset(s1, arr@, low as int, low as int, p as int, high + 1);
            // the left window still holds only elements below the pivot
            assert forall|k: int| low <= k < p implies !T::leq_spec(
                pv,
                #[trigger] arr@[k],
            ) by {
                let k0 = lemma_window_member(s1, arr@, low as int, p as int, k);
            }
        }
    }
    let ghost s2 = arr@;
    if p < high {
        quick_sort_recursive(arr, p + 1, high, tracker);
        proof {
            lemma_splice_multiset(s2, arr@, low as int, p + 1, high + 1, high + 1);
            assert forall|k: int| p < k <= high implies T::leq_spec(
                pv,
                #[trigger] arr@[k],
            ) by {
                let k0 = lemma_window_member(s2, arr@, p + 1, high + 1, k);
            }
        }
    }
    proof {
        assert(arr@[p as int] == pv);
        assert forall|a: int, b: int|
            low <= a < b <= high as int implies T::leq_spec(
            #[trigger] arr@[a],
            #[trigger] arr@[b],
        ) by {
            if a < p {
                T::lemma_connex(pv, arr@[a]);
            }
            if b == p as int && a < p {
                // leq(arr[a], pv) from connex above
            } else if a == p as int && b > p {
            } else if a < p && b > p {
                T::lemma_transitive(arr@[a], pv, arr@[b]);
            }
        }
        assert(sorted_between(arr@, low as int, high + 1));
    }
}

/// Lomuto partition around the first element of the window: afterwards
/// the pivot value sits at the returned position, everything left of it
/// ranks strictly below it, and everything right of it does not.
pub(crate) fn partition<T: TotalOrder>(
    arr: &mut Vec<T>,
    low: usize,
    high: usize,
    tracker: &mut SortTracker,
) -> (p: usize)
    requires
        low < high < old(arr)@.len(),
    ensures
        low <= p <= high,
        final(arr)@.len() == old(arr)@.len(),
        forall|k: int| 0 <= k < low ==> final(arr)@[k] == old(arr)@[k],
        forall|k: int| high < k < old(arr)@.len() ==> final(arr)@[k] == old(arr)@[k],
        final(arr)@.subrange(low as int, high + 1).to_multiset() == old(arr)@.subrange(
            low as int,
            high + 1,
        ).to_multiset(),
        forall|k: int|
            low <= k < p ==> !T::leq_spec(final(arr)@[p as int], #[trigger] final(arr)@[k]),
        forall|k: int| p < k <= high ==> T::leq_spec(final(arr)@[p as int], #[trigger] final(arr)@[k]),
{
    let ghost orig = arr@;
    proof {
        vstd::std_specs::vec::axiom_spec_len(arr);
    }
    let ghost pv = arr@[low as int];
    let mut leftwall: usize = low + 1;
    let mut i: usize = low + 1;
    while i <= high
        invariant
            low < high < arr@.len(),
            orig.len() <= usize::MAX,
            low + 1 <= leftwall <= i <= high + 1,
            arr@.len() == orig.len(),
            arr@[low as int] == pv,
            forall|k: int| 0 <= k < low ==> arr@[k] == orig[k],
            forall|k: int| high < k < orig.len() ==> arr@[k] == orig[k],
            arr@.subrange(low as int, high + 1).to_multiset() == orig.subrange(
                low as int,
                high + 1,
            ).to_multiset(),
            forall|k: int| low < k < leftwall ==> !T::leq_spec(pv, #[trigger] arr@[k]),
            forall|k: int| leftwall <= k < i ==> T::leq_spec(pv, #[trigger] arr@[k]),
        decreases high + 1 - i,
    {
        let smaller = tracker.compare_lt(arr, i, low);
        if smaller {
            let ghost s0 = arr@;
            tracker.swap(arr, i, leftwall);
            proof {
                lemma_swap_window(s0, arr@, low as int, high + 1, i as int, leftwall as int);
            }
            leftwall = leftwall + 1;
        } else {
            proof {
                T::lemma_connex(pv, arr@[i as int]);
            }
        }
        i = i + 1;
    }
    let ghost s0 = arr@;
    tracker.swap(arr, low, leftwall - 1);
    let p = leftwall - 1;
    proof {
        lemma_swap_window(s0, arr@, low as int, high + 1, low as int, p as int);
        assert(arr@[p as int] == pv);
        assert forall|k: int| low <= k < p implies !T::leq_spec(pv, #[trigger] arr@[k]) by {
            if k == low {
                assert(arr@[k] == s0[p as int]);
            } else {
                assert(arr@[k] == s0[k]);
            }
        }
        assert forall|k: int| p < k <= high as int implies T::leq_spec(pv, #[trigger] arr@[k]) by {
            assert(arr@[k] == s0[k]);
        }
    }
    p
}

/// A swap of two slots inside a window leaves the window's multiset
/// unchanged and everything outside the window in place.
pub proof fn lemma_swap_window<T>(s0: Seq<T>, s1: Seq<T>, lo: int, hi: int, i: int, j: int)
    requires
        s0.len() == s1.len(),
        0 <= lo <= i < hi <= s0.len(),
        lo <= j < hi,
        s1 == s0.update(i, s0[j]).update(j, s0[i]),
    ensures
        s1.subrange(lo, hi).to_multiset() == s0.subrange(lo, hi).to_multiset(),
        forall|k: int| 0 <= k < lo ==> s1[k] == s0[k],
        forall|k: int| hi <= k < s0.len() ==> s1[k] == s0[k],
{
    if i == j {
        assert(s1 =~= s0);
        assert(s1.subrange(lo, hi) =~= s0.subrange(lo, hi));
    } else {
        let w0 = s0.subrange(lo, hi);
        let w1 = s1.subrange(lo, hi);
        crate::heaps::heap::lemma_swap_multiset(w0, i - lo, j - lo);
        assert(w1 =~= w0.update(i - lo, w0[j - lo]).update(j - lo, w0[i - lo]));
    }
}

} // verus!
