//! Insertion sort, instrumented: every comparison and exchange goes
//! through the tracker, which counts them.

use vstd::prelude::*;
use crate::order::{TotalOrder, sorted_leq, sorted_between};
use crate::sorting::sort_tracker::SortTracker;
use crate::heaps::heap::lemma_swap_multiset;
use crate::seq_facts::lemma_splice_whole;

verus! {

broadcast use {vstd::seq_lib::group_to_multiset_ensures, vstd::multiset::group_multiset_axioms};

/// Sorts the vector in ascending order by repeatedly bubbling each
/// element left into the sorted prefix, recording every comparison and
/// exchange in the tracker.
pub fn insertion_sort<T: TotalOrder>(arr: &mut Vec<T>, tracker: &mut SortTracker)
    ensures
        final(arr)@.to_multiset() == old(arr)@.to_multiset(),
        sorted_leq(final(arr)@),
{
    tracker.start_timer();
    let len = arr.len();
    sort_range(arr, 0, len, tracker);
    proof {
        lemma_splice_whole(old(arr)@, arr@, 0, len as int);
    }
    tracker.stop_timer();
}

/// Insertion sort of the window `[lo, hi)`, leaving everything outside
/// the window untouched.
pub(crate) fn sort_range<T: TotalOrder>(
    arr: &mut Vec<T>,
    lo: usize,
    hi: usize,
    tracker: &mut SortTracker,
)
    requires
        lo <= hi <= old(arr)@.len(),
    ensures
        final(arr)@.len() == old(arr)@.len(),
        forall|k: int| 0 <= k < lo ==> final(arr)@[k] == old(arr)@[k],
        forall|k: int| hi <= k < old(arr)@.len() ==> final(arr)@[k] == old(arr)@[k],
        final(arr)@.subrange(lo as int, hi as int).to_multiset() == old(arr)@.subrange(
            lo as int,
            hi as int,
        ).to_multiset(),
        sorted_between(final(arr)@, lo as int, hi as int),
{
    if hi <= lo {
        return ;
    }
    let mut i: usize = lo + 1;
    while i < hi
        invariant
            lo + 1 <= i,
            i <= hi <= arr@.len(),
            arr@.len() == old(arr)@.len(),
            forall|k: int| 0 <= k < lo ==> arr@[k] == old(arr)@[k],
            forall|k: int| hi <= k < old(arr)@.len() ==> arr@[k] == old(arr)@[k],
            arr@.subrange(lo as int, hi as int).to_multiset() == old(arr)@.subrange(
                lo as int,
                hi as int,
            ).to_multiset(),
            sorted_between(arr@, lo as int, i as int),
        decreases hi - i,
    {
        let mut j: usize = i;
        while j > lo
            invariant
                lo <= j <= i < hi <= arr@.len(),
                arr@.len() == old(arr)@.len(),
                forall|k: int| 0 <= k < lo ==> arr@[k] == old(arr)@[k],
                forall|k: int| hi <= k < old(arr)@.len() ==> arr@[k] == old(arr)@[k],
                arr@.subrange(lo as int, hi as int).to_multiset() == old(arr)@.subrange(
                    lo as int,
                    hi as int,
                ).to_multiset(),
                sorted_between(arr@, lo as int, j as int),
                sorted_between(arr@, j as int, i as int + 1),
                forall|a: int, b: int|
                    lo <= a < j && j < b <= i ==> T::leq_spec(#[trigger] arr@[a], #[trigger] arr@[b]),
            ensures
                arr@.len() == old(arr)@.len(),
                forall|k: int| 0 <= k < lo ==> arr@[k] == old(arr)@[k],
                forall|k: int| hi <= k < old(arr)@.len() ==> arr@[k] == old(arr)@[k],
                arr@.subrange(lo as int, hi as int).to_multiset() == old(arr)@.subrange(
                    lo as int,
                    hi as int,
                ).to_multiset(),
                sorted_between(arr@, lo as int, i as int + 1),
            decreases j,
        {
            let advance = tracker.compare_lt(arr, j, j - 1);
            if !advance {
                proof {
                    lemma_stitch::<T>(arr@, lo as int, j as int, i as int);
                }
                break ;
            }
            let ghost s0 = arr@;
            tracker.swap(arr, j, j - 1);
            proof {
                let s1 = arr@;
                lemma_swap_multiset(s0.subrange(lo as int, hi as int), j - lo, j - 1 - lo as int);
                assert(s1.subrange(lo as int, hi as int) =~= s0.subrange(lo as int, hi as int)
                    .update(j - lo, s0[j - 1]).update(j - 1 - lo as int, s0[j as int]));
                assert(s0.subrange(lo as int, hi as int).update(j - 1 - lo as int, s0[j as int])
                    .update(j - lo, s0[j - 1]) =~= s0.subrange(lo as int, hi as int).update(
                    j - lo,
                    s0[j - 1],
                ).update(j - 1 - lo as int, s0[j as int]));
                T::lemma_connex(s0[j as int], s0[j - 1]);
                assert forall|a: int, b: int|
                    (j - 1) <= a < b <= i as int implies T::leq_spec(
                    #[trigger] s1[a],
                    #[trigger] s1[b],
                ) by {
                    if a == j - 1 && b == j as int {
                        assert(s1[a] == s0[j as int] && s1[b] == s0[j - 1]);
                    } else if a == j - 1 {
                        assert(s1[a] == s0[j as int] && s1[b] == s0[b]);
                    } else if a == j as int {
                        assert(s1[a] == s0[j - 1] && s1[b] == s0[b]);
                    }
                }
            }
            j = j - 1;
            proof {
                if j == lo {
                    assert(sorted_between(arr@, lo as int, i as int + 1));
                }
            }
        }
        i = i + 1;
    }
}

/// Joining the two sorted runs around `j`, when the boundary pair is in
/// order, yields one sorted run.
proof fn lemma_stitch<T: TotalOrder>(s: Seq<T>, lo: int, j: int, i: int)
    requires
        0 <= lo < j <= i < s.len(),
        sorted_between(s, lo, j),
        sorted_between(s, j, i + 1),
        forall|a: int, b: int| lo <= a < j && j < b <= i ==> T::leq_spec(#[trigger] s[a], #[trigger] s[b]),
        T::leq_spec(s[j - 1], s[j]),
    ensures
        sorted_between(s, lo, i + 1),
{
    assert forall|a: int, b: int| lo <= a < b <= i implies T::leq_spec(
        #[trigger] s[a],
        #[trigger] s[b],
    ) by {
        if a < j && b == j {
            if a < j - 1 {
                T::lemma_transitive(s[a], s[j - 1], s[j]);
            }
        }
    }
}

} // verus!
