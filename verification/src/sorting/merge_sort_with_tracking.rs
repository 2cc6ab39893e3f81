//! Merge sort, instrumented: the merge comparisons go through the
//! tracker.

use vstd::prelude::*;
use vstd::seq_lib::lemma_multiset_commutative;
use crate::order::{TotalOrder, DupValue, sorted_leq, sorted_between};
use crate::sorting::sort_tracker::SortTracker;
use crate::seq_facts::{lemma_splice_multiset, lemma_splice_whole, lemma_trans_multiset};

verus! {

broadcast use {vstd::seq_lib::group_to_multiset_ensures, vstd::multiset::group_multiset_axioms};

/// Sorts the vector in ascending order, recording every merge
/// comparison in the tracker.
pub fn merge_sort<T: TotalOrder + DupValue>(arr: &mut Vec<T>, tracker: &mut SortTracker)
    ensures
        final(arr)@.to_multiset() == old(arr)@.to_multiset(),
        sorted_leq(final(arr)@),
{
    if arr.len() > 0 {
        let end = arr.len() - 1;
        merge_sort_recursive(arr, 0, end, tracker);
        proof {
            lemma_splice_whole(old(arr)@, arr@, 0, arr@.len() as int);
        }
    }
}

/// Sorts the window `[start, end]`, both bounds inclusive.
pub(crate) fn merge_sort_recursive<T: TotalOrder + DupValue>(
    arr: &mut Vec<T>,
    start: usize,
    end: usize,
    tracker: &mut SortTracker,
)
    requires
        start <= end < old(arr)@.len(),
    ensures
        final(arr)@.len() == old(arr)@.len(),
        forall|k: int| 0 <= k < start ==> final(arr)@[k] == old(arr)@[k],
        forall|k: int| end < k < old(arr)@.len() ==> final(arr)@[k] == old(arr)@[k],
        final(arr)@.subrange(start as int, end + 1).to_multiset() == old(arr)@.subrange(
            start as int,
            end + 1,
        ).to_multiset(),
        sorted_between(final(arr)@, start as int, end + 1),
    decreases end - start,
{
    if start < end {
        let mid = start + (end - start) / 2;
        let ghost s0 = arr@;
        merge_sort_recursive(arr, start, mid, tracker);
        proof {
            lemma_splice_multiset(s0, arr@, start as int, start as int, mid + 1, end + 1);
        }
        let ghost s1 = arr@;
        merge_sort_recursive(arr, mid + 1, end, tracker);
        proof {
            lemma_splice_multiset(s1, arr@, start as int, mid + 1, end + 1, end + 1);
            lemma_trans_multiset(
                s0.subrange(start as int, end + 1),
                s1.subrange(start as int, end + 1),
                arr@.subrange(start as int, end + 1),
            );
            // the left run was untouched by the right recursion
            assert(sorted_between(arr@, start as int, mid + 1));
        }
        let ghost s2 = arr@;
        merge(arr, start, mid, end, tracker);
        proof {
            lemma_trans_multiset(
                s0.subrange(start as int, end + 1),
                s2.subrange(start as int, end + 1),
                arr@.subrange(start as int, end + 1),
            );
        }
    }
}

/// Merges the adjacent sorted runs `[left_first, left_last]` and
/// `[left_last + 1, right_last]` into one sorted run, through a scratch
/// buffer that is written back at the end.
fn merge<T: TotalOrder + DupValue>(
    arr: &mut Vec<T>,
    left_first: usize,
    left_last: usize,
    right_last: usize,
    tracker: &mut SortTracker,
)
    requires
        left_first <= left_last < right_last < old(arr)@.len(),
        sorted_between(old(arr)@, left_first as int, left_last + 1),
        sorted_between(old(arr)@, left_last + 1, right_last + 1),
    ensures
        final(arr)@.len() == old(arr)@.len(),
        forall|k: int| 0 <= k < left_first ==> final(arr)@[k] == old(arr)@[k],
        forall|k: int| right_last < k < old(arr)@.len() ==> final(arr)@[k] == old(arr)@[k],
        final(arr)@.subrange(left_first as int, right_last + 1).to_multiset() == old(
            arr,
        )@.subrange(left_first as int, right_last + 1).to_multiset(),
        sorted_between(final(arr)@, left_first as int, right_last + 1),
{
    proof {
        vstd::std_specs::vec::axiom_spec_len(arr);
    }
    let ghost orig = arr@;
    let lf = left_first;
    let ll = left_last;
    let rl = right_last;
    let mut merged: Vec<T> = Vec::new();
    let mut lp: usize = lf;
    let mut rp: usize = ll + 1;
    while lp <= ll || rp <= rl
        invariant
            lf <= ll < rl < arr@.len(),
            arr@ == orig,
            orig.len() <= usize::MAX,
            lf <= lp <= ll + 1,
            ll + 1 <= rp <= rl + 1,
            sorted_between(orig, lf as int, ll + 1),
            sorted_between(orig, ll + 1, rl + 1),
            merged@.len() == (lp - lf) + (rp - ll - 1),
            merged@.to_multiset() == orig.subrange(lf as int, lp as int).to_multiset().add(
                orig.subrange(ll + 1, rp as int).to_multiset(),
            ),
            sorted_leq(merged@),
            forall|i: int, k: int|
                0 <= i < merged@.len() && lp <= k <= ll ==> T::leq_spec(
                    #[trigger] merged@[i],
                    #[trigger] orig[k],
                ),
            forall|i: int, k: int|
                0 <= i < merged@.len() && rp <= k <= rl ==> T::leq_spec(
                    #[trigger] merged@[i],
                    #[trigger] orig[k],
                ),
        decreases (ll + 1 - lp) + (rl + 1 - rp),
    {
        let take_left = if lp <= ll && rp <= rl {
            tracker.compare_lte(arr, lp, rp)
        } else {
            lp <= ll
        };
        let ghost m0 = merged@;
        if take_left {
            let x = arr[lp].duplicate();
            merged.push(x);
            proof {
                assert(orig.subrange(lf as int, lp + 1) =~= orig.subrange(
                    lf as int,
                    lp as int,
                ).push(orig[lp as int]));
                assert(merged@.to_multiset() =~= orig.subrange(lf as int, lp + 1)
                    .to_multiset().add(orig.subrange(ll + 1, rp as int).to_multiset()));
                lemma_extend_sorted::<T>(m0, merged@, orig, lp as int, ll as int, rp as int, rl as int, true);
            }
            lp = lp + 1;
        } else {
            let x = arr[rp].duplicate();
            merged.push(x);
            proof {
                assert(orig.subrange(ll + 1, rp + 1) =~= orig.subrange(ll + 1, rp as int).push(
                    orig[rp as int],
                ));
                assert(merged@.to_multiset() =~= orig.subrange(lf as int, lp as int)
                    .to_multiset().add(orig.subrange(ll + 1, rp + 1).to_multiset()));
                if lp <= ll {
                    T::lemma_connex(orig[lp as int], orig[rp as int]);
                }
                lemma_extend_sorted::<T>(m0, merged@, orig, lp as int, ll as int, rp as int, rl as int, false);
            }
            rp = rp + 1;
        }
    }
    proof {
        assert(orig.subrange(lf as int, ll + 1) + orig.subrange(ll + 1, rl + 1) =~= orig.subrange(
            lf as int,
            rl + 1,
        ));
        lemma_multiset_commutative(
            orig.subrange(lf as int, ll + 1),
            orig.subrange(ll + 1, rl + 1),
        );
        assert(merged@.to_multiset() == orig.subrange(lf as int, rl + 1).to_multiset());
    }
    // write the merged run back, from the far end
    let ghost built = merged@;
    while merged.len() > 0
        invariant
            lf <= ll < rl < arr@.len(),
            arr@.len() == orig.len(),
            built.len() == rl + 1 - lf,
            merged@ == built.take(merged@.len() as int),
            merged@.len() <= built.len(),
            forall|k: int| 0 <= k < lf ==> arr@[k] == orig[k],
            forall|k: int| rl < k < orig.len() ==> arr@[k] == orig[k],
            forall|k: int|
                lf + merged@.len() <= k < rl + 1 ==> arr@[k] == built[k - lf],
            forall|k: int| lf <= k < lf + merged@.len() ==> arr@[k] == orig[k],
        decreases merged@.len(),
    {
        let x = match merged.pop() {
            Some(x) => x,
            None => {
                proof {
                    assert(false);
                }
                return ;
            },
        };
        let slot = lf + merged.len();
        arr[slot] = x;
        proof {
            assert(merged@ =~= built.take(merged@.len() as int));
        }
    }
    proof {
        assert(arr@.subrange(lf as int, rl + 1) =~= built);
        assert(sorted_between(arr@, lf as int, rl + 1));
    }
}

/// Appending the smaller frontier element keeps the buffer sorted and
/// below both remaining runs.
proof fn lemma_extend_sorted<T: TotalOrder>(
    m0: Seq<T>,
    m1: Seq<T>,
    orig: Seq<T>,
    lp: int,
    ll: int,
    rp: int,
    rl: int,
    took_left: bool,
)
    requires
        0 <= lp <= ll + 1,
        ll < rp <= rl + 1,
        rl < orig.len(),
        took_left ==> lp <= ll && m1 == m0.push(orig[lp]),
        !took_left ==> rp <= rl && m1 == m0.push(orig[rp]),
        took_left ==> (rp <= rl ==> T::leq_spec(orig[lp], orig[rp])),
        !took_left ==> (lp <= ll ==> T::leq_spec(orig[rp], orig[lp])),
        sorted_between(orig, lp, ll + 1),
        sorted_between(orig, rp, rl + 1),
        sorted_leq(m0),
        forall|i: int, k: int|
            0 <= i < m0.len() && lp <= k <= ll ==> T::leq_spec(#[trigger] m0[i], #[trigger] orig[k]),
        forall|i: int, k: int|
            0 <= i < m0.len() && rp <= k <= rl ==> T::leq_spec(#[trigger] m0[i], #[trigger] orig[k]),
    ensures
        sorted_leq(m1),
        took_left ==> forall|i: int, k: int|
            0 <= i < m1.len() && lp + 1 <= k <= ll ==> T::leq_spec(
                #[trigger] m1[i],
                #[trigger] orig[k],
            ),
        took_left ==> forall|i: int, k: int|
            0 <= i < m1.len() && rp <= k <= rl ==> T::leq_spec(#[trigger] m1[i], #[trigger] orig[k]),
        !took_left ==> forall|i: int, k: int|
            0 <= i < m1.len() && lp <= k <= ll ==> T::leq_spec(#[trigger] m1[i], #[trigger] orig[k]),
        !took_left ==> forall|i: int, k: int|
            0 <= i < m1.len() && rp + 1 <= k <= rl ==> T::leq_spec(
                #[trigger] m1[i],
                #[trigger] orig[k],
            ),
{
    let x = if took_left { orig[lp] } else { orig[rp] };
    assert forall|a: int, b: int| 0 <= a < b < m1.len() implies T::leq_spec(
        #[trigger] m1[a],
        #[trigger] m1[b],
    ) by {
        if b == m1.len() - 1 {
            assert(m1[a] == m0[a] && m1[b] == x);
        }
    }
    if took_left {
        assert forall|i: int, k: int|
            0 <= i < m1.len() && rp <= k <= rl implies T::leq_spec(
            #[trigger] m1[i],
            #[trigger] orig[k],
        ) by {
            if i == m1.len() - 1 {
                if k > rp {
                    T::lemma_transitive(x, orig[rp], orig[k]);
                }
            }
        }
        assert forall|i: int, k: int|
            0 <= i < m1.len() && lp + 1 <= k <= ll implies T::leq_spec(
            #[trigger] m1[i],
            #[trigger] orig[k],
        ) by {
            if i == m1.len() - 1 {
                assert(m1[i] == orig[lp]);
                assert(T::leq_spec(orig[lp], orig[k]));
            }
        }
    } else {
        assert forall|i: int, k: int|
            0 <= i < m1.len() && lp <= k <= ll implies T::leq_spec(
            #[trigger] m1[i],
            #[trigger] orig[k],
        ) by {
            if i == m1.len() - 1 {
                if k > lp {
                    T::lemma_transitive(x, orig[lp], orig[k]);
                }
            }
        }
        assert forall|i: int, k: int|
            0 <= i < m1.len() && rp + 1 <= k <= rl implies T::leq_spec(
            #[trigger] m1[i],
            #[trigger] orig[k],
        ) by {
            if i == m1.len() - 1 {
                assert(m1[i] == orig[rp]);
                assert(T::leq_spec(orig[rp], orig[k]));
            }
        }
    }
}

} // verus!
