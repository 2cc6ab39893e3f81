//! Heapsort, instrumented: a maximum-first heap is built over the array
//! prefix, then repeatedly swaps its top behind the shrinking prefix,
//! which grows a sorted suffix. Comparisons and exchanges go through the
//! tracker.

use vstd::prelude::*;
use crate::order::{TotalOrder, sorted_leq, sorted_between};
use crate::sorting::sort_tracker::SortTracker;
use crate::heaps::heap::{
    MaxHeapType, above, heap_shape, shape_except, bridge_over, down_ready, parent_index,
    edge_ok, lemma_parent_bounds, lemma_child_parent, lemma_above_transitive, lemma_above_connex,
    lemma_root_best, lemma_swap_multiset, lemma_sift_up_step, lemma_sift_down_step,
};

verus! {

broadcast use {vstd::seq_lib::group_to_multiset_ensures, vstd::multiset::group_multiset_axioms};

/// Sorts the vector in ascending order by building a maximum-first heap
/// over it and extracting the top to the back until the heap is gone.
pub fn heap_sort<T: TotalOrder>(arr: &mut Vec<T>, tracker: &mut SortTracker)
    ensures
        final(arr)@.to_multiset() == old(arr)@.to_multiset(),
        sorted_leq(final(arr)@),
{
    tracker.start_timer();
    let len = arr.len();
    if len == 0 {
        tracker.stop_timer();
        return ;
    }
    // grow a heap over the prefix, one element at a time
    let mut i: usize = 1;
    while i < len
        invariant
            1 <= i <= len,
            len == arr@.len(),
            arr@.to_multiset() == old(arr)@.to_multiset(),
            heap_shape::<T, MaxHeapType>(arr@.take(i as int)),
        decreases len - i,
    {
        sift_up_prefix(arr, i, tracker);
        i = i + 1;
    }
    // repeatedly move the top behind the prefix
    let mut size: usize = len;
    while size > 1
        invariant
            1 <= size <= len,
            len == arr@.len(),
            arr@.to_multiset() == old(arr)@.to_multiset(),
            heap_shape::<T, MaxHeapType>(arr@.take(size as int)),
            sorted_between(arr@, size as int, len as int),
            forall|a: int, b: int|
                0 <= a < size && size <= b < len ==> T::leq_spec(
                    #[trigger] arr@[a],
                    #[trigger] arr@[b],
                ),
        decreases size,
    {
        let ghost s0 = arr@;
        proof {
            assert forall|k: int| 0 <= k < size implies T::leq_spec(
                #[trigger] s0[k],
                s0[0],
            ) by {
                lemma_root_best::<T, MaxHeapType>(s0.take(size as int), k);
            }
        }
        tracker.swap(arr, 0, size - 1);
        size = size - 1;
        proof {
            let s1 = arr@;
            lemma_swap_multiset(s0, 0, size as int);
            // the element moved behind the prefix dominates the prefix
            // and is dominated by the old suffix
            assert forall|a: int, b: int|
                0 <= a < size && size <= b < len implies T::leq_spec(
                #[trigger] s1[a],
                #[trigger] s1[b],
            ) by {
                if b == size as int {
                    if a == 0 {
                        assert(s1[a] == s0[size as int] && s1[b] == s0[0]);
                    } else {
                        assert(s1[a] == s0[a] && s1[b] == s0[0]);
                    }
                } else {
                    if a == 0 {
                        assert(s1[a] == s0[size as int]);
                        assert(T::leq_spec(s0[size as int], s0[b]));
                    }
                }
            }
            assert forall|a: int, b: int|
                size as int <= a < b < len implies T::leq_spec(
                #[trigger] s1[a],
                #[trigger] s1[b],
            ) by {
                if a == size as int {
                    assert(s1[a] == s0[0] && s1[b] == s0[b]);
                }
            }
            // the truncated prefix is sift-ready at the root
            assert forall|c: int|
                1 <= c < size && c != 0 && parent_index(c, 2) != 0 implies #[trigger] edge_ok::<
                T,
                MaxHeapType,
            >(s1.take(size as int), c) by {
                lemma_parent_bounds(c, 2);
                assert(edge_ok::<T, MaxHeapType>(s0.take(size as int + 1), c));
                assert(s1.take(size as int)[c] == s0.take(size as int + 1)[c]);
            }
        }
        let ghost s1 = arr@;
        if size > 1 {
            percolate(arr, size, tracker);
            proof {
                let s2 = arr@;
                assert(s2.subrange(0, size as int) =~= s2.take(size as int));
                assert(s1.subrange(0, size as int) =~= s1.take(size as int));
                assert forall|a: int, b: int|
                    0 <= a < size && size <= b < len implies T::leq_spec(
                    #[trigger] s2[a],
                    #[trigger] s2[b],
                ) by {
                    let a0 = crate::seq_facts::lemma_window_member(s1, s2, 0, size as int, a);
                    assert(s2[b] == s1[b]);
                    assert(T::leq_spec(s1[a0], s1[b]));
                }
            }
        }
        proof {
            assert(heap_shape::<T, MaxHeapType>(arr@.take(size as int)));
        }
    }
    proof {
        assert forall|a: int, b: int| 0 <= a < b < arr@.len() implies T::leq_spec(
            #[trigger] arr@[a],
            #[trigger] arr@[b],
        ) by {
        }
    }
    tracker.stop_timer();
}

/// Lets the element at `j0` rise through the heap prefix `[0, j0]` until
/// its parent dominates it.
fn sift_up_prefix<T: TotalOrder>(arr: &mut Vec<T>, j0: usize, tracker: &mut SortTracker)
    requires
        j0 < old(arr)@.len(),
        heap_shape::<T, MaxHeapType>(old(arr)@.take(j0 as int)),
    ensures
        final(arr)@.len() == old(arr)@.len(),
        final(arr)@.to_multiset() == old(arr)@.to_multiset(),
        heap_shape::<T, MaxHeapType>(final(arr)@.take(j0 + 1)),
        forall|k: int| j0 < k < old(arr)@.len() ==> final(arr)@[k] == old(arr)@[k],
    {
    proof {
        vstd::std_specs::vec::axiom_spec_len(arr);
    }
    let n = j0 + 1;
    proof {
        let s = arr@.take(n as int);
        assert forall|c: int| 1 <= c < n && c != j0 as int implies #[trigger] edge_ok::<
            T,
            MaxHeapType,
        >(s, c) by {
            lemma_parent_bounds(c, 2);
            assert(edge_ok::<T, MaxHeapType>(arr@.take(j0 as int), c));
        }
        assert forall|c: int|
            1 <= c < n && #[trigger] parent_index(c, 2) == j0 as int implies false by {
            lemma_parent_bounds(c, 2);
            assert(2 * (j0 as int) + 1 <= c);
        }
    }
    let mut j = j0;
    while j > 0
        invariant
            j <= j0 < n <= arr@.len(),
            n == j0 + 1,
            shape_except::<T, MaxHeapType>(arr@.take(n as int), j as int),
            bridge_over::<T, MaxHeapType>(arr@.take(n as int), j as int),
            arr@.to_multiset() == old(arr)@.to_multiset(),
            arr@.len() == old(arr)@.len(),
            forall|k: int| j0 < k < old(arr)@.len() ==> arr@[k] == old(arr)@[k],
        decreases j,
    {
        let p = (j - 1) / 2;
        proof {
            lemma_parent_bounds(j as int, 2);
        }
        let rise = tracker.compare_gt(arr, j, p);
        proof {
            lemma_above_connex::<T, MaxHeapType>(
                arr@.take(n as int)[p as int],
                arr@.take(n as int)[j as int],
            );
        }
        if rise {
            let ghost s0 = arr@;
            tracker.swap(arr, p, j);
            proof {
                let t0 = s0.take(n as int);
                lemma_sift_up_step::<T, MaxHeapType>(t0, j as int);
                lemma_swap_multiset(s0, p as int, j as int);
                assert(arr@.take(n as int) =~= t0.update(p as int, t0[j as int]).update(
                    j as int,
                    t0[p as int],
                ));
            }
            j = p;
        } else {
            proof {
                assert(edge_ok::<T, MaxHeapType>(arr@.take(n as int), j as int));
            }
            return ;
        }
    }
}

/// Lets the element at the root sink through the heap prefix `[0, size)`
/// until both children are dominated.
fn percolate<T: TotalOrder>(arr: &mut Vec<T>, size: usize, tracker: &mut SortTracker)
    requires
        2 <= size <= old(arr)@.len(),
        down_ready::<T, MaxHeapType>(old(arr)@.take(size as int), 0),
    ensures
        final(arr)@.len() == old(arr)@.len(),
        final(arr)@.to_multiset() == old(arr)@.to_multiset(),
        final(arr)@.take(size as int).to_multiset() == old(arr)@.take(size as int).to_multiset(),
        heap_shape::<T, MaxHeapType>(final(arr)@.take(size as int)),
        forall|k: int| size <= k < old(arr)@.len() ==> final(arr)@[k] == old(arr)@[k],
{
    proof {
        vstd::std_specs::vec::axiom_spec_len(arr);
    }
    let mut j: usize = 0;
    loop
        invariant
            j < size <= arr@.len(),
            arr@.len() <= usize::MAX,
            down_ready::<T, MaxHeapType>(arr@.take(size as int), j as int),
            j != 0 ==> edge_ok::<T, MaxHeapType>(arr@.take(size as int), j as int),
            arr@.to_multiset() == old(arr)@.to_multiset(),
            arr@.take(size as int).to_multiset() == old(arr)@.take(size as int).to_multiset(),
            arr@.len() == old(arr)@.len(),
            forall|k: int| size <= k < old(arr)@.len() ==> arr@[k] == old(arr)@[k],
        ensures
            shape_except::<T, MaxHeapType>(arr@.take(size as int), 0),
            arr@.to_multiset() == old(arr)@.to_multiset(),
            arr@.take(size as int).to_multiset() == old(arr)@.take(size as int).to_multiset(),
            arr@.len() == old(arr)@.len(),
            forall|k: int| size <= k < old(arr)@.len() ==> arr@[k] == old(arr)@[k],
        decreases size - j,
    {
        let ghost s = arr@.take(size as int);
        proof {
            lemma_above_connex::<T, MaxHeapType>(s[j as int], s[j as int]);
        }
        let mut extreme = j;
        let half = usize::MAX / 2 - 1;
        if j <= half {
            let left = 2 * j + 1;
            let right = 2 * j + 2;
            if left < size && tracker.compare_lt(arr, extreme, left) {
                proof {
                    lemma_child_parent(j as int, 1, 2);
                    lemma_above_connex::<T, MaxHeapType>(s[j as int], s[left as int]);
                }
                extreme = left;
            } else {
                proof {
                    if left < (size as int) {
                        lemma_child_parent(j as int, 1, 2);
                    }
                }
            }
            proof {
                if left < (size as int) {
                    lemma_above_connex::<T, MaxHeapType>(s[left as int], s[left as int]);
                    assert(above::<T, MaxHeapType>(s[extreme as int], s[left as int]));
                }
                assert(above::<T, MaxHeapType>(s[extreme as int], s[j as int]));
            }
            let ghost mid = extreme as int;
            if right < size && tracker.compare_lt(arr, extreme, right) {
                proof {
                    lemma_child_parent(j as int, 2, 2);
                    lemma_above_connex::<T, MaxHeapType>(s[mid], s[right as int]);
                    lemma_above_transitive::<T, MaxHeapType>(
                        s[right as int],
                        s[mid],
                        s[j as int],
                    );
                    if left < (size as int) {
                        lemma_above_transitive::<T, MaxHeapType>(
                            s[right as int],
                            s[mid],
                            s[left as int],
                        );
                    }
                    if above::<T, MaxHeapType>(s[j as int], s[right as int]) {
                        lemma_above_transitive::<T, MaxHeapType>(
                            s[j as int],
                            s[right as int],
                            s[mid],
                        );
                        assert(false);
                    }
                    lemma_above_connex::<T, MaxHeapType>(s[right as int], s[right as int]);
                }
                extreme = right;
            } else {
                proof {
                    if right < (size as int) {
                        lemma_child_parent(j as int, 2, 2);
                        lemma_above_connex::<T, MaxHeapType>(s[mid], s[right as int]);
                    }
                }
            }
            proof {
                assert forall|c: int|
                    1 <= c < s.len() && #[trigger] parent_index(c, 2) == j as int implies above::<
                    T,
                    MaxHeapType,
                >(s[extreme as int], s[c]) by {
                    lemma_parent_bounds(c, 2);
                    assert(c == 2 * (j as int) + 1 || c == 2 * (j as int) + 2);
                }
            }
        } else {
            proof {
                assert forall|c: int|
                    1 <= c < s.len() && #[trigger] parent_index(c, 2) == j as int implies above::<
                    T,
                    MaxHeapType,
                >(s[extreme as int], s[c]) by {
                    lemma_parent_bounds(c, 2);
                    assert(c >= 2 * (j as int) + 1);
                    assert(c < size <= usize::MAX);
                    assert(false);
                }
            }
        }
        if extreme != j {
            proof {
                assert(!above::<T, MaxHeapType>(s[j as int], s[extreme as int]));
            }
            let ghost s0 = arr@;
            tracker.swap(arr, j, extreme);
            proof {
                let t0 = s0.take(size as int);
                lemma_sift_down_step::<T, MaxHeapType>(t0, j as int, extreme as int);
                lemma_swap_multiset(s0, j as int, extreme as int);
                lemma_swap_multiset(t0, j as int, extreme as int);
                assert(arr@.take(size as int) =~= t0.update(j as int, t0[extreme as int]).update(
                    extreme as int,
                    t0[j as int],
                ));
            }
            j = extreme;
        } else {
            proof {
                assert forall|c: int| 1 <= c < s.len() && c != 0 implies #[trigger] edge_ok::<
                    T,
                    MaxHeapType,
                >(s, c) by {
                    let q = parent_index(c, 2);
                    if c == j as int {
                    } else if q == j as int {
                        assert(above::<T, MaxHeapType>(s[j as int], s[c]));
                    }
                }
            }
            break ;
        }
    }
    proof {
        assert(heap_shape::<T, MaxHeapType>(arr@.take(size as int)));
    }
}

} // verus!
