//! Binary search over a sorted vector.

use vstd::prelude::*;
use crate::order::{TotalOrder, eqv, sorted_leq};

verus! {

/// Returns the position of some element equivalent to the target, or
/// `None` when no element is. The input must be sorted.
pub fn binary_search<T: TotalOrder>(arr: &Vec<T>, target: &T) -> (r: Option<usize>)
    requires
        sorted_leq(arr@),
    ensures
        match r {
            Some(i) => i < arr@.len() && eqv(arr@[i as int], *target),
            None => forall|k: int| 0 <= k < arr@.len() ==> !eqv(#[trigger] arr@[k], *target),
        },
{
    let mut low: usize = 0;
    let mut high: usize = arr.len();
    while low < high
        invariant
            low <= high <= arr@.len(),
            sorted_leq(arr@),
            forall|k: int| 0 <= k < low ==> !T::leq_spec(*target, #[trigger] arr@[k]),
            forall|k: int| high <= k < arr@.len() ==> !T::leq_spec(#[trigger] arr@[k], *target),
        decreases high - low,
    {
        let mid = low + (high - low) / 2;
        if !target.leq(&arr[mid]) {
            // the element at `mid` ranks strictly before the target, so
            // everything at or below `mid` does too
            proof {
                assert forall|k: int| 0 <= k < mid + 1 implies !T::leq_spec(
                    *target,
                    #[trigger] arr@[k],
                ) by {
                    if k < low {
                    } else if k < mid as int && T::leq_spec(*target, arr@[k]) {
                        T::lemma_transitive(*target, arr@[k], arr@[mid as int]);
                    }
                }
            }
            low = mid + 1;
        } else if !arr[mid].leq(target) {
            proof {
                assert forall|k: int| mid <= k < arr@.len() implies !T::leq_spec(
                    #[trigger] arr@[k],
                    *target,
                ) by {
                    if k >= high {
                    } else if k > mid as int && T::leq_spec(arr@[k], *target) {
                        T::lemma_transitive(arr@[mid as int], arr@[k], *target);
                    }
                }
            }
            high = mid;
        } else {
            return Some(mid);
        }
    }
    proof {
        assert forall|k: int| 0 <= k < arr@.len() implies !eqv(#[trigger] arr@[k], *target) by {
        }
    }
    None
}

} // verus!
