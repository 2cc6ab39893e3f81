//! Linear search: the first equivalent element wins.

use vstd::prelude::*;
use crate::order::{TotalOrder, eqv, eqv_exec};

verus! {

/// Returns the position of the first element equivalent to the target,
/// or `None` when no element is.
pub fn linear_search<T: TotalOrder>(arr: &Vec<T>, target: &T) -> (r: Option<usize>)
    ensures
        match r {
            Some(i) => i < arr@.len() && eqv(arr@[i as int], *target) && forall|k: int|
                0 <= k < i ==> !eqv(#[trigger] arr@[k], *target),
            None => forall|k: int| 0 <= k < arr@.len() ==> !eqv(#[trigger] arr@[k], *target),
        },
{
    let mut i: usize = 0;
    while i < arr.len()
        invariant
            i <= arr@.len(),
            forall|k: int| 0 <= k < i ==> !eqv(#[trigger] arr@[k], *target),
        decreases arr@.len() - i,
    {
        if eqv_exec(&arr[i], target) {
            return Some(i);
        }
        i = i + 1;
    }
    None
}

} // verus!
