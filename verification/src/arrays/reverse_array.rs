//! In-place reversal of a vector by swapping from both ends.

use vstd::prelude::*;
use crate::util::vec_util::swap_in_vec;

verus! {

/// Reverses the vector: the element at each position ends up mirrored
/// around the middle.
pub fn reverse_array<T>(arr: &mut Vec<T>)
    ensures
        final(arr)@ == old(arr)@.reverse(),
{
    let len = arr.len();
    let mut i: usize = 0;
    while i < len / 2
        invariant
            i <= len / 2,
            len == arr@.len(),
            forall|k: int| 0 <= k < i ==> arr@[k] == old(arr)@[len - 1 - k],
            forall|k: int| 0 <= k < i ==> arr@[len - 1 - k] == old(arr)@[k],
            forall|k: int| i <= k < len - i ==> arr@[k] == old(arr)@[k],
        decreases len / 2 - i,
    {
        swap_in_vec(arr, i, len - 1 - i);
        i = i + 1;
    }
    proof {
        assert(arr@ =~= old(arr)@.reverse());
    }
}

} // verus!
