//! Small vector helpers shared by the heaps and the sorting routines.

use vstd::prelude::*;

verus! {

/// Exchanges the elements at indices `i` and `j` of a vector.
///
/// Relies on `slice::swap`, which exchanges two elements in place and
/// panics only when an index is out of bounds, which the precondition
/// rules out.
#[verifier::external_body]
pub fn swap_in_vec<T>(v: &mut Vec<T>, i: usize, j: usize)
    requires
        i < old(v)@.len(),
        j < old(v)@.len(),
    ensures
        final(v)@ == old(v)@.update(i as int, old(v)@[j as int]).update(
            j as int,
            old(v)@[i as int],
        ),
{
    v.as_mut_slice().swap(i, j);
}

} // verus!
