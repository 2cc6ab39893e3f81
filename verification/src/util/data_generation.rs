//! Test-data generation: random, ascending and descending vectors of
//! integers.

use vstd::prelude::*;

verus! {

/// Relies on `rand::thread_rng` and `Rng::gen_range` over `0..bound`:
/// the draw panics only on an empty range, which the precondition rules
/// out, and returns a value inside the range; which value comes back
/// depends on the generator's state, so no more is promised.
#[verifier::external_body]
fn sample_below(bound: i32) -> (r: i32)
    requires
        bound > 0,
    ensures
        0 <= r < bound,
{
    rand::Rng::gen_range(&mut rand::thread_rng(), 0..bound)
}

/// The largest value (exclusive) that the random generator draws.
pub const RANDOM_BOUND: i32 = 100_000;

/// A vector of `size` random values, each in `[0, RANDOM_BOUND)`.
pub fn generate_random_vec(size: usize) -> (v: Vec<i32>)
    ensures
        v@.len() == size,
        forall|k: int| 0 <= k < size ==> 0 <= #[trigger] v@[k] < RANDOM_BOUND,
{
    let mut v: Vec<i32> = Vec::with_capacity(size);
    let mut i: usize = 0;
    while i < size
        invariant
            i <= size,
            v@.len() == i,
            forall|k: int| 0 <= k < i ==> 0 <= #[trigger] v@[k] < RANDOM_BOUND,
        decreases size - i,
    {
        v.push(sample_below(RANDOM_BOUND));
        i = i + 1;
    }
    v
}

/// The ascending vector `0, 1, ..., size - 1`.
pub fn generate_sorted_vec(size: usize) -> (v: Vec<i32>)
    requires
        size <= i32::MAX,
    ensures
        v@.len() == size,
        forall|k: int| 0 <= k < size ==> #[trigger] v@[k] == k,
{
    let mut v: Vec<i32> = Vec::with_capacity(size);
    let mut i: usize = 0;
    while i < size
        invariant
            i <= size <= i32::MAX,
            v@.len() == i,
            forall|k: int| 0 <= k < i ==> #[trigger] v@[k] == k,
        decreases size - i,
    {
        v.push(i as i32);
        i = i + 1;
    }
    v
}

/// The descending vector `size, size - 1, ..., 1`.
pub fn generate_reverse_sorted_vec(size: usize) -> (v: Vec<i32>)
    requires
        size <= i32::MAX,
    ensures
        v@.len() == size,
        forall|k: int| 0 <= k < size ==> #[trigger] v@[k] == size - k,
{
    let mut v: Vec<i32> = Vec::with_capacity(size);
    let mut i: usize = 0;
    while i < size
        invariant
            i <= size <= i32::MAX,
            v@.len() == i,
            forall|k: int| 0 <= k < i ==> #[trigger] v@[k] == size - k,
        decreases size - i,
    {
        v.push((size - i) as i32);
        i = i + 1;
    }
    v
}

} // verus!
