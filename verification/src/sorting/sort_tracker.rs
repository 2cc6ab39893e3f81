//! An instrumentation object threaded through the sorting routines: it
//! counts comparisons and exchanges exactly, and carries a wall-clock
//! timer whose readings come from the system clock and are therefore
//! outside what the contracts pin down.

use vstd::prelude::*;
use crate::order::TotalOrder;
use crate::util::vec_util::swap_in_vec;

verus! {

#[verifier::external_type_specification]
#[verifier::external_body]
pub struct ExInstant(std::time::Instant);

/// Relies on `std::time::Instant::now`: the result depends on the clock,
/// so nothing is promised of it.
#[verifier::external_body]
fn instant_now() -> std::time::Instant {
    std::time::Instant::now()
}

/// Relies on `std::time::Instant::elapsed`: the result depends on the
/// clock, so nothing is promised of it.
#[verifier::external_body]
fn elapsed_since(start: &std::time::Instant) -> core::time::Duration {
    start.elapsed()
}

/// Relies on `core::time::Duration::new` with both components zero.
#[verifier::external_body]
fn duration_zero() -> core::time::Duration {
    core::time::Duration::new(0, 0)
}

/// The observable counter state of a tracker; the timer fields read the
/// clock and stay outside this model.
pub ghost struct TrackerCounts {
    pub comparisons: int,
    pub swaps: int,
    pub locked: bool,
}

/// Counts the comparisons and element exchanges a sorting routine makes,
/// and times it. The counters saturate at the machine limit instead of
/// overflowing.
pub struct SortTracker {
    comparison_count: usize,
    swap_count: usize,
    start_time: Option<std::time::Instant>,
    duration: core::time::Duration,
    lock_timer: bool,
}

impl View for SortTracker {
    type V = TrackerCounts;

    closed spec fn view(&self) -> TrackerCounts {
        TrackerCounts {
            comparisons: self.comparison_count as int,
            swaps: self.swap_count as int,
            locked: self.lock_timer,
        }
    }
}

/// The counter value after one more recorded event.
pub open spec fn bumped(c: int) -> int {
    if c < usize::MAX { c + 1 } else { c }
}

impl SortTracker {
    /// Creates a tracker with both counters at zero and the timer
    /// unlocked.
    pub fn new() -> (r: Self)
        ensures
            r@ == (TrackerCounts { comparisons: 0, swaps: 0, locked: false }),
    {
        SortTracker {
            comparison_count: 0,
            swap_count: 0,
            start_time: None,
            duration: duration_zero(),
            lock_timer: false,
        }
    }

    /// Returns counters and timer to their initial state.
    pub fn reset(&mut self)
        ensures
            final(self)@ == (TrackerCounts { comparisons: 0, swaps: 0, locked: false }),
    {
        self.comparison_count = 0;
        self.swap_count = 0;
        self.start_time = None;
        self.duration = duration_zero();
        self.lock_timer = false;
    }

    /// Prevents the timer from being started or stopped.
    pub fn lock_timer(&mut self)
        ensures
            final(self)@ == (TrackerCounts {
                locked: true,
                ..old(self)@
            }),
    {
        self.lock_timer = true;
    }

    /// Allows the timer to be started and stopped again.
    pub fn unlock_timer(&mut self)
        ensures
            final(self)@ == (TrackerCounts {
                locked: false,
                ..old(self)@
            }),
    {
        self.lock_timer = false;
    }

    /// The number of comparisons recorded so far.
    pub fn get_comparison_count(&self) -> (r: usize)
        ensures
            r == self@.comparisons,
    {
        self.comparison_count
    }

    /// The number of exchanges recorded so far.
    pub fn get_swap_count(&self) -> (r: usize)
        ensures
            r == self@.swaps,
    {
        self.swap_count
    }

    fn bump_comparisons(&mut self)
        ensures
            final(self)@ == (TrackerCounts {
                comparisons: bumped(old(self)@.comparisons),
                ..old(self)@
            }),
    {
        if self.comparison_count < usize::MAX {
            self.comparison_count = self.comparison_count + 1;
        }
    }

    /// Records one comparison and reports whether the element at
    /// `index1` ranks strictly after the one at `index2`.
    pub fn compare_gt<T: TotalOrder>(
        &mut self,
        array: &Vec<T>,
        index1: usize,
        index2: usize,
    ) -> (r: bool)
        requires
            index1 < array@.len(),
            index2 < array@.len(),
        ensures
            final(self)@ == (TrackerCounts {
                comparisons: bumped(old(self)@.comparisons),
                ..old(self)@
            }),
            r == !T::leq_spec(array@[index1 as int], array@[index2 as int]),
    {
        self.bump_comparisons();
        !array[index1].leq(&array[index2])
    }

    /// Records one comparison and reports whether the element at
    /// `index1` ranks at or after the one at `index2`.
    pub fn compare_gte<T: TotalOrder>(
        &mut self,
        array: &Vec<T>,
        index1: usize,
        index2: usize,
    ) -> (r: bool)
        requires
            index1 < array@.len(),
            index2 < array@.len(),
        ensures
            final(self)@ == (TrackerCounts {
                comparisons: bumped(old(self)@.comparisons),
                ..old(self)@
            }),
            r == T::leq_spec(array@[index2 as int], array@[index1 as int]),
    {
        self.bump_comparisons();
        array[index2].leq(&array[index1])
    }

    /// Records one comparison and reports whether the element at
    /// `index1` ranks strictly before the one at `index2`.
    pub fn compare_lt<T: TotalOrder>(
        &mut self,
        array: &Vec<T>,
        index1: usize,
        index2: usize,
    ) -> (r: bool)
        requires
            index1 < array@.len(),
            index2 < array@.len(),
        ensures
            final(self)@ == (TrackerCounts {
                comparisons: bumped(old(self)@.comparisons),
                ..old(self)@
            }),
            r == !T::leq_spec(array@[index2 as int], array@[index1 as int]),
    {
        self.bump_comparisons();
        !array[index2].leq(&array[index1])
    }

    /// Records one comparison and reports whether the element at
    /// `index1` ranks at or before the one at `index2`.
    pub fn compare_lte<T: TotalOrder>(
        &mut self,
        array: &Vec<T>,
        index1: usize,
        index2: usize,
    ) -> (r: bool)
        requires
            index1 < array@.len(),
            index2 < array@.len(),
        ensures
            final(self)@ == (TrackerCounts {
                comparisons: bumped(old(self)@.comparisons),
                ..old(self)@
            }),
            r == T::leq_spec(array@[index1 as int], array@[index2 as int]),
    {
        self.bump_comparisons();
        array[index1].leq(&array[index2])
    }

    /// Records one exchange and swaps the two elements.
    pub fn swap<T>(&mut self, array: &mut Vec<T>, index1: usize, index2: usize)
        requires
            index1 < old(array)@.len(),
            index2 < old(array)@.len(),
        ensures
            final(self)@ == (TrackerCounts {
                swaps: bumped(old(self)@.swaps),
                ..old(self)@
            }),
            final(array)@ == old(array)@.update(index1 as int, old(array)@[index2 as int]).update(
                index2 as int,
                old(array)@[index1 as int],
            ),
    {
        if self.swap_count < usize::MAX {
            self.swap_count = self.swap_count + 1;
        }
        swap_in_vec(array, index1, index2);
    }

    /// Notes the clock, unless the timer is locked.
    pub fn start_timer(&mut self)
        ensures
            final(self)@ == old(self)@,
    {
        if self.lock_timer {
            return ;
        }
        self.start_time = Some(instant_now());
    }

    /// Records the time elapsed since the last start, unless the timer
    /// is locked or never started.
    pub fn stop_timer(&mut self)
        ensures
            final(self)@ == old(self)@,
    {
        if self.lock_timer {
            return ;
        }
        match &self.start_time {
            Some(start) => {
                self.duration = elapsed_since(start);
            },
            None => {},
        }
    }

    /// The last recorded duration; a clock reading, so its value is not
    /// pinned by any contract.
    pub fn get_duration(&self) -> core::time::Duration {
        self.duration
    }
}

} // verus!
