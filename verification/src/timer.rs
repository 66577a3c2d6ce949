//! The timer source: suspension steps over the scheduler's virtual clock.
//!
//! A sleeping computation resolves at once when the clock has already
//! reached its deadline — the wait set is never touched then — and
//! otherwise registers its resumption handle with the scheduler's wait set
//! and suspends until the run loop fires the entry.

use vstd::prelude::*;
use crate::task::Step;

verus! {

/// A step that sleeps until the virtual clock has advanced by
/// `time_duration` past the instant the step is first attempted; the
/// deadline saturates at the numeric maximum.
pub fn sleep_for(time_duration: u64) -> (s: Step)
    ensures
        s == Step::SleepFor(time_duration),
{
    Step::SleepFor(time_duration)
}

/// A step that sleeps until the virtual clock reaches `time_instant`; one
/// whose instant has already passed resolves on its first attempt without
/// ever entering the wait set.
pub fn sleep_until(time_instant: u64) -> (s: Step)
    ensures
        s == Step::SleepUntil(time_instant),
{
    Step::SleepUntil(time_instant)
}

/// Whether a deadline has been reached: a sleep step with a due deadline
/// resolves immediately.
pub open spec fn timer_due(now: u64, deadline: u64) -> bool {
    now >= deadline
}

/// The absolute deadline a sleep step aims for: a sleep-until step names it
/// outright; a sleep-for step aims at the clock reading of its first
/// attempt plus its duration, saturating at the numeric maximum.  The
/// other steps do not sleep.
pub open spec fn sleep_target(now: u64, step: Step) -> u64 {
    match step {
        Step::SleepFor(d) => if now + d > u64::MAX {
            u64::MAX
        } else {
            (now + d) as u64
        },
        Step::SleepUntil(t) => t,
        Step::Withdraw(_) => now,
        Step::Deposit(_) => now,
    }
}

} // verus!
