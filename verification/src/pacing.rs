//! Pacing a simulation against the wall clock.
//!
//! A runner works in batches, and each batch is due a fixed time after the
//! one before. After a batch the runner looks at the clock and is told what
//! to do until the next is due. Times are whole microseconds on one clock.

use vstd::prelude::*;

verus! {

/// What a runner does once a batch is done.
#[derive(Clone, Copy, Debug, PartialEq, Eq, Structural)]
pub enum Wait {
    /// The next batch is not due yet: sleep for this many microseconds.
    Sleep(u64),
    /// The next batch is due at this very moment.
    Due,
    /// The next batch was due this many microseconds ago.
    Late(u64),
}

/// The time at which the next batch is due.
#[derive(Clone, Copy, Debug, PartialEq, Eq, Structural)]
pub struct Pacer {
    pub target: u64,
}

/// What to do at `now` about a batch that is due at `target`.
pub open spec fn wait_until(target: u64, now: u64) -> Wait {
    if target > now {
        Wait::Sleep((target - now) as u64)
    } else if target == now {
        Wait::Due
    } else {
        Wait::Late((now - target) as u64)
    }
}

impl Pacer {
    /// A pacer whose first batch is due at `now`.
    pub fn new(now: u64) -> (pacer: Pacer)
        ensures
            pacer.target == now,
    {
        Pacer { target: now }
    }

    /// Moves the target on by one batch of `period` microseconds, whether or
    /// not the last target was met: a runner that has fallen behind is asked
    /// to catch up, not forgiven. Where the clock would run past its last
    /// value the target stays there.
    pub fn advance(&mut self, period: u64)
        ensures
            final(self).target == if old(self).target + period <= u64::MAX {
                (old(self).target + period) as u64
            } else {
                u64::MAX
            },
    {
        self.target = self.target.saturating_add(period);
    }

    /// What to do at `now`: sleep until the target, go on at once, or take
    /// note of how late the runner is.
    pub fn wait(&self, now: u64) -> (wait: Wait)
        ensures
            wait == wait_until(self.target, now),
    {
        if self.target > now {
            Wait::Sleep(self.target - now)
        } else if self.target == now {
            Wait::Due
        } else {
            Wait::Late(now - self.target)
        }
    }
}

/// A runner that takes no time for its batches never falls behind: if it
/// looks at the clock at the old target, it is told to sleep for the whole
/// period, or to go on at once where the period is nothing.
pub proof fn lemma_idle_runner_sleeps_a_period(target: u64, period: u64)
    requires
        target + period <= u64::MAX,
    ensures
        wait_until((target + period) as u64, target) == if period > 0 {
            Wait::Sleep(period)
        } else {
            Wait::Due
        },
{
}

} // verus!
