//! The gravity timer: time that has run since the last reset, and the
//! interval after which the falling piece is due to move down.

use vstd::prelude::*;

verus! {

/// Counts time up to an interval. The caller feeds it the time that has
/// passed; the timer owns no clock.
#[derive(Clone, Copy, Debug, PartialEq, Eq, Structural)]
pub struct Timer {
    /// Time that has run since the last reset.
    pub elapsed: u64,
    /// Time after which the timer is up.
    pub interval: u64,
}

impl Timer {
    /// The timer after `dt` more units of time. The count stops at the
    /// largest number it can hold.
    pub open spec fn spec_tick(self, dt: u64) -> Timer {
        Timer {
            elapsed: if self.elapsed + dt > u64::MAX {
                u64::MAX
            } else {
                (self.elapsed + dt) as u64
            },
            ..self
        }
    }

    /// At least the interval has run since the last reset.
    pub open spec fn spec_is_up(self) -> bool {
        self.elapsed >= self.interval
    }

    /// The timer with no time run.
    pub open spec fn spec_reset(self) -> Timer {
        Timer { elapsed: 0, ..self }
    }

    /// A timer with the given interval and no time run.
    pub fn new(interval: u64) -> (t: Timer)
        ensures
            t == (Timer { elapsed: 0, interval }),
    {
        Timer { elapsed: 0, interval }
    }

    /// Lets `dt` more units of time run.
    pub fn tick(&mut self, dt: u64)
        ensures
            *final(self) == old(self).spec_tick(dt),
    {
        self.elapsed = if u64::MAX - self.elapsed < dt {
            u64::MAX
        } else {
            self.elapsed + dt
        };
    }

    /// Whether at least the interval has run since the last reset.
    pub fn is_up(&self) -> (r: bool)
        ensures
            r == self.spec_is_up(),
    {
        self.elapsed >= self.interval
    }

    /// Starts the count again from nothing.
    pub fn reset(&mut self)
        ensures
            *final(self) == old(self).spec_reset(),
    {
        self.elapsed = 0;
    }
}

} // verus!
