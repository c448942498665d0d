//! When the next batch of probes is due, on a monotonic clock read in milliseconds.
use vstd::prelude::*;

verus! {

/// A wait that ends at a moment of the clock.
#[derive(Clone, Copy, Debug, PartialEq, Eq, Structural)]
pub struct Sleep {
    pub ready_at: u64,
}

impl Sleep {
    /// A wait that is already over.
    pub fn new() -> (r: Sleep)
        ensures
            r.ready_at == 0,
            forall|now: u64| #[trigger] r.spec_done(now),
    {
        Sleep { ready_at: 0 }
    }

    /// A wait of `time` milliseconds from `now`; one that would end past the clock's range
    /// ends at its last moment.
    pub fn sleep(now: u64, time: u64) -> (r: Sleep)
        ensures
            r.ready_at == if now + time > u64::MAX { u64::MAX as int } else { now + time },
    {
        Sleep { ready_at: now.saturating_add(time) }
    }

    pub open spec fn spec_done(&self, now: u64) -> bool {
        now >= self.ready_at
    }

    /// Whether the wait is over at `now`.
    pub fn done(&self, now: u64) -> (r: bool)
        ensures
            r == self.spec_done(now),
    {
        now >= self.ready_at
    }

    /// Milliseconds left at `now`; zero once the wait is over.
    pub fn remaining(&self, now: u64) -> (r: u64)
        ensures
            r == if now >= self.ready_at { 0 } else { self.ready_at - now },
    {
        if now >= self.ready_at {
            0
        } else {
            self.ready_at - now
        }
    }
}

} // verus!
