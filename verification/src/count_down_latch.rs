//! A latch that opens once each of its counters has counted down, and that can be used again for
//! another round.

use vstd::prelude::*;

verus! {

/// The state of a count-down latch: how many counters it has, and how many of those have not
/// counted down in the current round.
#[derive(Clone, Copy, Debug, PartialEq, Eq, Structural)]
pub struct CountDownLatch {
    /// The number of counters in existence.
    pub counters: usize,
    /// The number of counters that have yet to count down in this round.
    pub remaining: usize,
}

/// A latch with the given number of counters, none of which has counted down yet.
pub fn build_count_down_latch(counters: usize) -> (latch: CountDownLatch)
    ensures
        latch.counters == counters,
        latch.remaining == counters,
{
    CountDownLatch { counters, remaining: counters }
}

impl CountDownLatch {
    /// One counter counts down.
    pub fn count_down(&mut self)
        requires
            old(self).remaining > 0,
        ensures
            final(self).counters == old(self).counters,
            final(self).remaining == old(self).remaining - 1,
    {
        self.remaining = self.remaining - 1;
    }

    /// One counter that has not counted down in this round goes away: neither this round nor a
    /// later one waits for it.
    pub fn drop_counter(&mut self)
        requires
            old(self).remaining > 0,
            old(self).counters > 0,
        ensures
            final(self).counters == old(self).counters - 1,
            final(self).remaining == old(self).remaining - 1,
    {
        self.counters = self.counters - 1;
        self.remaining = self.remaining - 1;
    }

    /// Ends the round if every counter has counted down, and starts the next one. If some have
    /// not, the caller has to wait for them.
    pub fn try_wait(&mut self) -> (open: bool)
        ensures
            open <==> old(self).remaining == 0,
            final(self).counters == old(self).counters,
            final(self).remaining == (if open { old(self).counters } else { old(self).remaining }),
    {
        if self.remaining == 0 {
            self.remaining = self.counters;
            true
        } else {
            false
        }
    }
}

} // verus!
