//! Counting semaphores.

use vstd::prelude::*;

verus! {

/// The value of a counting semaphore. A thread that finds no permit to take sleeps until one is
/// posted; the sleeping itself is up to the caller.
#[derive(Clone, Copy, Debug, PartialEq, Eq, Structural)]
pub struct Semaphore {
    /// The number of permits that were posted and not yet taken.
    pub permits: usize,
}

impl Semaphore {
    /// A semaphore with the given number of permits.
    pub fn new(permits: usize) -> (semaphore: Self)
        ensures
            semaphore.permits == permits,
    {
        Semaphore { permits }
    }

    /// Adds a permit.
    pub fn post(&mut self)
        requires
            old(self).permits < usize::MAX,
        ensures
            final(self).permits == old(self).permits + 1,
    {
        self.permits = self.permits + 1;
    }

    /// Takes a permit if there is one. If there is none, the caller has to wait for one.
    pub fn try_wait(&mut self) -> (taken: bool)
        ensures
            taken <==> old(self).permits > 0,
            final(self).permits == old(self).permits - (if taken { 1int } else { 0int }),
    {
        if self.permits > 0 {
            self.permits = self.permits - 1;
            true
        } else {
            false
        }
    }
}

} // verus!
