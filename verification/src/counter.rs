//! A simple event counter.

use vstd::prelude::*;

verus! {

/// A counter of events. The host wraps it for sharing between threads;
/// here only the counting itself is stated: each increment adds one,
/// wrapping at the machine limit, and reading returns the count.
pub struct AtomicCounter {
    count: usize,
}

impl AtomicCounter {
    /// The current count.
    pub closed spec fn spec_count(&self) -> nat {
        self.count as nat
    }

    /// A counter at zero.
    pub fn new() -> (c: Self)
        ensures
            c.spec_count() == 0,
    {
        AtomicCounter { count: 0 }
    }

    /// Adds one to the count, wrapping at the machine limit.
    pub fn increment(&mut self)
        ensures
            old(self).spec_count() < usize::MAX ==> final(self).spec_count() == old(
                self,
            ).spec_count() + 1,
            old(self).spec_count() == usize::MAX ==> final(self).spec_count() == 0,
    {
        if self.count == usize::MAX {
            self.count = 0;
        } else {
            self.count = self.count + 1;
        }
    }

    /// Reads the count.
    pub fn get_count(&self) -> (n: usize)
        ensures
            n == self.spec_count(),
    {
        self.count
    }
}

impl Default for AtomicCounter {
    /// A counter at zero.
    fn default() -> (c: Self)
        ensures
            c.spec_count() == 0,
    {
        AtomicCounter { count: 0 }
    }
}

} // verus!
