//! The timestamp register: the current time as set once per block.

use vstd::prelude::*;

verus! {

/// The stored current time.
pub struct Module {
    pub now: u64,
}

impl Module {
    /// A register holding `now`. The value must be set before first use.
    pub fn new(now: u64) -> (r: Module)
        ensures
            r.now == now,
    {
        Module { now }
    }

    /// The current time.
    pub fn get(&self) -> (r: u64)
        ensures
            r == self.now,
    {
        self.now
    }

    /// Set the current time.
    pub fn set(&mut self, now: u64)
        ensures
            final(self).now == now,
    {
        self.now = now;
    }
}

} // verus!
