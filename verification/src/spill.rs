//! Numbers for the runs that are spilled to disk.

use vstd::prelude::*;

verus! {

/// Gives every run a number of its own: 1, 2, 3 and so on, without gaps.
pub struct SpillCounter {
    issued: u64,
}

impl SpillCounter {
    /// How many numbers were given out. They are the numbers from 1 up to
    /// this one.
    pub closed spec fn issued(&self) -> nat {
        self.issued as nat
    }

    /// A counter that has given out no number.
    pub fn new() -> (counter: SpillCounter)
        ensures
            counter.issued() == 0,
    {
        SpillCounter { issued: 0 }
    }

    /// Gives out the next number. Gives none, and changes nothing, once all
    /// numbers are given out.
    pub fn allocate(&mut self) -> (id: Option<u64>)
        ensures
            match id {
                Some(id) => id == old(self).issued() + 1 && final(self).issued() == id,
                None => old(self).issued() == u64::MAX && final(self).issued() == old(
                    self,
                ).issued(),
            },
    {
        if self.issued == u64::MAX {
            None
        } else {
            self.issued = self.issued + 1;
            Some(self.issued)
        }
    }

    /// The last number that was given out; zero if none was.
    pub fn last(&self) -> (n: u64)
        ensures
            n == self.issued(),
    {
        self.issued
    }
}

} // verus!
