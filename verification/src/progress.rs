//! An advisory progress counter for the walk.
//!
//! The counter is owned by the caller and passed by mutable reference into
//! the traversal, which increments it once per directory it descends into.
//! The total comes from a pre-pass entry count; it is advisory only, and
//! `finish` always brings the counter to the complete state regardless of
//! any mismatch between the pre-pass and the real walk.

use vstd::prelude::*;

verus! {

/// A counter-driven progress indicator: `pos` out of `total`.
pub struct ProgressCounter {
    pub pos: u64,
    pub total: u64,
}

impl ProgressCounter {
    /// The counter reads as done once the position has reached the total.
    pub open spec fn is_complete(self) -> bool {
        self.pos >= self.total
    }

    /// A fresh counter at position zero.
    pub fn new(total: u64) -> (p: ProgressCounter)
        ensures
            p.pos == 0,
            p.total == total,
    {
        ProgressCounter { pos: 0, total }
    }

    /// One step of progress.
    pub fn inc(&mut self)
        requires
            old(self).pos < u64::MAX,
        ensures
            final(self).pos == old(self).pos + 1,
            final(self).total == old(self).total,
    {
        self.pos = self.pos + 1;
    }

    /// Forces the counter to the complete state, whatever was counted.
    pub fn finish(&mut self)
        ensures
            final(self).pos == old(self).total,
            final(self).total == old(self).total,
            final(self).is_complete(),
    {
        self.pos = self.total;
    }
}

} // verus!
