//! The countdown clock of a game.

use vstd::prelude::*;

verus! {

/// A countdown from a configured maximum, in milliseconds.
#[derive(Clone, Copy, Debug, PartialEq, Eq, Structural)]
pub struct Clock {
    max: u32,
    remaining_ms: u32,
}

impl Clock {
    /// The configured maximum, in milliseconds.
    pub closed spec fn spec_max(&self) -> u32 {
        self.max
    }

    /// The time left, in milliseconds.
    pub closed spec fn spec_remaining_ms(&self) -> u32 {
        self.remaining_ms
    }

    /// A full clock of `ms` milliseconds.
    pub fn new(ms: u32) -> (clock: Clock)
        ensures
            clock.spec_max() == ms,
            clock.spec_remaining_ms() == ms,
    {
        Clock { max: ms, remaining_ms: ms }
    }

    /// Takes `amount` milliseconds off the remaining time, stopping at zero.
    pub fn substract(&mut self, amount: u32)
        ensures
            final(self).spec_max() == old(self).spec_max(),
            final(self).spec_remaining_ms() == if old(self).spec_remaining_ms() >= amount {
                old(self).spec_remaining_ms() - amount
            } else {
                0
            },
    {
        if self.remaining_ms >= amount {
            self.remaining_ms = self.remaining_ms - amount;
        } else {
            self.remaining_ms = 0;
        }
    }

    /// The time left, in milliseconds.
    #[verifier::when_used_as_spec(spec_remaining_ms)]
    pub fn remaining_ms(&self) -> (ms: u32)
        ensures
            ms == self.spec_remaining_ms(),
    {
        self.remaining_ms
    }

    /// Sets the remaining time back to the configured maximum.
    pub fn reset(&mut self)
        ensures
            final(self).spec_max() == old(self).spec_max(),
            final(self).spec_remaining_ms() == old(self).spec_max(),
    {
        self.remaining_ms = self.max;
    }
}

} // verus!
