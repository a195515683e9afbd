//! A mock delay.

use vstd::prelude::*;

verus! {

/// A delay that does not wait. A fuzz run gains nothing from waiting, and a
/// driver that needs a real delay to be correct has a race to fix.
#[derive(Debug, Clone, Copy, PartialEq, Eq)]
pub struct ArbitraryDelayNs;

impl ArbitraryDelayNs {
    /// Returns at once, whatever `ns` is.
    pub fn delay_ns(&mut self, _ns: u32)
        ensures
            *final(self) == *old(self),
    {
    }

    /// Returns at once, whatever `us` is.
    pub fn delay_us(&mut self, _us: u32)
        ensures
            *final(self) == *old(self),
    {
    }

    /// Returns at once, whatever `ms` is.
    pub fn delay_ms(&mut self, _ms: u32)
        ensures
            *final(self) == *old(self),
    {
    }
}

} // verus!
