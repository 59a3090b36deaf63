//! How an idle agent waits, and how it gets woken.
use core::sync::atomic::AtomicU32;
use vstd::prelude::*;

verus! {

/// Agent is running, or about to look for work.
pub const RUNNING: u32 = 0;

/// Agent has published its intent to sleep and may be waiting.
pub const PARKED: u32 = 1;

/// Someone handed this agent work while it was parked.
pub const NOTIFIED: u32 = 2;

/// Blocking strategy for an idle agent.
pub trait Park: Sync {
    /// Wait until `slot` holds something other than `expected`. May return
    /// spuriously: callers re-check after every return.
    fn park(&self, slot: &AtomicU32, expected: u32);

    /// Wake an agent waiting on `slot`. The caller has already moved the slot out
    /// of [`PARKED`]; this is only the platform notification.
    fn unpark(&self, slot: &AtomicU32);

    /// Wake every agent waiting on `slot`.
    fn unpark_all(&self, slot: &AtomicU32) {
        self.unpark(slot);
    }
}

/// Bounded spin: gives up after a bounded number of looks and reports a spurious
/// wake rather than spinning forever.
#[derive(Debug)]
pub struct SpinPark {
    /// Looks before reporting a spurious wake.
    pub spins: u32,
}

impl Default for SpinPark {
    fn default() -> (p: Self)
        ensures
            p.spins == 4096,
    {
        SpinPark { spins: 4096 }
    }
}

impl Park for SpinPark {
    fn park(&self, slot: &AtomicU32, expected: u32) {
        let mut left: u32 = self.spins;
        while left > 0
            decreases left,
        {
            if slot.load(core::sync::atomic::Ordering::Acquire) != expected {
                return;
            }
            left = left - 1;
        }
    }

    fn unpark(&self, slot: &AtomicU32) {
        // The state store the caller already made is the whole signal.
    }
}

} // verus!
