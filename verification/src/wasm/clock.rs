//! A clock for targets without one: a counter that one agent bumps and every
//! other agent reads.
use vstd::prelude::*;

use crate::vocab::Clock;

verus! {

/// The shared millisecond counter.
#[derive(Debug)]
pub struct Epoch {
    ms: u64,
}

impl Epoch {
    /// The current reading.
    pub closed spec fn view(&self) -> u64 {
        self.ms
    }

    pub fn new() -> (e: Self)
        ensures
            e@ == 0,
    {
        Epoch { ms: 0 }
    }
}

/// Publish an absolute reading. A late or repeated one is ignored: the counter
/// never runs backwards. Returns the counter afterwards.
pub fn publish_epoch_ms(epoch: &mut Epoch, ms: u64) -> (now: u64)
    ensures
        now == if ms > old(epoch)@ {
            ms
        } else {
            old(epoch)@
        },
        final(epoch)@ == now,
{
    if ms > epoch.ms {
        epoch.ms = ms;
    }
    epoch.ms
}

/// Move the counter on by an interval. Returns the counter afterwards.
pub fn advance_epoch_ms(epoch: &mut Epoch, delta: u64) -> (now: u64)
    requires
        old(epoch)@ + delta <= u64::MAX,
    ensures
        now == old(epoch)@ + delta,
        final(epoch)@ == now,
{
    epoch.ms = epoch.ms + delta;
    epoch.ms
}

/// The current reading.
pub fn epoch_ms(epoch: &Epoch) -> (now: u64)
    ensures
        now == epoch@,
{
    epoch.ms
}

/// A [`Clock`] that reads the shared counter.
#[derive(Debug, Clone, Copy)]
pub struct EpochClock<'a> {
    epoch: &'a Epoch,
}

impl<'a> EpochClock<'a> {
    /// The counter this clock reads.
    pub closed spec fn view(&self) -> Epoch {
        *self.epoch
    }

    pub fn new(epoch: &'a Epoch) -> (c: Self)
        ensures
            c@ == *epoch,
    {
        EpochClock { epoch }
    }
}

impl<'a> Clock for EpochClock<'a> {
    /// What the epoch reads, and nothing else.
    open spec fn may_read(&self, now: u64) -> bool {
        now == self@@
    }

    fn now_ms(&self) -> (now: u64) {
        epoch_ms(self.epoch)
    }
}

/// Which clock fibers read their deadlines by.
#[derive(Debug, Clone, Copy, PartialEq, Eq, Structural)]
pub enum FiberClock {
    /// The host's own.
    Host,
    /// The shared counter.
    Epoch,
}

impl FiberClock {
    /// The reading that deadlines are held against, given what both clocks read.
    pub fn now_ms(self, host_ms: u64, epoch: &Epoch) -> (now: u64)
        ensures
            now == match self {
                FiberClock::Host => host_ms,
                FiberClock::Epoch => epoch@,
            },
    {
        match self {
            FiberClock::Host => host_ms,
            FiberClock::Epoch => epoch_ms(epoch),
        }
    }
}

/// Have fibers read their deadlines by the shared counter, so that a fiber's
/// deadline and the slice that set it are measured against the same origin.
pub fn install_fiber_clock(clock: &mut FiberClock)
    ensures
        *final(clock) == FiberClock::Epoch,
{
    *clock = FiberClock::Epoch;
}

/// Whatever is published, and in whatever order, the counter never runs backwards,
/// and a stale reading changes nothing.
pub proof fn law_epoch_never_runs_backwards(before: u64, ms: u64, after: u64)
    requires
        after == if ms > before {
            ms
        } else {
            before
        },
    ensures
        after >= before,
        after >= ms,
        ms <= before ==> after == before,
{
}

} // verus!
