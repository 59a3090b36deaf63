//! Stopping every agent at a point where none of them is mutating.
//!
//! One word holds both the round and whether a stop is pending: odd means
//! pending, and a release moves on to the next even value. An agent that comes to
//! the barrier takes the word it saw with it, and may go once the word differs.
use vstd::prelude::*;

verus! {

/// Cluster-wide stop-the-world state.
pub struct Safepoint {
    state: u32,
    stopped: u32,
}

/// Low bit of the word: a stop is pending.
const PENDING: u32 = 1;

/// A stop is pending in this state.
pub open spec fn pending(state: u32) -> bool {
    state % 2 == 1
}

/// The state after this one.
pub open spec fn next_state(state: u32) -> u32 {
    if state == u32::MAX {
        0
    } else {
        (state + 1) as u32
    }
}

/// What a requester that waits for the barrier does next.
#[derive(Debug, Clone, Copy, PartialEq, Eq, Structural)]
pub enum Arrival {
    /// Everyone is here.
    Complete,
    /// The cluster is shutting down: give up.
    GaveUp,
    /// Wait for the count to change.
    Wait,
}

fn is_pending(state: u32) -> (b: bool)
    ensures
        b == pending(state),
{
    assert((state & 1 == 1) == (state % 2 == 1)) by (bit_vector);
    state & PENDING == PENDING
}

impl Safepoint {
    /// The round, odd while a stop is pending.
    pub closed spec fn word(&self) -> u32 {
        self.state
    }

    /// Agents waiting at the barrier.
    pub closed spec fn waiting(&self) -> u32 {
        self.stopped
    }

    pub fn new() -> (s: Self)
        ensures
            s.word() == 0,
            s.waiting() == 0,
    {
        Safepoint { state: 0, stopped: 0 }
    }

    /// The round, odd while a stop is pending.
    pub fn state(&self) -> (w: u32)
        ensures
            w == self.word(),
    {
        self.state
    }

    /// Is a stop pending? This is the hot-loop poll.
    pub fn requested(&self) -> (b: bool)
        ensures
            b == pending(self.word()),
    {
        is_pending(self.state)
    }

    /// How many agents are waiting at the barrier.
    pub fn stopped_count(&self) -> (n: u32)
        ensures
            n == self.waiting(),
    {
        self.stopped
    }

    /// Ask for a stop. Returns `false` if one was already pending, so two hosts
    /// cannot both think they own the world.
    pub fn request(&mut self) -> (granted: bool)
        ensures
            granted == !pending(old(self).word()),
            final(self).word() == if granted {
                next_state(old(self).word())
            } else {
                old(self).word()
            },
            final(self).waiting() == old(self).waiting(),
    {
        if is_pending(self.state) {
            return false;
        }
        self.state = self.state.wrapping_add(1);
        true
    }

    /// Come to the barrier: counts this agent as safe, and hands back the round it
    /// waits out. Where no stop is pending the agent does not join: it has come
    /// after the release.
    pub fn enter(&mut self) -> (round: Option<u32>)
        requires
            old(self).waiting() < u32::MAX,
        ensures
            final(self).word() == old(self).word(),
            pending(old(self).word()) ==> round == Some(old(self).word()) && final(self).waiting()
                == old(self).waiting() + 1,
            !pending(old(self).word()) ==> round is None && final(self).waiting()
                == old(self).waiting(),
    {
        if !is_pending(self.state) {
            return None;
        }
        self.stopped = self.stopped + 1;
        Some(self.state)
    }

    /// May an agent that came in `round` go?
    pub fn over(&self, round: u32) -> (b: bool)
        ensures
            b == (self.word() != round),
    {
        self.state != round
    }

    /// Go: this agent is no longer counted as safe.
    pub fn leave(&mut self)
        requires
            old(self).waiting() > 0,
        ensures
            final(self).word() == old(self).word(),
            final(self).waiting() == old(self).waiting() - 1,
    {
        self.stopped = self.stopped - 1;
    }

    /// Let everyone go. Does nothing when no stop is pending, so a shutdown can
    /// call it unconditionally without leaving one behind. Returns whether there
    /// was anyone to let go.
    pub fn release(&mut self) -> (released: bool)
        ensures
            released == pending(old(self).word()),
            final(self).word() == if released {
                next_state(old(self).word())
            } else {
                old(self).word()
            },
            final(self).waiting() == old(self).waiting(),
    {
        if !is_pending(self.state) {
            return false;
        }
        self.state = self.state.wrapping_add(1);
        true
    }

    /// Has the barrier emptied, so that a release may return? A second stop that
    /// began before would count those still on their way out. A shutdown does not
    /// wait for them.
    pub fn drained(&self, stopping: bool) -> (b: bool)
        ensures
            b == (self.waiting() == 0 || stopping),
    {
        self.stopped == 0 || stopping
    }

    /// Have `expected` agents arrived? Arrival comes before giving up.
    pub fn await_all(&self, expected: u32, stopping: bool) -> (a: Arrival)
        ensures
            a == if self.waiting() >= expected {
                Arrival::Complete
            } else if stopping {
                Arrival::GaveUp
            } else {
                Arrival::Wait
            },
    {
        if self.stopped >= expected {
            Arrival::Complete
        } else if stopping {
            Arrival::GaveUp
        } else {
            Arrival::Wait
        }
    }
}

/// A stop that is requested and released leaves no stop pending, and the word
/// has moved on: an agent that waits out the round sees it.
pub proof fn law_release_ends_the_round(state: u32)
    requires
        !pending(state),
    ensures
        pending(next_state(state)),
        !pending(next_state(next_state(state))),
        next_state(next_state(state)) != next_state(state),
        next_state(next_state(state)) != state,
{
}

} // verus!
