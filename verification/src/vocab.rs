//! The words every execution model in the library shares: what a marker
//! statement means, why a coroutine stopped, how a task is named, and what the
//! handles of a control-flow graph can do.
use core::fmt::Debug;
use core::hash::Hash;
use vstd::prelude::*;
use vstd::std_specs::cmp::PartialEqSpec;
use vstd::std_specs::cmp::PartialOrdSpec;

verus! {

/// Marker categories the state-machine transform cares about. A host's
/// classifier returns one of these for each statement that drives the
/// transform; everything else is a regular statement.
#[derive(Debug, Clone, Copy, PartialEq, Eq, Structural)]
pub enum Marker {
    /// Open a concurrency region.
    RegionBegin,
    /// Close the most recent region.
    RegionEnd,
    /// Open a coroutine inside the current region.
    CoroutineBegin,
    /// Close the most recent coroutine.
    CoroutineEnd,
    /// Unconditional yield: always suspends.
    Yield,
    /// Guarded recv: suspends only when the channel is empty.
    GuardedRecv,
    /// Producing send: runs the send first, then yields once.
    ProducingSend,
}

/// Why a coroutine stopped running on this turn.
#[derive(Debug, Clone, Copy, PartialEq, Eq, Structural)]
pub enum Suspension {
    /// The coroutine ran to completion and will not resume.
    Completed,
    /// The coroutine suspended at an unconditional yield.
    Yielded,
    /// The coroutine suspended waiting on a channel, future or event.
    Pending,
}

impl Suspension {
    /// Has the underlying coroutine finished, so that it is safe to drop
    /// without leaking work?
    pub fn is_done(self) -> (done: bool)
        ensures
            done == (self == Suspension::Completed),
    {
        matches!(self, Suspension::Completed)
    }
}

/// Handles a host uses for blocks and locals of a CFG-shaped IR. They are
/// opaque, but ordered: the suspension scan bounds its search to a coroutine's
/// block range by the handles' order.
pub trait CfgId: Copy + Eq + Ord + Hash + Debug {

}

impl<T: Copy + Eq + Ord + Hash + Debug> CfgId for T {

}

/// `a` comes before `b` in the order of the handles.
pub open spec fn id_before<T: CfgId>(a: T, b: T) -> bool {
    a.partial_cmp_spec(&b) == Some(core::cmp::Ordering::Less)
}

/// `==`, `<` and `>` of a handle type mean what they say: `==` is identity, and
/// `<` is a strict total order with `>` as its converse.
pub open spec fn lawful_ids<T: CfgId>() -> bool {
    &&& lawful_eq::<T>()
    &&& T::obeys_partial_cmp_spec()
    &&& forall|a: T, b: T|
        (#[trigger] a.partial_cmp_spec(&b) == Some(core::cmp::Ordering::Greater)) == id_before(b, a)
    &&& forall|a: T| !(#[trigger] id_before(a, a))
    &&& forall|a: T, b: T| a == b || #[trigger] id_before(a, b) || id_before(b, a)
    &&& forall|a: T, b: T, c: T|
        #[trigger] id_before(a, b) && #[trigger] id_before(b, c) ==> id_before(a, c)
}

/// `==` of a handle type is identity.
pub open spec fn lawful_eq<T: Eq>() -> bool {
    &&& T::obeys_eq_spec()
    &&& forall|a: T, b: T| #[trigger] a.eq_spec(&b) == (a == b)
}

/// Integer handles obey the laws.
pub proof fn law_integer_handles_are_lawful()
    ensures
        lawful_ids::<u32>(),
        lawful_ids::<u64>(),
        lawful_ids::<usize>(),
{
}

/// Process-unique identity of a task, stable across a migration between
/// execution agents. Id 0 is reserved for "no task", the scheduler's own
/// context.
#[derive(Debug, Clone, Copy, PartialEq, Eq, PartialOrd, Ord, Hash, Structural)]
pub struct TaskId(pub u64);

impl TaskId {
    /// The scheduler or host context: never a real task.
    pub fn none() -> (id: TaskId)
        ensures
            id == TaskId(0),
    {
        TaskId(0)
    }

    /// Is this a real task rather than the sentinel of [`TaskId::none`]?
    pub fn is_task(self) -> (r: bool)
        ensures
            r == (self != TaskId(0)),
    {
        self.0 != 0
    }
}

/// A unit of work a scheduler can drive.
///
/// The two specification functions say what a task does when it is stepped. One
/// that leaves them out promises nothing of its steps.
pub trait Task {
    /// Where the task stands.
    open spec fn place(&self) -> int {
        0
    }

    /// What one step may do: lead to place `next`, with report `s`.
    open spec fn may_step(&self, next: int, s: Suspension) -> bool {
        true
    }

    /// Run one step. After `Completed` has been reported, calling `step` again
    /// is a programming error.
    fn step(&mut self) -> (s: Suspension)
        ensures
            old(self).may_step(final(self).place(), s),
    ;
}

/// One step may lead from one task to the other, with report `s`.
pub open spec fn stepped<T: Task + ?Sized>(before: &T, after: &T, s: Suspension) -> bool {
    before.may_step(after.place(), s)
}

impl<T: Task + ?Sized> Task for Box<T> {
    open spec fn place(&self) -> int {
        (**self).place()
    }

    open spec fn may_step(&self, next: int, s: Suspension) -> bool {
        (**self).may_step(next, s)
    }

    fn step(&mut self) -> (s: Suspension) {
        (**self).step()
    }
}

/// Monotonic millisecond source. The origin is unspecified: only differences
/// between two readings of the same clock are meaningful.
///
/// The specification function says what a reading may be. A clock that leaves it
/// out promises nothing of its readings.
pub trait Clock {
    /// A reading that the clock may give.
    open spec fn may_read(&self, now: u64) -> bool {
        true
    }

    /// Milliseconds since this clock's own origin.
    fn now_ms(&self) -> (now: u64)
        ensures
            self.may_read(now),
    ;
}

} // verus!
