//! What the scheduler tells a host about tasks it is driving.
use vstd::prelude::*;

use crate::runtime::AgentId;
use crate::vocab::TaskId;

verus! {

/// Host hooks into the lifecycle of a scheduled task. Every method has a body
/// that does nothing, so a host implements only the events it cares about.
pub trait TaskObserver {
    /// About to step `task` on `agent`.
    fn on_step_begin(&self, task: TaskId, agent: AgentId) {
    }

    /// The step returned. Fires for a completing step too.
    fn on_step_end(&self, task: TaskId, agent: AgentId) {
    }

    /// `task` moved from `from` to `to` and is about to run there: after a
    /// successful steal and before the thief steps it.
    fn on_migrate(&self, task: TaskId, from: AgentId, to: AgentId) {
    }
}

} // verus!
