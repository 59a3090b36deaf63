//! Starting agents. A module cannot start a worker by itself, so the host
//! installs a hook that can.
use vstd::prelude::*;

use crate::runtime::AgentId;

verus! {

/// Why an agent could not be created.
#[derive(Debug, Clone, Copy, PartialEq, Eq, Structural)]
pub enum SpawnError {
    /// No host hook installed.
    NoHost,
    /// The host declined.
    Refused,
}

impl SpawnError {
    /// The error as text.
    pub fn message(self) -> (text: String)
        ensures
            text@ == match self {
                SpawnError::NoHost => "krio-wasm: no agent spawner installed — call krio_wasm::set_spawn() with a hook that starts a worker"@,
                SpawnError::Refused => "krio-wasm: the host refused to start an agent"@,
            },
    {
        match self {
            SpawnError::NoHost => "krio-wasm: no agent spawner installed — call krio_wasm::set_spawn() with a hook that starts a worker".to_owned(),
            SpawnError::Refused => "krio-wasm: the host refused to start an agent".to_owned(),
        }
    }
}

/// Where the host's hook is installed. There is no default: the module cannot
/// guess how to start a worker.
pub struct SpawnHook<F> {
    hook: Option<F>,
}

impl<F: Fn(AgentId) -> Result<(), SpawnError>> SpawnHook<F> {
    /// The installed hook.
    pub closed spec fn view(&self) -> Option<F> {
        self.hook
    }

    /// Nothing installed.
    pub fn new() -> (h: Self)
        ensures
            h@ is None,
    {
        SpawnHook { hook: None }
    }
}

/// Install how agents are created. Replaces an earlier hook.
pub fn set_spawn<F: Fn(AgentId) -> Result<(), SpawnError>>(host: &mut SpawnHook<F>, spawner: F)
    ensures
        final(host)@ == Some(spawner),
{
    host.hook = Some(spawner);
}

/// Ask the host for agent `agent`. Returns once the agent has been requested.
pub fn spawn_agent<F: Fn(AgentId) -> Result<(), SpawnError>>(
    host: &SpawnHook<F>,
    agent: AgentId,
) -> (r: Result<(), SpawnError>)
    requires
        host@ matches Some(f) ==> call_requires(f, (agent,)),
    ensures
        match host@ {
            None => r == Err::<(), SpawnError>(SpawnError::NoHost),
            Some(f) => call_ensures(f, (agent,), r),
        },
{
    match &host.hook {
        None => Err(SpawnError::NoHost),
        Some(spawner) => spawner(agent),
    }
}

/// Has the host installed a hook?
pub fn can_spawn<F: Fn(AgentId) -> Result<(), SpawnError>>(host: &SpawnHook<F>) -> (b: bool)
    ensures
        b == (host@ is Some),
{
    host.hook.is_some()
}

} // verus!
