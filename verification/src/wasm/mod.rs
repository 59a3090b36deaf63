//! What a WebAssembly host supplies: a clock that ticks, a way to start agents,
//! and whether the build can host a cluster at all.
pub mod agent;
pub mod clock;
pub mod park;
pub mod support;

pub use agent::{can_spawn, set_spawn, spawn_agent, SpawnError, SpawnHook};
pub use clock::{
    advance_epoch_ms, epoch_ms, install_fiber_clock, publish_epoch_ms, Epoch, EpochClock, FiberClock,
};
pub use park::WasmPark;
pub use support::{cluster_support, ClusterSupport};
