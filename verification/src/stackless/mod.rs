//! A state-machine transform of one function, for any intermediate
//! representation.
//!
//! A host marks structured-concurrency regions in a function's body, the
//! coroutines inside them and the points where they suspend. The transform turns
//! each coroutine into a resumable state machine within the same function, and an
//! executor decides how the machines of a region are driven.
pub mod cfg;
pub mod executor;
pub mod fence;
pub mod finds;
pub mod keep;
pub mod laws;
pub mod machine;
pub mod model;
pub mod nest;
pub mod passes;
pub mod placement;
pub mod run;
pub mod scan;
pub mod shed;
pub mod tally;
pub mod transform;
pub mod turns;
pub mod whole;

pub use crate::vocab::{CfgId, Marker};
pub use cfg::{CoroCfg, CoroHooks};
pub use executor::{CooperativeExecutor, Executor, RegionExits, WakerExecutor};
pub use machine::Machine;
pub use scan::{find_regions, find_suspension_points, Coroutine, Region, SuspKind};
pub use transform::run_with;
