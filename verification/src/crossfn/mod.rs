//! Cross-function suspension: a yield may suspend the whole call stack up to
//! the nearest async boundary. Functions that may suspend are split at every
//! suspending call, and the values that live across one are given slots in a
//! per-frame table.
pub mod laws;
pub mod layout;
pub mod meaning;
pub mod transform;
pub mod validate;

pub use layout::{
    AsyncHooks, BlockKind, FnId, FrameState, HookBlockId, HookLocalId, LivenessMap,
    StateMachineLayout, SuspendingFns, SuspensionSite, TransformError, TransformOptions,
    TransformResult,
};
pub use transform::{transform_to_state_machine, transform_to_state_machine_with_options};
pub use validate::{validate_layout, LayoutError};
