//! Stackful fibers: everything about them but the switch itself.
//!
//! A context switch is the machine's business. What a fiber is between two
//! switches, and what each switch means for it, is here: its lifecycle, the
//! values that pass in and out, cancellation and deadlines, how its stack is
//! sized, and what its first frame holds.
pub mod frame;
pub mod lifecycle;
pub mod stack;

pub use lifecycle::{
    current_fiber_id, is_cancelled, is_deadline_passed, should_yield_early, take_input,
    take_input_u64, yield_route, yield_u64, yield_value, ActiveFibers, Fiber, FiberIds, FiberState,
    FiberStep, Turn, YieldRoute,
};
pub use stack::{StackRange, DEFAULT_STACK_SIZE};
