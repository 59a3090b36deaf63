//! krio: a family of coroutine strategies that share a vocabulary.
//!
//! - [`vocab`]: the words that all of them use.
//! - [`stackless`]: a state-machine transform of one function.
//! - [`crossfn`]: a state-machine transform across function calls.
//! - [`runtime`]: schedulers for one agent, and what schedulers for several share.
//! - [`preempt`]: time slicing over the same tasks.
//! - [`fiber`]: fibers with a stack of their own, but for the switch itself.
//! - [`parallel`]: work stealing across agents that share an address space.
//! - [`wasm`]: what a WebAssembly host supplies.
pub mod crossfn;
pub mod fiber;
pub mod parallel;
pub mod preempt;
pub mod runtime;
pub mod stackless;
pub mod text;
pub mod vocab;
pub mod wasm;
