//! Parking on a shared-memory wait.
use vstd::prelude::*;

verus! {

/// Blocks an agent on its parking slot. Never to be used on a browser's main
/// thread, where waiting throws.
#[derive(Debug, Clone, Copy)]
pub struct WasmPark {
    /// Nanoseconds to wait before reporting a spurious wake; negative means wait
    /// indefinitely.
    timeout_ns: i64,
}

impl Default for WasmPark {
    fn default() -> (p: Self)
        ensures
            p@ == -1,
    {
        Self::new()
    }
}

impl WasmPark {
    /// Nanoseconds to wait; negative means indefinitely.
    pub closed spec fn view(&self) -> int {
        self.timeout_ns as int
    }

    /// Wait indefinitely. Safe as the default: a shutdown notifies every agent.
    pub fn new() -> (p: Self)
        ensures
            p@ == -1,
    {
        WasmPark { timeout_ns: -1 }
    }

    /// Wake spuriously after `ms` even if nobody notified.
    pub fn with_timeout_ms(ms: u32) -> (p: Self)
        ensures
            p@ == ms * 1_000_000,
    {
        WasmPark { timeout_ns: (ms as i64) * 1_000_000 }
    }

    /// Nanoseconds to wait; negative means indefinitely.
    pub fn timeout_ns(&self) -> (ns: i64)
        ensures
            ns == self@,
    {
        self.timeout_ns
    }

    /// Why there is no atomic parking on a target without atomics.
    pub fn why_unavailable() -> (text: &'static str)
        ensures
            text@ == "krio-wasm: atomic parking needs the `atomics` target feature — build with -Ctarget-feature=+atomics,+bulk-memory,+mutable-globals and -Zbuild-std, or use krio_parallel::SpinPark"@,
    {
        "krio-wasm: atomic parking needs the `atomics` target feature — build with -Ctarget-feature=+atomics,+bulk-memory,+mutable-globals and -Zbuild-std, or use krio_parallel::SpinPark"
    }
}

} // verus!
