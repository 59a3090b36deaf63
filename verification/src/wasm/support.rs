//! What a build can do, as opposed to what it was aimed at.
use vstd::prelude::*;

verus! {

/// What a build can do.
#[derive(Debug, Clone, Copy, PartialEq, Eq, Structural)]
pub struct ClusterSupport {
    /// Built for wasm at all.
    pub wasm: bool,
    /// The `atomics` target feature is on, so shared-memory parking works.
    pub atomics: bool,
}

/// Report whether a build can host a multi-agent cluster, given whether it is
/// built for wasm and whether atomics are on. `None` when it cannot, so a caller
/// refuses to start rather than forgetting to check a boolean.
pub fn cluster_support(wasm: bool, atomics: bool) -> (s: Option<ClusterSupport>)
    ensures
        s == if atomics {
            Some(ClusterSupport { wasm, atomics: true })
        } else {
            None
        },
{
    let support = ClusterSupport { wasm, atomics };
    if support.atomics {
        Some(support)
    } else {
        None
    }
}

} // verus!
