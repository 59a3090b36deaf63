//! What a WebAssembly host supplies, as far as it holds on every target.
use krio::runtime::AgentId;
use krio::vocab::Clock;
use krio::wasm::{
    advance_epoch_ms, can_spawn, cluster_support, epoch_ms, install_fiber_clock, publish_epoch_ms,
    set_spawn, spawn_agent, ClusterSupport, Epoch, EpochClock, FiberClock, SpawnError, SpawnHook,
    WasmPark,
};

#[test]
fn the_epoch_never_runs_backwards() {
    let mut epoch = Epoch::new();
    // A ticker publishes absolute readings.
    publish_epoch_ms(&mut epoch, 1_000);
    assert_eq!(epoch_ms(&epoch), 1_000);

    publish_epoch_ms(&mut epoch, 1_500);
    assert_eq!(epoch_ms(&epoch), 1_500);

    // A late or duplicated reading must be ignored, not applied. A
    // deadline that moves backwards turns into a fiber that never
    // yields, which is far harder to diagnose than a stalled clock.
    let after_stale = publish_epoch_ms(&mut epoch, 1_200);
    assert_eq!(after_stale, 1_500);
    assert_eq!(epoch_ms(&epoch), 1_500);

    // A ticker that only knows its own interval bumps instead.
    let after_bump = advance_epoch_ms(&mut epoch, 16);
    assert_eq!(after_bump, 1_516);

    // And the clock reads the same counter.
    assert_eq!(EpochClock::new(&epoch).now_ms(), 1_516);
}

#[test]
fn spawning_without_a_host_says_so_rather_than_guessing() {
    // A wasm module cannot invent a way to start a Worker, and this is
    // the error a host sees if it forgets to say how.
    let mut host: SpawnHook<fn(AgentId) -> Result<(), SpawnError>> = SpawnHook::new();
    let err = spawn_agent(&host, AgentId(1)).unwrap_err();
    assert_eq!(err, SpawnError::NoHost);
    assert!(!can_spawn(&host));

    set_spawn(&mut host, |agent| {
        if agent.0 < 4 {
            Ok(())
        } else {
            Err(SpawnError::Refused)
        }
    });

    assert!(can_spawn(&host));
    assert_eq!(spawn_agent(&host, AgentId(1)), Ok(()));
    assert_eq!(
        spawn_agent(&host, AgentId(9)),
        Err(SpawnError::Refused),
        "a host that declines must be able to say so"
    );

    // The last hook wins.
    set_spawn(&mut host, |_| Err(SpawnError::Refused));
    assert_eq!(spawn_agent(&host, AgentId(1)), Err(SpawnError::Refused));
}

#[test]
fn spawn_errors_have_a_text() {
    assert_eq!(
        SpawnError::NoHost.message(),
        "krio-wasm: no agent spawner installed — call krio_wasm::set_spawn() with a hook that starts a worker"
    );
    assert_eq!(SpawnError::Refused.message(), "krio-wasm: the host refused to start an agent");
}

#[test]
fn a_build_without_atomics_refuses_to_claim_cluster_support() {
    // The point of returning Option: a host writing `?` here cannot
    // accidentally start a cluster on a build that cannot host one.
    for wasm in [false, true] {
        let support = cluster_support(wasm, false);
        assert!(
            support.is_none(),
            "a build without atomics must not claim it can cluster"
        );
        let support = cluster_support(wasm, true).expect("atomics is on; support must be reported");
        assert!(support.atomics);
    }
}

#[test]
fn this_build_can_host_a_cluster() {
    let support = cluster_support(true, true).expect("atomics build must report support");
    assert!(support.wasm);
    assert!(support.atomics);
    assert_eq!(support, ClusterSupport { wasm: true, atomics: true });
}

#[test]
fn fibers_read_the_installed_clock() {
    let mut epoch = Epoch::new();
    publish_epoch_ms(&mut epoch, 40);
    let mut clock = FiberClock::Host;
    assert_eq!(clock.now_ms(7, &epoch), 7);
    install_fiber_clock(&mut clock);
    assert_eq!(clock.now_ms(7, &epoch), 40);
    install_fiber_clock(&mut clock);
    assert_eq!(clock.now_ms(7, &epoch), 40);
}

#[test]
fn a_parker_waits_for_as_long_as_it_was_told() {
    assert_eq!(WasmPark::new().timeout_ns(), -1);
    assert_eq!(WasmPark::default().timeout_ns(), -1);
    assert_eq!(WasmPark::with_timeout_ms(0).timeout_ns(), 0);
    assert_eq!(WasmPark::with_timeout_ms(3).timeout_ns(), 3_000_000);
    assert_eq!(WasmPark::with_timeout_ms(u32::MAX).timeout_ns(), 4_294_967_295_000_000);
}

#[test]
fn without_atomics_there_is_a_reason() {
    assert_eq!(
        WasmPark::why_unavailable(),
        "krio-wasm: atomic parking needs the `atomics` target feature — build with -Ctarget-feature=+atomics,+bulk-memory,+mutable-globals and -Zbuild-std, or use krio_parallel::SpinPark"
    );
}
