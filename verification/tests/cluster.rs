//! Cluster behaviour: what runs where, who stops when, and what the host is told
//! about it.
use std::sync::atomic::{AtomicU64, AtomicUsize, Ordering};
use std::sync::{Arc, Mutex};

use krio::parallel::cluster::{Pass, PassStep, RunEnd, RunStep};
use krio::parallel::park::{NOTIFIED, PARKED, RUNNING};
use krio::parallel::{Cluster, TaskObserver};
use krio::runtime::{AgentId, AgentRole, Drive};
use krio::vocab::{Clock, Suspension, Task, TaskId};

type Work = Box<dyn Task + Send>;
type Plain<C> = Cluster<Work, C, Quiet>;
type Watched<C> = Cluster<Work, C, Shared>;

/// Wall clock, for tests that only need time to move forwards.
struct StdClock(std::time::Instant);

impl StdClock {
    fn new() -> Self {
        Self(std::time::Instant::now())
    }
}

impl Clock for StdClock {
    fn now_ms(&self) -> u64 {
        self.0.elapsed().as_millis() as u64
    }
}

/// Advances one millisecond per reading, so a budget is exactly countable.
struct TickClock(AtomicU64);

impl TickClock {
    fn new() -> Self {
        Self(AtomicU64::new(0))
    }
}

impl Clock for TickClock {
    fn now_ms(&self) -> u64 {
        self.0.fetch_add(1, Ordering::Relaxed)
    }
}

/// Completes after `steps` resumptions, then bumps a shared counter.
struct Countdown {
    steps: u32,
    done: Arc<AtomicUsize>,
}

impl Task for Countdown {
    fn step(&mut self) -> Suspension {
        if self.steps == 0 {
            self.done.fetch_add(1, Ordering::Relaxed);
            Suspension::Completed
        } else {
            self.steps -= 1;
            Suspension::Yielded
        }
    }
}

fn countdown(steps: u32, done: &Arc<AtomicUsize>) -> Box<dyn Task + Send> {
    Box::new(Countdown {
        steps,
        done: Arc::clone(done),
    })
}

#[derive(Default)]
struct Recorder {
    begins: Mutex<Vec<(TaskId, AgentId)>>,
    migrations: Mutex<Vec<(TaskId, AgentId, AgentId)>>,
    ends: AtomicUsize,
}

struct Quiet;

impl TaskObserver for Quiet {}

struct Shared(Arc<Recorder>);

impl TaskObserver for Shared {
    fn on_step_begin(&self, task: TaskId, agent: AgentId) {
        self.0.begins.lock().unwrap().push((task, agent));
    }
    fn on_step_end(&self, _task: TaskId, _agent: AgentId) {
        self.0.ends.fetch_add(1, Ordering::Relaxed);
    }
    fn on_migrate(&self, task: TaskId, from: AgentId, to: AgentId) {
        self.0.migrations.lock().unwrap().push((task, from, to));
    }
}

/// Returns `Pending` until `ready` is set, counting every poll so a
/// test can prove the scheduler is not spinning on it.
struct Waiter {
    ready: Arc<std::sync::atomic::AtomicBool>,
    polls: Arc<AtomicUsize>,
    done: Arc<AtomicUsize>,
}

impl Task for Waiter {
    fn step(&mut self) -> Suspension {
        self.polls.fetch_add(1, Ordering::Relaxed);
        if self.ready.load(Ordering::Acquire) {
            self.done.fetch_add(1, Ordering::Relaxed);
            Suspension::Completed
        } else {
            Suspension::Pending
        }
    }
}

#[test]
fn single_agent_drains_every_task() {
    let done = Arc::new(AtomicUsize::new(0));
    let mut cluster: Plain<StdClock> = Cluster::new(1, StdClock::new());

    for _ in 0..64 {
        cluster.spawn(countdown(3, &done));
    }

    // Unbounded worker pass: runs until there is nothing left.
    let mut passes = 0;
    while !matches!(
        cluster.drive_once(AgentId(0), AgentRole::Worker),
        Drive::Idle
    ) {
        passes += 1;
        assert!(passes < 1000, "worker pass made no progress");
    }

    assert_eq!(done.load(Ordering::Relaxed), 64);
}

#[test]
fn worker_pass_runs_until_dry() {
    let done = Arc::new(AtomicUsize::new(0));
    let mut cluster: Plain<TickClock> = Cluster::new(1, TickClock::new());

    for _ in 0..100 {
        cluster.spawn(countdown(0, &done));
    }

    // Unbounded: one pass takes all hundred, however long the clock says
    // that took.
    assert_eq!(
        cluster.drive_once(AgentId(0), AgentRole::Worker),
        Drive::Ran(100)
    );
    assert_eq!(done.load(Ordering::Relaxed), 100);
}

#[test]
fn main_agent_pass_is_bounded_by_the_frame_budget() {
    let done = Arc::new(AtomicUsize::new(0));
    let mut cluster: Plain<TickClock> = Cluster::new(1, TickClock::new());
    cluster.set_frame_ms(8);

    for _ in 0..100 {
        cluster.spawn(countdown(0, &done));
    }

    // The same hundred tasks, but the main agent must hand control back.
    let first = cluster.drive_once(AgentId(0), AgentRole::Main);
    let Drive::Ran(n) = first else {
        panic!("expected work, got {first:?}");
    };
    assert!(
        n < 100,
        "main agent ran the whole queue ({n}) instead of yielding at its budget"
    );
    assert!(n > 0, "main agent made no progress at all");

    // And it picks up where it left off rather than losing the rest.
    let mut total = n;
    while total < 100 {
        match cluster.drive_once(AgentId(0), AgentRole::Main) {
            Drive::Ran(k) => total += k,
            other => panic!("stalled with {total} done: {other:?}"),
        }
    }
    assert_eq!(done.load(Ordering::Relaxed), 100);
}

#[test]
fn idle_cluster_reports_idle() {
    let mut cluster: Plain<StdClock> = Cluster::new(2, StdClock::new());
    assert_eq!(cluster.drive_once(AgentId(0), AgentRole::Main), Drive::Idle);
    assert!(!cluster.has_work());
}

#[test]
fn spawn_on_places_work_without_migrating_it() {
    let done = Arc::new(AtomicUsize::new(0));
    let recorder = Arc::new(Recorder::default());
    let mut cluster: Watched<StdClock> = Cluster::new(2, StdClock::new());
    cluster.set_observer(Shared(Arc::clone(&recorder)));

    let id = cluster.spawn_on(AgentId(0), countdown(0, &done));
    assert!(id.is_task(), "a real task must not get the NONE sentinel");

    // Agent 0 finds it in its own deque: no steal, so no migration.
    assert_eq!(
        cluster.drive_once(AgentId(0), AgentRole::Worker),
        Drive::Ran(1)
    );
    assert_eq!(done.load(Ordering::Relaxed), 1);
    assert!(recorder.migrations.lock().unwrap().is_empty());

    let begins = recorder.begins.lock().unwrap();
    assert_eq!(begins.len(), 1);
    assert_eq!(begins[0], (id, AgentId(0)));
    assert_eq!(recorder.ends.load(Ordering::Relaxed), 1);
}

#[test]
fn stealing_reports_the_migration_to_the_host() {
    let done = Arc::new(AtomicUsize::new(0));
    let recorder = Arc::new(Recorder::default());
    let mut cluster: Watched<StdClock> = Cluster::new(2, StdClock::new());
    cluster.set_observer(Shared(Arc::clone(&recorder)));

    // Placed on agent 0 …
    let id = cluster.spawn_on(AgentId(0), countdown(0, &done));

    // … but driven by agent 1, whose only route to it is a steal.
    assert_eq!(
        cluster.drive_once(AgentId(1), AgentRole::Worker),
        Drive::Ran(1)
    );

    let migrations = recorder.migrations.lock().unwrap();
    assert_eq!(
        migrations.as_slice(),
        &[(id, AgentId(0), AgentId(1))],
        "a stolen task must tell the host it changed agent"
    );

    // The host is told it moved *before* it is told it ran there.
    let begins = recorder.begins.lock().unwrap();
    assert_eq!(begins[0], (id, AgentId(1)));
}

#[test]
fn overflow_spills_to_the_injector_instead_of_being_lost() {
    let done = Arc::new(AtomicUsize::new(0));
    // Deque capacity 4 per agent, but 200 tasks: most must spill.
    let mut cluster: Plain<StdClock> = Cluster::with_capacity(1, 4, StdClock::new());

    for _ in 0..200 {
        cluster.spawn(countdown(2, &done));
    }

    let mut guard = 0;
    while !matches!(
        cluster.drive_once(AgentId(0), AgentRole::Worker),
        Drive::Idle
    ) {
        guard += 1;
        assert!(guard < 10_000, "no progress");
    }
    assert_eq!(done.load(Ordering::Relaxed), 200);
}

#[test]
fn drive_once_never_parks_however_it_is_called() {
    let done = Arc::new(AtomicUsize::new(0));
    let mut cluster: Plain<StdClock> = Cluster::new(3, StdClock::new());

    // Idle: the tempting place to "just wait for work".
    assert_eq!(cluster.drive_once(AgentId(0), AgentRole::Main), Drive::Idle);
    assert_eq!(
        cluster.drive_once(AgentId(0), AgentRole::Worker),
        Drive::Idle
    );

    // Busy, and over budget, so the pass ends early with work left.
    for _ in 0..64 {
        cluster.spawn(countdown(2, &done));
    }
    while done.load(Ordering::Relaxed) < 64 {
        assert_ne!(
            cluster.drive_once(AgentId(0), AgentRole::Main),
            Drive::ShuttingDown
        );
    }

    // Holding nothing but a waiting task — the other place an agent
    // might decide there is nothing better to do than sleep.
    struct Waiter;
    impl Task for Waiter {
        fn step(&mut self) -> Suspension {
            Suspension::Pending
        }
    }
    cluster.spawn_on(AgentId(0), Box::new(Waiter));
    cluster.drive_once(AgentId(0), AgentRole::Main);
    assert_eq!(cluster.parked_count(), 1);
    assert_eq!(cluster.drive_once(AgentId(0), AgentRole::Main), Drive::Idle);

    // Shutdown notifies every agent; unparking is allowed, waiting is
    // not, so this must not trip the poison either.
    cluster.shutdown();
    assert_eq!(
        cluster.drive_once(AgentId(0), AgentRole::Main),
        Drive::ShuttingDown
    );
}

#[test]
fn a_pending_task_is_parked_rather_than_polled_in_a_loop() {
    let ready = Arc::new(std::sync::atomic::AtomicBool::new(false));
    let polls = Arc::new(AtomicUsize::new(0));
    let done = Arc::new(AtomicUsize::new(0));

    let mut cluster: Plain<StdClock> = Cluster::new(1, StdClock::new());
    cluster.spawn_on(
        AgentId(0),
        Box::new(Waiter {
            ready: Arc::clone(&ready),
            polls: Arc::clone(&polls),
            done: Arc::clone(&done),
        }),
    );

    // First pass polls it once, learns it is waiting, and sets it aside.
    assert_eq!(
        cluster.drive_once(AgentId(0), AgentRole::Worker),
        Drive::Ran(1)
    );
    assert_eq!(polls.load(Ordering::Relaxed), 1);
    assert_eq!(cluster.parked_count(), 1);

    // This is the whole point: further passes find nothing to do. A
    // waiting task must not be work, or an agent can never sleep.
    for _ in 0..50 {
        assert_eq!(
            cluster.drive_once(AgentId(0), AgentRole::Worker),
            Drive::Idle
        );
    }
    assert_eq!(
        polls.load(Ordering::Relaxed),
        1,
        "a parked task was polled again — the agent is spinning on it"
    );
    assert!(!cluster.has_work(), "a waiting task must not count as work");
}

#[test]
fn waking_a_pending_task_puts_it_back_to_work() {
    let ready = Arc::new(std::sync::atomic::AtomicBool::new(false));
    let polls = Arc::new(AtomicUsize::new(0));
    let done = Arc::new(AtomicUsize::new(0));

    let mut cluster: Plain<StdClock> = Cluster::new(1, StdClock::new());
    let id = cluster.spawn_on(
        AgentId(0),
        Box::new(Waiter {
            ready: Arc::clone(&ready),
            polls: Arc::clone(&polls),
            done: Arc::clone(&done),
        }),
    );

    cluster.drive_once(AgentId(0), AgentRole::Worker);
    assert_eq!(cluster.parked_count(), 1);

    // The host's channel received something.
    ready.store(true, Ordering::Release);
    assert!(cluster.wake(id), "waking a parked task must resume it");
    assert_eq!(cluster.parked_count(), 0);
    assert!(cluster.has_work());

    assert_eq!(
        cluster.drive_once(AgentId(0), AgentRole::Worker),
        Drive::Ran(1)
    );
    assert_eq!(done.load(Ordering::Relaxed), 1);
    assert_eq!(polls.load(Ordering::Relaxed), 2);

    // Waking something that is gone is a no-op, not a panic.
    assert!(!cluster.wake(id));
}

#[test]
fn a_wake_that_arrives_before_the_task_parks_is_not_lost() {
    let ready = Arc::new(std::sync::atomic::AtomicBool::new(false));
    let polls = Arc::new(AtomicUsize::new(0));
    let done = Arc::new(AtomicUsize::new(0));

    let mut cluster: Plain<StdClock> = Cluster::new(1, StdClock::new());
    let id = cluster.spawn_on(
        AgentId(0),
        Box::new(Waiter {
            ready: Arc::clone(&ready),
            polls: Arc::clone(&polls),
            done: Arc::clone(&done),
        }),
    );

    // The event fires before the task has ever run, let alone parked.
    // Recording it is what stops the task sleeping through its wake.
    assert!(!cluster.wake(id), "nothing is parked yet");

    // The pass polls it, sees Pending, and finds the recorded wake — so
    // it re-queues and polls again instead of going to sleep.
    let drive = cluster.drive_once(AgentId(0), AgentRole::Worker);
    assert_eq!(drive, Drive::Ran(2), "the recorded wake must be consumed");
    assert_eq!(polls.load(Ordering::Relaxed), 2);
    assert_eq!(cluster.parked_count(), 1, "and then it parks for real");

    // Still reachable afterwards.
    ready.store(true, Ordering::Release);
    assert!(cluster.wake(id));
    cluster.drive_once(AgentId(0), AgentRole::Worker);
    assert_eq!(done.load(Ordering::Relaxed), 1);
}

#[test]
fn a_second_stop_is_refused_rather_than_interleaved() {
    let mut cluster: Plain<StdClock> = Cluster::new(1, StdClock::new());
    // Two collectors believing they both own the world is worse than one being
    // told no.
    assert!(cluster.request_safepoint());
    assert!(!cluster.request_safepoint());
    let out: Option<u32> = cluster.stop_the_world(AgentId(0), || unreachable!());
    assert!(out.is_none());
    assert!(cluster.resume_world());

    // And the world is usable again afterwards.
    assert!(cluster.stop_the_world(AgentId(0), || 7) == Some(7));
    assert!(!cluster.safepoint_requested());
}

#[test]
fn the_world_is_stopped_once_all_the_others_are_in() {
    let mut cluster: Plain<StdClock> = Cluster::new(3, StdClock::new());
    assert!(cluster.request_safepoint());
    assert!(!cluster.world_is_stopped());
    let first = cluster.enter_safepoint().expect("a stop is pending");
    assert!(!cluster.world_is_stopped());
    let second = cluster.enter_safepoint().expect("a stop is pending");
    assert!(cluster.world_is_stopped());
    assert!(!cluster.safepoint_over(first));
    assert!(cluster.resume_world());
    assert!(cluster.safepoint_over(first));
    assert!(cluster.safepoint_over(second));
    assert!(!cluster.world_is_running());
    cluster.leave_safepoint();
    cluster.leave_safepoint();
    assert!(cluster.world_is_running());
    assert!(cluster.enter_safepoint().is_none());
    assert!(!cluster.resume_world());
}

#[test]
fn a_worker_goes_to_sleep_only_with_nothing_to_do() {
    let done = Arc::new(AtomicUsize::new(0));
    let mut cluster: Plain<StdClock> = Cluster::new(2, StdClock::new());
    assert_eq!(cluster.agent_count(), 2);
    assert_eq!(cluster.slot(AgentId(1)), RUNNING);

    // Dry: it publishes its intent to sleep.
    let drive = cluster.drive_once(AgentId(1), AgentRole::Worker);
    assert_eq!(drive, Drive::Idle);
    assert_eq!(cluster.after_pass(AgentId(1), drive), RunStep::Park);
    assert_eq!(cluster.slot(AgentId(1)), PARKED);

    // Work wakes it.
    cluster.spawn(countdown(0, &done));
    assert_eq!(cluster.slot(AgentId(1)), NOTIFIED);
    assert!(!cluster.after_park(AgentId(1)));
    assert_eq!(cluster.slot(AgentId(1)), RUNNING);
    let drive = cluster.drive_once(AgentId(1), AgentRole::Worker);
    assert_eq!(drive, Drive::Ran(1));
    assert_eq!(cluster.after_pass(AgentId(1), drive), RunStep::Again);

    // Shutdown ends it.
    cluster.shutdown();
    assert!(cluster.is_stopping());
    assert_eq!(cluster.slot(AgentId(0)), NOTIFIED);
    let drive = cluster.drive_once(AgentId(1), AgentRole::Worker);
    assert_eq!(drive, Drive::ShuttingDown);
    assert_eq!(cluster.after_pass(AgentId(1), drive), RunStep::Leave);
}

#[test]
fn ids_are_handed_out_from_one_on() {
    let done = Arc::new(AtomicUsize::new(0));
    let mut cluster: Plain<StdClock> = Cluster::new(2, StdClock::new());
    assert_eq!(cluster.spawn(countdown(0, &done)), TaskId(1));
    assert_eq!(cluster.spawn_on(AgentId(1), countdown(0, &done)), TaskId(2));
    assert_eq!(cluster.spawn(countdown(0, &done)), TaskId(3));
}

#[test]
fn a_pass_takes_jobs_in_the_order_of_the_policy() {
    // Its own newest job first, then the overflow queue, then a victim's oldest.
    let done = Arc::new(AtomicUsize::new(0));
    let mut cluster: Plain<StdClock> = Cluster::with_capacity(2, 2, StdClock::new());
    for _ in 0..3 {
        cluster.spawn_on(AgentId(0), countdown(0, &done));
    }
    for _ in 0..2 {
        cluster.spawn_on(AgentId(1), countdown(0, &done));
    }
    let mut order = Vec::new();
    while let Some((job, from)) = cluster.next_job(AgentId(0)) {
        order.push((job.id.0, from.map(|a| a.0)));
    }
    assert_eq!(order, vec![(2, None), (1, None), (3, None), (4, Some(1)), (5, Some(1))]);
    assert!(!cluster.has_work());
}

#[test]
fn a_pass_hands_control_back_with_a_stop_pending() {
    let done = Arc::new(AtomicUsize::new(0));
    let mut cluster: Plain<StdClock> = Cluster::new(3, StdClock::new());
    assert!(!cluster.before_pass());
    assert!(cluster.request_safepoint());

    // Without work a pass reports so, and waits for nobody.
    for role in [AgentRole::Main, AgentRole::Worker] {
        assert_eq!(cluster.drive_once(AgentId(1), role), Drive::Idle);
    }

    // With work it takes one step, in either role, and the barrier is next.
    for _ in 0..4 {
        cluster.spawn_on(AgentId(1), countdown(0, &done));
    }
    assert_eq!(cluster.drive_once(AgentId(1), AgentRole::Worker), Drive::Ran(1));
    assert_eq!(cluster.drive_once(AgentId(1), AgentRole::Main), Drive::Ran(1));
    assert_eq!(done.load(Ordering::Relaxed), 2);
    assert!(cluster.before_pass());
    assert!(!cluster.world_is_stopped());

    // A worker comes back to the rest when the world resumes.
    assert!(cluster.resume_world());
    assert!(!cluster.before_pass());
    assert_eq!(cluster.drive_once(AgentId(1), AgentRole::Worker), Drive::Ran(2));
}

#[test]
fn a_step_is_followed_by_what_is_most_urgent() {
    let worker = Pass::start(AgentRole::Worker, 8, 0);
    let main = Pass::start(AgentRole::Main, 8, 100);
    assert_eq!(worker.deadline, None);
    assert_eq!(main.deadline, Some(108));
    for pass in [worker, main] {
        assert_eq!(pass.after_step(true, true, 0), PassStep::ShutDown);
        assert_eq!(pass.after_step(true, false, 200), PassStep::ShutDown);
        assert_eq!(pass.after_step(false, true, 0), PassStep::Stop);
        assert_eq!(pass.after_step(false, false, 107), PassStep::GoOn);
    }
    assert_eq!(worker.after_step(false, false, 108), PassStep::GoOn);
    assert_eq!(main.after_step(false, false, 108), PassStep::Stop);
    assert_eq!(Pass::start(AgentRole::Main, 8, u64::MAX - 3).deadline, Some(u64::MAX));
}

#[test]
fn a_budget_ends_at_the_first_reading_that_reaches_it() {
    let done = Arc::new(AtomicUsize::new(0));
    let mut cluster: Plain<TickClock> = Cluster::new(1, TickClock::new());
    cluster.set_frame_ms(8);
    for _ in 0..20 {
        cluster.spawn(countdown(0, &done));
    }
    // Read at 0, then once after each step.
    assert_eq!(cluster.drive_once(AgentId(0), AgentRole::Main), Drive::Ran(8));
    assert_eq!(cluster.drive_once(AgentId(0), AgentRole::Main), Drive::Ran(8));
    assert_eq!(cluster.drive_once(AgentId(0), AgentRole::Main), Drive::Ran(4));
}

#[test]
fn a_larger_cluster_refuses_a_second_stop_too() {
    let mut cluster: Plain<StdClock> = Cluster::new(3, StdClock::new());
    assert!(cluster.request_safepoint());
    let out: Option<u32> = cluster.stop_the_world(AgentId(2), || unreachable!());
    assert!(out.is_none());
    assert!(cluster.safepoint_requested());
    assert!(cluster.resume_world());
}

#[test]
fn a_run_leaves_after_shutdown_without_a_step() {
    let done = Arc::new(AtomicUsize::new(0));
    let mut cluster: Plain<StdClock> = Cluster::new(2, StdClock::new());
    cluster.spawn_on(AgentId(0), countdown(0, &done));
    assert!(cluster.request_safepoint());
    cluster.shutdown();
    // The stop is released, so the barrier holds nobody up.
    assert!(!cluster.before_pass());
    for agent in [AgentId(0), AgentId(1)] {
        let drive = cluster.drive_once(agent, AgentRole::Worker);
        assert_eq!(drive, Drive::ShuttingDown);
        assert_eq!(cluster.after_pass(agent, drive), RunStep::Leave);
        assert_eq!(cluster.after_pass(agent, Drive::Idle), RunStep::Again);
        assert_eq!(cluster.after_pass(agent, Drive::Idle), RunStep::Leave);
        assert!(cluster.after_park(agent));
    }
    assert_eq!(done.load(Ordering::Relaxed), 0);
    assert!(cluster.has_work());
    // Not even a stop asked for later changes that.
    assert!(cluster.request_safepoint());
    assert_eq!(cluster.drive_once(AgentId(0), AgentRole::Worker), Drive::ShuttingDown);
}

#[test]
fn a_run_goes_on_until_it_has_to_wait() {
    let done = Arc::new(AtomicUsize::new(0));
    let mut cluster: Plain<StdClock> = Cluster::new(2, StdClock::new());
    for steps in 0..5 {
        cluster.spawn(countdown(steps, &done));
        cluster.spawn_on(AgentId(0), countdown(steps, &done));
    }
    // It does all the work there is, its own and what it finds elsewhere.
    assert_eq!(cluster.run(AgentId(1)), RunEnd::Park);
    assert_eq!(done.load(Ordering::Relaxed), 10);
    assert!(!cluster.has_work());
    assert_eq!(cluster.slot(AgentId(1)), PARKED);
    assert_eq!(cluster.slot(AgentId(0)), RUNNING);

    // Woken by work, it goes on.
    cluster.spawn(countdown(0, &done));
    assert_eq!(cluster.slot(AgentId(1)), NOTIFIED);
    assert!(!cluster.after_park(AgentId(1)));
    assert_eq!(cluster.run(AgentId(1)), RunEnd::Park);
    assert_eq!(done.load(Ordering::Relaxed), 11);

    // The barrier comes before work.
    cluster.spawn(countdown(0, &done));
    assert!(cluster.request_safepoint());
    assert_eq!(cluster.run(AgentId(0)), RunEnd::Barrier);
    assert_eq!(done.load(Ordering::Relaxed), 11);
    assert!(cluster.resume_world());

    // And shutting down comes before work.
    cluster.shutdown();
    for agent in [AgentId(0), AgentId(1)] {
        assert_eq!(cluster.run(agent), RunEnd::Leave);
        assert_eq!(cluster.slot(agent), NOTIFIED);
    }
    assert_eq!(done.load(Ordering::Relaxed), 11);
    assert!(cluster.has_work());
}
