//! A set of agents sharing one address space and one pool of work.
use vstd::prelude::*;

use crate::parallel::deque::{is_ring_size, ring_index, Deque};
use crate::parallel::injector::Injector;
use crate::parallel::laws::{
    law_a_notification_calls_one_sleeper, law_a_wake_calls_a_sleeper, law_work_ends_no_stop,
    law_work_is_found, one_sleeper_called, someone_sleeps,
};
use crate::parallel::observer::TaskObserver;
use crate::parallel::park::{NOTIFIED, PARKED, RUNNING};
use crate::parallel::parked::Parked;
use crate::parallel::safepoint::{next_state, pending, Arrival, Safepoint};
use crate::runtime::{AgentId, AgentRole, Budget, Drive};
use crate::vocab::{stepped, Clock, Suspension, Task, TaskId};

verus! {

/// Default per-deque capacity. Overflow spills to the injector rather than
/// growing.
pub const DEFAULT_DEQUE_CAPACITY: usize = 256;

/// Default budget of a main agent's pass, in milliseconds: well under a frame.
pub const DEFAULT_FRAME_MS: u64 = 8;

/// A task plus the identity a host tracks it by.
#[derive(Debug)]
pub struct Job<T> {
    pub id: TaskId,
    pub task: T,
}

/// One agent's queue and its parking slot.
struct Agent<T> {
    deque: Deque<Job<T>>,
    park_state: u32,
}

/// What is in a cluster.
#[verifier::ext_equal]
pub struct ClusterView<T> {
    /// Each agent's queue, from the top to the bottom.
    pub deques: Seq<Seq<Job<T>>>,
    /// How many jobs each agent's queue has room for.
    pub rooms: Seq<nat>,
    /// Each agent's parking slot.
    pub slots: Seq<u32>,
    /// The shared queue, the oldest first.
    pub injector: Seq<Job<T>>,
    /// Jobs waiting on something, by id.
    pub parked: Map<u64, Job<T>>,
    /// Wakes that came before their job was parked.
    pub early: Set<u64>,
    /// The stop-the-world word: odd while a stop is pending.
    pub word: u32,
    /// Agents waiting at the barrier.
    pub waiting: u32,
    pub stopping: bool,
    /// Rotates the first steal victim.
    pub rotor: u32,
    pub next_id: u64,
    pub frame_ms: u64,
}

/// The first agent from place `k` on that is parked.
pub open spec fn first_parked(slots: Seq<u32>, k: nat) -> Option<int>
    decreases slots.len() - k,
{
    if k >= slots.len() {
        None
    } else if slots[k as int] == PARKED {
        Some(k as int)
    } else {
        first_parked(slots, k + 1)
    }
}

impl<T> ClusterView<T> {
    /// There is work in some queue. Parked jobs are not runnable and do not
    /// count.
    pub open spec fn busy(self) -> bool {
        self.injector.len() > 0 || exists|i: int|
            0 <= i < self.deques.len() && (#[trigger] self.deques[i]).len() > 0
    }

    /// `job` put on agent `i`'s queue, or on the shared one if that is full.
    pub open spec fn deposited(self, i: int, job: Job<T>) -> ClusterView<T> {
        if self.deques[i].len() < self.rooms[i] {
            ClusterView { deques: self.deques.update(i, self.deques[i].push(job)), ..self }
        } else {
            ClusterView { injector: self.injector.push(job), ..self }
        }
    }

    /// The first parked agent, if any, is notified.
    pub open spec fn notified(self) -> ClusterView<T> {
        match first_parked(self.slots, 0) {
            Some(i) => ClusterView { slots: self.slots.update(i, NOTIFIED), ..self },
            None => self,
        }
    }

    /// A new job under the next id, last in the shared queue, and one agent notified.
    pub open spec fn spawned(self, task: T) -> ClusterView<T> {
        (ClusterView {
            next_id: (self.next_id + 1) as u64,
            injector: self.injector.push(Job { id: TaskId(self.next_id), task }),
            ..self
        }).notified()
    }

    /// A new job under the next id, put on agent `i`'s queue, and one agent notified.
    pub open spec fn spawned_on(self, i: int, task: T) -> ClusterView<T> {
        (ClusterView { next_id: (self.next_id + 1) as u64, ..self }).deposited(
            i,
            Job { id: TaskId(self.next_id), task },
        ).notified()
    }

    /// The first agent other than `thief` with something to steal, going round
    /// from place `k` after the rotor's.
    pub open spec fn victim(self, thief: int, k: nat) -> Option<int>
        decreases self.deques.len() - k,
    {
        let n = self.deques.len() as int;
        if k >= n {
            None
        } else {
            let v = ring_index(self.rotor as int % n, k as int, n);
            if v != thief && self.deques[v].len() > 0 {
                Some(v)
            } else {
                self.victim(thief, k + 1)
            }
        }
    }

    /// The next job for agent `i`, and whom it was stolen from: its own newest,
    /// else the oldest of the shared queue, else the oldest of another agent.
    pub open spec fn picked(self, i: int) -> Option<(Job<T>, Option<AgentId>)> {
        if self.deques[i].len() > 0 {
            Some((self.deques[i].last(), None))
        } else if self.injector.len() > 0 {
            Some((self.injector.first(), None))
        } else if self.deques.len() > 1 {
            match self.victim(i, 0) {
                Some(v) => Some((self.deques[v].first(), Some(AgentId(v as u32)))),
                None => None,
            }
        } else {
            None
        }
    }

    /// What is left once agent `i` has looked for its next job. Looking for
    /// something to steal turns the rotor, found or not.
    pub open spec fn after_pick(self, i: int) -> ClusterView<T> {
        if self.deques[i].len() > 0 {
            ClusterView { deques: self.deques.update(i, self.deques[i].drop_last()), ..self }
        } else if self.injector.len() > 0 {
            ClusterView { injector: self.injector.drop_first(), ..self }
        } else if self.deques.len() > 1 {
            let turned = ClusterView { rotor: next_state(self.rotor), ..self };
            match self.victim(i, 0) {
                Some(v) => ClusterView {
                    deques: self.deques.update(v, self.deques[v].drop_first()),
                    ..turned
                },
                None => turned,
            }
        } else {
            self
        }
    }

    /// A wake: a parked job goes to the shared queue, and one agent is notified; a
    /// wake that finds none is remembered.
    pub open spec fn woken(self, id: u64) -> ClusterView<T> {
        if self.parked.contains_key(id) {
            (ClusterView {
                parked: self.parked.remove(id),
                injector: self.injector.push(self.parked[id]),
                ..self
            }).notified()
        } else {
            ClusterView { early: self.early.insert(id), ..self }
        }
    }

    /// A job that agent `i` has stepped, put where its report says: a completed
    /// one nowhere; a pending one aside, unless its wake has come already; a
    /// yielded one back on the agent's queue, with a thief woken if that leaves a
    /// surplus.
    pub open spec fn settled(self, i: int, job: Job<T>, s: Suspension) -> ClusterView<T> {
        match s {
            Suspension::Completed => self,
            Suspension::Pending => if self.early.contains(job.id.0) {
                ClusterView { early: self.early.remove(job.id.0), ..self }.deposited(i, job)
            } else {
                ClusterView { parked: self.parked.insert(job.id.0, job), ..self }
            },
            Suspension::Yielded => {
                let queued = self.deposited(i, job);
                if queued.deques[i].len() > 1 {
                    queued.notified()
                } else {
                    queued
                }
            },
        }
    }

    /// Every agent asked to stop: a pending stop is released, and every agent
    /// notified.
    pub open spec fn shut(self) -> ClusterView<T> {
        ClusterView {
            stopping: true,
            word: if pending(self.word) {
                next_state(self.word)
            } else {
                self.word
            },
            slots: Seq::new(self.slots.len(), |i: int| NOTIFIED),
            ..self
        }
    }

    /// What worker `i` does after a pass: it goes round again, unless it is to
    /// leave, or finds neither a notification nor work.
    pub open spec fn run_step(self, i: int, drive: Drive) -> RunStep {
        match drive {
            Drive::ShuttingDown => RunStep::Leave,
            Drive::Ran(_) => RunStep::Again,
            Drive::Idle => if self.slots[i] != RUNNING {
                RunStep::Again
            } else if self.stopping {
                RunStep::Leave
            } else if self.busy() {
                RunStep::Again
            } else {
                RunStep::Park
            },
        }
    }

    /// What is left once worker `i` has decided so: an idle pass uses up a
    /// notification, and publishes the intent to sleep.
    pub open spec fn after_run_step(self, i: int, drive: Drive) -> ClusterView<T> {
        if drive == Drive::Idle {
            ClusterView {
                slots: self.slots.update(
                    i,
                    if self.run_step(i, drive) == RunStep::Park {
                        PARKED
                    } else {
                        RUNNING
                    },
                ),
                ..self
            }
        } else {
            self
        }
    }
}

/// One step of a pass of agent `i`: its next job picked, stepped and settled.
pub open spec fn one_step<T: Task>(
    before: ClusterView<T>,
    after: ClusterView<T>,
    i: int,
) -> bool {
    before.picked(i) matches Some((job, from)) && exists|next: T, s: Suspension| #[trigger]
        stepped(&job.task, &next, s) && after == before.after_pick(i).settled(
            i,
            Job { id: job.id, task: next },
            s,
        )
}

/// `n` steps of a pass of agent `i`.
pub open spec fn steps<T: Task>(
    before: ClusterView<T>,
    after: ClusterView<T>,
    i: int,
    n: nat,
) -> bool
    decreases n,
{
    if n == 0 {
        after == before
    } else {
        exists|mid: ClusterView<T>|
            steps(before, mid, i, (n - 1) as nat) && #[trigger] one_step(mid, after, i)
    }
}

/// What a pass does once a step is settled.
#[derive(Debug, Clone, Copy, PartialEq, Eq, Structural)]
pub enum PassStep {
    /// Look for the next job.
    GoOn,
    /// Hand control back.
    Stop,
    /// Hand control back for good.
    ShutDown,
}

/// Where a pass stands: who runs it, until when, and what it has done.
#[derive(Debug, Clone, Copy)]
pub struct Pass {
    pub role: AgentRole,
    /// The reading of the clock at which the budget is used up.
    pub deadline: Option<u64>,
    /// Tasks stepped so far.
    pub ran: usize,
}

/// The reading at which a main agent's pass that started at `start` has used up its
/// budget, as far as the clock can count.
pub open spec fn budget_end(start: u64, frame_ms: u64) -> u64 {
    if start + frame_ms > u64::MAX {
        u64::MAX
    } else {
        (start + frame_ms) as u64
    }
}

impl Pass {
    /// A pass that starts at clock reading `now`.
    pub fn start(role: AgentRole, frame_ms: u64, now: u64) -> (p: Self)
        ensures
            p.role == role,
            p.ran == 0,
            p.deadline == match role {
                AgentRole::Main => Some(budget_end(now, frame_ms)),
                AgentRole::Worker => None,
            },
    {
        let deadline = match role.budget(frame_ms) {
            Budget::Deadline(ms) => Some(now.saturating_add(ms)),
            Budget::Unbounded => None,
        };
        Pass { role, deadline, ran: 0 }
    }

    /// What comes after a settled step. Shutting down comes first; then a pending
    /// stop, for which a pass of either role hands control back: waiting at the
    /// barrier is not for a pass; then the budget.
    pub fn after_step(&self, stopping: bool, stop_pending: bool, now: u64) -> (s: PassStep)
        ensures
            s == if stopping {
                PassStep::ShutDown
            } else if stop_pending {
                PassStep::Stop
            } else if self.deadline matches Some(d) && now >= d {
                PassStep::Stop
            } else {
                PassStep::GoOn
            },
    {
        if stopping {
            return PassStep::ShutDown;
        }
        if stop_pending {
            return PassStep::Stop;
        }
        if let Some(deadline) = self.deadline {
            if now >= deadline {
                return PassStep::Stop;
            }
        }
        PassStep::GoOn
    }

    /// What the pass reports when it is over.
    pub fn report(&self) -> (d: Drive)
        ensures
            d == if self.ran == 0 {
                Drive::Idle
            } else {
                Drive::Ran(self.ran)
            },
    {
        if self.ran == 0 {
            Drive::Idle
        } else {
            Drive::Ran(self.ran)
        }
    }
}

/// What a worker does after a pass.
#[derive(Debug, Clone, Copy, PartialEq, Eq, Structural)]
pub enum RunStep {
    /// Return: the cluster is shutting down.
    Leave,
    /// Go round again.
    Again,
    /// Park until the slot moves.
    Park,
}

/// Why a worker's run has come to a halt.
#[derive(Debug, Clone, Copy, PartialEq, Eq, Structural)]
pub enum RunEnd {
    /// A stop is pending: the worker has to wait at the barrier.
    Barrier,
    /// It is over: the cluster is shutting down.
    Leave,
    /// There is nothing to do: the worker has to park until its slot moves.
    Park,
}

/// A set of agents sharing one address space and one pool of work.
pub struct Cluster<T: Task, C: Clock, O: TaskObserver> {
    agents: Vec<Agent<T>>,
    injector: Injector<Job<T>>,
    /// Tasks that returned `Pending`, held out of the run queues so an agent can
    /// genuinely sleep.
    parked: Parked<Job<T>>,
    safepoint: Safepoint,
    clock: C,
    stopping: bool,
    rotor: u32,
    next_id: u64,
    observer: Option<O>,
    frame_ms: u64,
}

impl<T: Task, C: Clock, O: TaskObserver> Cluster<T, C, O> {
    pub closed spec fn view(&self) -> ClusterView<T> {
        ClusterView {
            deques: Seq::new(self.agents@.len(), |i: int| self.agents@[i].deque@),
            rooms: Seq::new(self.agents@.len(), |i: int| self.agents@[i].deque.room()),
            slots: Seq::new(self.agents@.len(), |i: int| self.agents@[i].park_state),
            injector: self.injector@,
            parked: self.parked@,
            early: self.parked.early(),
            word: self.safepoint.word(),
            waiting: self.safepoint.waiting(),
            stopping: self.stopping,
            rotor: self.rotor,
            next_id: self.next_id,
            frame_ms: self.frame_ms,
        }
    }

    /// The clock that passes are timed by.
    pub closed spec fn clock(&self) -> C {
        self.clock
    }

    /// The hooks that are called round each step, if any are installed.
    pub closed spec fn observer(&self) -> Option<O> {
        self.observer
    }

    /// The same clock and the same hooks.
    pub open spec fn hosted_as(&self, other: &Self) -> bool {
        self.clock() == other.clock() && self.observer() == other.observer()
    }

    /// At least one agent, no more than can be named, each with a queue in order.
    pub closed spec fn wf(&self) -> bool {
        &&& 0 < self.agents@.len() <= u32::MAX
        &&& forall|i: int| 0 <= i < self.agents@.len() ==> (#[trigger] self.agents@[i]).deque.wf()
    }

    /// A cluster of `agent_count` agents.
    pub fn new(agent_count: u32, clock: C) -> (c: Self)
        requires
            agent_count > 0,
        ensures
            c.wf(),
            fresh(c@, agent_count as nat, DEFAULT_DEQUE_CAPACITY as nat),
            c.clock() == clock,
            c.observer() is None,
    {
        Self::with_capacity(agent_count, DEFAULT_DEQUE_CAPACITY, clock)
    }

    /// As [`Cluster::new`], with an explicit per-agent queue capacity.
    pub fn with_capacity(agent_count: u32, deque_capacity: usize, clock: C) -> (c: Self)
        requires
            agent_count > 0,
            deque_capacity <= usize::MAX / 2 + 1,
        ensures
            c.wf(),
            fresh(c@, agent_count as nat, deque_capacity as nat),
            c.clock() == clock,
            c.observer() is None,
    {
        let mut agents: Vec<Agent<T>> = Vec::new();
        let mut i: u32 = 0;
        while i < agent_count
            invariant
                i <= agent_count,
                deque_capacity <= usize::MAX / 2 + 1,
                agents@.len() == i,
                forall|k: int|
                    0 <= k < i ==> {
                        &&& (#[trigger] agents@[k]).deque.wf()
                        &&& agents@[k].deque@.len() == 0
                        &&& is_ring_size(agents@[k].deque.room(), deque_capacity as nat)
                        &&& agents@[k].park_state == RUNNING
                    },
            decreases agent_count - i,
        {
            agents.push(
                Agent { deque: Deque::with_capacity(deque_capacity), park_state: RUNNING },
            );
            i = i + 1;
        }
        Cluster {
            agents,
            injector: Injector::new(),
            parked: Parked::new(),
            safepoint: Safepoint::new(),
            clock,
            stopping: false,
            rotor: 0,
            // Start at 1: id 0 is the "no task" sentinel.
            next_id: 1,
            observer: None,
            frame_ms: DEFAULT_FRAME_MS,
        }
    }

    /// Install host hooks. Replaces any that were installed before.
    pub fn set_observer(&mut self, observer: O)
        ensures
            final(self).observer() == Some(observer),
            final(self).clock() == old(self).clock(),
            final(self)@ == old(self)@,
            old(self).wf() ==> final(self).wf(),
    {
        self.observer = Some(observer);
    }

    /// Override the budget of a main agent's pass.
    pub fn set_frame_ms(&mut self, ms: u64)
        ensures
            final(self)@ == (ClusterView { frame_ms: ms, ..old(self)@ }),
            final(self).hosted_as(old(self)),
            old(self).wf() ==> final(self).wf(),
    {
        self.frame_ms = ms;
        assert(self@ =~= (ClusterView { frame_ms: ms, ..old(self)@ }));
    }

    pub fn agent_count(&self) -> (n: usize)
        ensures
            n == self@.deques.len(),
    {
        self.agents.len()
    }

    /// An agent's parking slot.
    pub fn slot(&self, agent: AgentId) -> (s: u32)
        requires
            agent.0 < self@.slots.len(),
        ensures
            s == self@.slots[agent.0 as int],
    {
        self.agents[agent.0 as usize].park_state
    }

    /// A fresh task id. Never the "no task" sentinel, and never the same twice.
    fn mint_id(&mut self) -> (id: TaskId)
        requires
            old(self).wf(),
            old(self)@.next_id < u64::MAX,
        ensures
            id == TaskId(old(self)@.next_id),
            final(self)@ == (ClusterView {
                next_id: (old(self)@.next_id + 1) as u64,
                ..old(self)@
            }),
            final(self).wf(),
            final(self).hosted_as(old(self)),
    {
        let id = TaskId(self.next_id);
        self.next_id = self.next_id + 1;
        assert(self@ =~= (ClusterView { next_id: (old(self)@.next_id + 1) as u64, ..old(self)@ }));
        id
    }

    /// Put a job on `agent`'s queue, spilling to the shared one if it is full.
    fn deposit(&mut self, agent: AgentId, job: Job<T>)
        requires
            old(self).wf(),
            agent.0 < old(self)@.deques.len(),
        ensures
            final(self)@ == old(self)@.deposited(agent.0 as int, job),
            final(self).wf(),
            final(self).hosted_as(old(self)),
    {
        let i = agent.0 as usize;
        let ghost before = *self;
        match self.agents[i].deque.push(job) {
            Ok(()) => {},
            Err(job) => {
                self.injector.push(job);
            },
        }
        proof {
            let want = before@.deposited(i as int, job);
            assert(self@.deques =~= want.deques);
            assert(self@.rooms =~= want.rooms);
            assert(self@.slots =~= want.slots);
            assert(self@ =~= want);
        }
    }

    /// Move one agent out of [`PARKED`]: the one to wake, if any.
    fn notify_one(&mut self) -> (woken: Option<AgentId>)
        requires
            old(self).wf(),
        ensures
            final(self)@ == old(self)@.notified(),
            final(self).wf(),
            final(self).hosted_as(old(self)),
            woken == match first_parked(old(self)@.slots, 0) {
                Some(i) => Some(AgentId(i as u32)),
                None => None,
            },
    {
        let ghost before = *self;
        let mut k: usize = 0;
        while k < self.agents.len()
            invariant
                k <= self.agents@.len(),
                before == *old(self),
                *self == before,
                before.wf(),
                first_parked(before@.slots, 0) == first_parked(before@.slots, k as nat),
            decreases self.agents@.len() - k,
        {
            if self.agents[k].park_state == PARKED {
                self.agents[k].park_state = NOTIFIED;
                proof {
                    let want = before@.notified();
                    assert(self@.deques =~= want.deques);
                    assert(self@.rooms =~= want.rooms);
                    assert(self@.slots =~= want.slots);
                    assert(self@ =~= want);
                }
                return Some(AgentId(k as u32));
            }
            k = k + 1;
        }
        None
    }

    /// Submit a task. Any agent may pick it up.
    pub fn spawn(&mut self, task: T) -> (id: TaskId)
        requires
            old(self).wf(),
            old(self)@.next_id < u64::MAX,
        ensures
            id == TaskId(old(self)@.next_id),
            final(self)@ == old(self)@.spawned(task),
            final(self)@ == (ClusterView {
                next_id: (old(self)@.next_id + 1) as u64,
                injector: old(self)@.injector.push(Job { id, task }),
                ..old(self)@
            }).notified(),
            someone_sleeps(old(self)@.slots) ==> one_sleeper_called(
                old(self)@.slots,
                final(self)@.slots,
            ),
            final(self).wf(),
            final(self).hosted_as(old(self)),
    {
        let id = self.mint_id();
        let ghost minted = self@;
        self.injector.push(Job { id, task });
        assert(self@ =~= (ClusterView { injector: minted.injector.push(Job { id, task }), ..minted }));
        self.notify_one();
        proof {
            law_a_notification_calls_one_sleeper(
                ClusterView { injector: minted.injector.push(Job { id, task }), ..minted },
            );
        }
        id
    }

    /// Submit a task directly onto `agent`'s own queue.
    pub fn spawn_on(&mut self, agent: AgentId, task: T) -> (id: TaskId)
        requires
            old(self).wf(),
            old(self)@.next_id < u64::MAX,
            agent.0 < old(self)@.deques.len(),
        ensures
            id == TaskId(old(self)@.next_id),
            final(self)@ == old(self)@.spawned_on(agent.0 as int, task),
            final(self)@ == (ClusterView {
                next_id: (old(self)@.next_id + 1) as u64,
                ..old(self)@
            }).deposited(agent.0 as int, Job { id, task }).notified(),
            someone_sleeps(old(self)@.slots) ==> one_sleeper_called(
                old(self)@.slots,
                final(self)@.slots,
            ),
            final(self).wf(),
            final(self).hosted_as(old(self)),
    {
        let id = self.mint_id();
        self.deposit(agent, Job { id, task });
        proof {
            law_a_notification_calls_one_sleeper(self@);
        }
        self.notify_one();
        id
    }

    /// Is there work anywhere in the cluster?
    pub fn has_work(&self) -> (b: bool)
        ensures
            b == self@.busy(),
    {
        if !self.injector.is_empty() {
            return true;
        }
        let mut k: usize = 0;
        while k < self.agents.len()
            invariant
                k <= self.agents@.len(),
                self@.injector.len() == 0,
                forall|i: int| 0 <= i < k ==> (#[trigger] self@.deques[i]).len() == 0,
            decreases self.agents@.len() - k,
        {
            if !self.agents[k].deque.is_empty() {
                assert(self@.deques[k as int].len() > 0);
                return true;
            }
            assert(self@.deques[k as int].len() == 0);
            k = k + 1;
        }
        false
    }

    /// Find the next job for `agent`: its own queue, then the shared one, then
    /// steal. Hands back the victim when the job migrated.
    pub fn next_job(&mut self, agent: AgentId) -> (r: Option<(Job<T>, Option<AgentId>)>)
        requires
            old(self).wf(),
            agent.0 < old(self)@.deques.len(),
        ensures
            r == old(self)@.picked(agent.0 as int),
            final(self)@ == old(self)@.after_pick(agent.0 as int),
            final(self).wf(),
            final(self).hosted_as(old(self)),
    {
        let i = agent.0 as usize;
        let ghost before = *self;
        if let Some(job) = self.agents[i].deque.pop() {
            proof {
                let want = before@.after_pick(i as int);
                assert(self@.deques =~= want.deques);
                assert(self@.rooms =~= want.rooms);
                assert(self@.slots =~= want.slots);
                assert(self@ =~= want);
            }
            return Some((job, None));
        }
        proof {
            assert(before@.deques[i as int].len() == 0);
            assert(self@.deques =~= before@.deques);
            assert(self@.rooms =~= before@.rooms);
            assert(self@.slots =~= before@.slots);
            assert(self@ =~= before@);
        }
        if let Some(job) = self.injector.pop() {
            proof {
                assert(self@ =~= before@.after_pick(i as int));
            }
            return Some((job, None));
        }
        let n = self.agents.len();
        if n > 1 {
            let start = self.rotor as usize % n;
            self.rotor = self.rotor.wrapping_add(1);
            proof {
                assert(self@ =~= (ClusterView { rotor: next_state(before@.rotor), ..before@ }));
            }
            let mut k: usize = 0;
            while k < n
                invariant
                    k <= n,
                    n == self.agents@.len(),
                    n == before@.deques.len(),
                    n > 1,
                    i < n,
                    i == agent.0,
                    start == before@.rotor as int % n as int,
                    start < n,
                    before == *old(self),
                    self.wf(),
                    self.hosted_as(&before),
                    self@ == (ClusterView { rotor: next_state(before@.rotor), ..before@ }),
                    before@.deques[i as int].len() == 0,
                    before@.injector.len() == 0,
                    before@.victim(i as int, 0) == before@.victim(i as int, k as nat),
                decreases n - k,
            {
                let rest = n - start;
                let v = if k < rest {
                    start + k
                } else {
                    k - rest
                };
                assert(v == ring_index(before@.rotor as int % n as int, k as int, n as int));
                let ghost looking = *self;
                assert(looking@.deques[v as int] == looking.agents@[v as int].deque@);
                if v != i {
                    if let Some(job) = self.agents[v].deque.steal() {
                        proof {
                            let want = before@.after_pick(i as int);
                            assert(self@.deques =~= want.deques);
                            assert(self@.rooms =~= want.rooms);
                            assert(self@.slots =~= want.slots);
                            assert(self@ =~= want);
                        }
                        return Some((job, Some(AgentId(v as u32))));
                    }
                    proof {
                        assert(self@.deques =~= looking@.deques);
                        assert(self@.rooms =~= looking@.rooms);
                        assert(self@.slots =~= looking@.slots);
                        assert(self@ =~= looking@);
                    }
                }
                k = k + 1;
            }
            assert(self@ =~= before@.after_pick(i as int));
        }
        None
    }

    /// Put a job that `agent` has stepped where its report says.
    pub fn settle(&mut self, agent: AgentId, job: Job<T>, report: Suspension)
        requires
            old(self).wf(),
            agent.0 < old(self)@.deques.len(),
        ensures
            final(self)@ == old(self)@.settled(agent.0 as int, job, report),
            final(self).wf(),
            final(self).hosted_as(old(self)),
    {
        let ghost before = self@;
        match report {
            Suspension::Completed => {},
            // Waiting on something: hold it out of the run queues. `park` hands
            // the job straight back when a wake beat it here.
            Suspension::Pending => {
                let id = job.id;
                let back = self.parked.park(id, job);
                if let Some(job) = back {
                    assert(self@ =~= (ClusterView { early: before.early.remove(id.0), ..before }));
                    self.deposit(agent, job);
                } else {
                    assert(self@ =~= (ClusterView {
                        parked: before.parked.insert(id.0, job),
                        ..before
                    }));
                }
            },
            // Wants to run again: back onto this agent's queue.
            Suspension::Yielded => {
                self.deposit(agent, job);
                let i = agent.0 as usize;
                proof {
                    lemma_deposit_keeps(before, i as int, job);
                }
                assert(self@.deques.len() == self.agents@.len());
                assert(self@.deques[i as int] == self.agents@[i as int].deque@);
                // Only worth waking a thief if a surplus is left.
                if self.agents[i].deque.len() > 1 {
                    self.notify_one();
                }
            },
        }
    }

    /// Return a parked task to the run queues. `true` if a parked task was
    /// resumed; `false` if none was, in which case the wake is remembered and
    /// applied when the task parks.
    pub fn wake(&mut self, task: TaskId) -> (resumed: bool)
        requires
            old(self).wf(),
        ensures
            resumed == old(self)@.parked.contains_key(task.0),
            final(self)@ == old(self)@.woken(task.0),
            resumed && someone_sleeps(old(self)@.slots) ==> one_sleeper_called(
                old(self)@.slots,
                final(self)@.slots,
            ),
            final(self).wf(),
            final(self).hosted_as(old(self)),
    {
        let ghost before = self@;
        proof {
            law_a_wake_calls_a_sleeper(before, task.0);
        }
        match self.parked.wake(task) {
            Some(job) => {
                self.injector.push(job);
                assert(self@ =~= (ClusterView {
                    parked: before.parked.remove(task.0),
                    injector: before.injector.push(job),
                    ..before
                }));
                self.notify_one();
                true
            },
            None => {
                assert(self@ =~= (ClusterView { early: before.early.insert(task.0), ..before }));
                false
            },
        }
    }

    /// How many tasks are waiting on a [`Cluster::wake`].
    pub fn parked_count(&self) -> (n: usize)
        ensures
            n == self@.parked.len(),
    {
        self.parked.len()
    }

    /// Is a stop-the-world pending?
    pub fn safepoint_requested(&self) -> (b: bool)
        ensures
            b == pending(self@.word),
    {
        self.safepoint.requested()
    }

    /// Come to the barrier, if a stop is pending: hands back the round to wait
    /// out.
    pub fn enter_safepoint(&mut self) -> (round: Option<u32>)
        requires
            old(self).wf(),
            old(self)@.waiting < u32::MAX,
        ensures
            round == if pending(old(self)@.word) {
                Some(old(self)@.word)
            } else {
                None
            },
            final(self)@ == if round is Some {
                ClusterView { waiting: (old(self)@.waiting + 1) as u32, ..old(self)@ }
            } else {
                old(self)@
            },
            final(self).wf(),
            final(self).hosted_as(old(self)),
    {
        let ghost before = self@;
        let round = self.safepoint.enter();
        proof {
            if round is Some {
                assert(self@ =~= (ClusterView { waiting: (before.waiting + 1) as u32, ..before }));
            } else {
                assert(self@ =~= before);
            }
        }
        round
    }

    /// Is the round that an agent waits out over?
    pub fn safepoint_over(&self, round: u32) -> (b: bool)
        ensures
            b == (self@.word != round),
    {
        self.safepoint.over(round)
    }

    /// Leave the barrier.
    pub fn leave_safepoint(&mut self)
        requires
            old(self).wf(),
            old(self)@.waiting > 0,
        ensures
            final(self)@ == (ClusterView {
                waiting: (old(self)@.waiting - 1) as u32,
                ..old(self)@
            }),
            final(self).wf(),
            final(self).hosted_as(old(self)),
    {
        let ghost before = self@;
        self.safepoint.leave();
        assert(self@ =~= (ClusterView { waiting: (before.waiting - 1) as u32, ..before }));
    }

    /// Ask for a stop without waiting for it. `false` if one was already pending.
    pub fn request_safepoint(&mut self) -> (granted: bool)
        requires
            old(self).wf(),
        ensures
            granted == !pending(old(self)@.word),
            final(self)@ == if granted {
                ClusterView { word: next_state(old(self)@.word), ..old(self)@ }
            } else {
                old(self)@
            },
            final(self).wf(),
            final(self).hosted_as(old(self)),
    {
        let ghost before = self@;
        let granted = self.safepoint.request();
        proof {
            if granted {
                assert(self@ =~= (ClusterView { word: next_state(before.word), ..before }));
            } else {
                assert(self@ =~= before);
            }
        }
        granted
    }

    /// What a requester that waits for the others does next.
    pub fn await_world(&self) -> (a: Arrival)
        requires
            self.wf(),
        ensures
            a == if self@.waiting >= self@.deques.len() - 1 {
                Arrival::Complete
            } else if self@.stopping {
                Arrival::GaveUp
            } else {
                Arrival::Wait
            },
    {
        let others = (self.agents.len() - 1) as u32;
        self.safepoint.await_all(others, self.stopping)
    }

    /// Have all the other agents arrived at the barrier?
    pub fn world_is_stopped(&self) -> (b: bool)
        requires
            self.wf(),
        ensures
            b == (self@.waiting >= self@.deques.len() - 1),
    {
        self.safepoint.stopped_count() >= (self.agents.len() - 1) as u32
    }

    /// Has everyone left the barrier, so that a release is complete?
    pub fn world_is_running(&self) -> (b: bool)
        ensures
            b == (self@.waiting == 0 || self@.stopping),
    {
        self.safepoint.drained(self.stopping)
    }

    /// Release a stop taken with [`Cluster::request_safepoint`]. Does nothing
    /// when none is pending.
    pub fn resume_world(&mut self) -> (released: bool)
        requires
            old(self).wf(),
        ensures
            released == pending(old(self)@.word),
            final(self)@ == if released {
                ClusterView { word: next_state(old(self)@.word), ..old(self)@ }
            } else {
                old(self)@
            },
            final(self).wf(),
            final(self).hosted_as(old(self)),
    {
        let ghost before = self@;
        let released = self.safepoint.release();
        proof {
            if released {
                assert(self@ =~= (ClusterView { word: next_state(before.word), ..before }));
            } else {
                assert(self@ =~= before);
            }
        }
        released
    }

    /// Stop every other agent, run `f`, then let them go, where nobody has to be
    /// waited for: on a cluster of one agent, on one that is shutting down, and
    /// where another stop is in progress.
    /// `None`, and `f` is not run, if another stop is in progress or the others
    /// have not arrived.
    pub fn stop_the_world<R, F: FnOnce() -> R>(&mut self, requester: AgentId, f: F) -> (r: Option<R>)
        requires
            old(self).wf(),
            requester.0 < old(self)@.deques.len(),
            pending(old(self)@.word) || old(self)@.stopping || (old(self)@.deques.len() == 1
                && old(self)@.waiting == 0),
            call_requires(f, ()),
        ensures
            pending(old(self)@.word) ==> r is None && final(self)@ == old(self)@,
            !pending(old(self)@.word) ==> {
                &&& final(self)@ == (ClusterView {
                    word: next_state(next_state(old(self)@.word)),
                    ..old(self)@
                })
                &&& r is Some == (old(self)@.waiting >= old(self)@.deques.len() - 1)
                &&& r matches Some(x) ==> call_ensures(f, (), x)
            },
            final(self).wf(),
            final(self).hosted_as(old(self)),
    {
        let ghost before = self@;
        if !self.request_safepoint() {
            return None;
        }
        let result = match self.await_world() {
            Arrival::Complete => Some(f()),
            _ => None,
        };
        self.resume_world();
        proof {
            assert(pending(next_state(before.word)));
            assert(self@ =~= (ClusterView {
                word: next_state(next_state(before.word)),
                ..before
            }));
        }
        result
    }

    /// Ask every agent to stop at its next pass boundary: a pending stop is
    /// released, and every agent notified.
    pub fn shutdown(&mut self)
        requires
            old(self).wf(),
        ensures
            final(self)@ == old(self)@.shut(),
            final(self)@.stopping,
            forall|i: int|
                0 <= i < final(self)@.slots.len() ==> #[trigger] final(self)@.slots[i] == NOTIFIED,
            final(self).wf(),
            final(self).hosted_as(old(self)),
    {
        let ghost before = *self;
        self.stopping = true;
        let released = self.safepoint.release();
        let ghost mid = *self;
        let mut k: usize = 0;
        while k < self.agents.len()
            invariant
                k <= self.agents@.len(),
                self.agents@.len() == before.agents@.len(),
                before.wf(),
                forall|i: int|
                    0 <= i < self.agents@.len() ==> (#[trigger] self.agents@[i]).deque
                        == before.agents@[i].deque,
                forall|i: int| 0 <= i < k ==> (#[trigger] self.agents@[i]).park_state == NOTIFIED,
                self.injector == before.injector,
                self.parked == before.parked,
                self.safepoint == mid.safepoint,
                self.stopping == true,
                self.rotor == before.rotor,
                self.next_id == before.next_id,
                self.frame_ms == before.frame_ms,
                self.hosted_as(&before),
            decreases self.agents@.len() - k,
        {
            self.agents[k].park_state = NOTIFIED;
            k = k + 1;
        }
        proof {
            let want = before@.shut();
            assert(self@.deques =~= want.deques);
            assert(self@.rooms =~= want.rooms);
            assert(self@.slots =~= want.slots);
            assert(self@ =~= want);
        }
    }

    /// Is the cluster shutting down?
    pub fn is_stopping(&self) -> (b: bool)
        ensures
            b == self@.stopping,
    {
        self.stopping
    }

    /// What a worker does before a pass, and before it decides that there is no
    /// work: with a stop pending it goes to the barrier, idle or not, since the
    /// barrier counts arrivals.
    pub fn before_pass(&self) -> (enter: bool)
        ensures
            enter == pending(self@.word),
    {
        self.safepoint.requested()
    }

    /// What a worker does after a pass. With nothing left to do it publishes its
    /// intent to sleep, and looks once more before it does: a notification that
    /// came in between, or work, sends it round again.
    pub fn after_pass(&mut self, agent: AgentId, drive: Drive) -> (s: RunStep)
        requires
            old(self).wf(),
            agent.0 < old(self)@.slots.len(),
        ensures
            s == old(self)@.run_step(agent.0 as int, drive),
            final(self)@ == old(self)@.after_run_step(agent.0 as int, drive),
            final(self).wf(),
            final(self).hosted_as(old(self)),
    {
        let i = agent.0 as usize;
        let ghost before = *self;
        match drive {
            Drive::ShuttingDown => {
                return RunStep::Leave;
            },
            Drive::Ran(_) => {
                return RunStep::Again;
            },
            Drive::Idle => {},
        }
        assert(before@.slots[i as int] == before.agents@[i as int].park_state);
        if self.agents[i].park_state != RUNNING {
            // A notification arrived while running: consume it.
            self.set_slot(agent, RUNNING);
            return RunStep::Again;
        }
        self.set_slot(agent, PARKED);
        assert(self@.deques == before@.deques && self@.injector == before@.injector);
        assert(self@.busy() == before@.busy());
        // Re-check after publishing the intent.
        if self.stopping || self.has_work() {
            self.set_slot(agent, RUNNING);
            proof {
                assert(self@.slots =~= before@.slots.update(i as int, RUNNING));
            }
            if self.stopping {
                return RunStep::Leave;
            }
            return RunStep::Again;
        }
        RunStep::Park
    }

    /// A worker is back from parking: is it to leave?
    pub fn after_park(&mut self, agent: AgentId) -> (leave: bool)
        requires
            old(self).wf(),
            agent.0 < old(self)@.slots.len(),
        ensures
            leave == old(self)@.stopping,
            final(self)@ == (ClusterView {
                slots: old(self)@.slots.update(agent.0 as int, RUNNING),
                ..old(self)@
            }),
            final(self).wf(),
            final(self).hosted_as(old(self)),
    {
        self.set_slot(agent, RUNNING);
        self.stopping
    }

    fn set_slot(&mut self, agent: AgentId, state: u32)
        requires
            old(self).wf(),
            agent.0 < old(self)@.slots.len(),
        ensures
            final(self)@ == (ClusterView {
                slots: old(self)@.slots.update(agent.0 as int, state),
                ..old(self)@
            }),
            final(self).wf(),
            final(self).hosted_as(old(self)),
    {
        let i = agent.0 as usize;
        let ghost before = *self;
        self.agents[i].park_state = state;
        proof {
            let want = ClusterView { slots: before@.slots.update(i as int, state), ..before@ };
            assert(self@.deques =~= want.deques);
            assert(self@.rooms =~= want.rooms);
            assert(self@.slots =~= want.slots);
            assert(self@ =~= want);
        }
    }

    /// Run one pass on behalf of `agent`, bounded by `role`'s budget: pick a job,
    /// step it, settle it, until there is none left or the pass has to end. Never
    /// parks and never waits, in either role: with a stop pending it hands control
    /// back after one step.
    ///
    /// The observer's hooks are called round each step; they return nothing and
    /// take the observer by shared reference, so no clause here speaks of them.
    pub fn drive_once(&mut self, agent: AgentId, role: AgentRole) -> (d: Drive)
        requires
            old(self).wf(),
            agent.0 < old(self)@.deques.len(),
        ensures
            final(self).wf(),
            final(self).hosted_as(old(self)),
            driven(&old(self).clock(), old(self)@, final(self)@, agent.0 as int, role, d),
    {
        if self.stopping {
            return Drive::ShuttingDown;
        }
        let ghost before = self@;
        let ghost clock = self.clock;
        let ghost i = agent.0 as int;
        let ghost mut readings: Seq<u64> = Seq::empty();
        let start_at: u64 = match role {
            AgentRole::Main => self.clock.now_ms(),
            AgentRole::Worker => 0,
        };
        let mut pass = Pass::start(role, self.frame_ms, start_at);
        while pass.ran < usize::MAX
            invariant
                before == old(self)@,
                clock == old(self).clock(),
                self.wf(),
                self.hosted_as(old(self)),
                i == agent.0 as int,
                0 <= i < self@.deques.len(),
                before.deques.len() == self@.deques.len(),
                !before.stopping,
                self@.stopping == before.stopping,
                self@.word == before.word,
                pass.role == role,
                role == AgentRole::Main ==> {
                    &&& pass.deadline == Some(budget_end(start_at, before.frame_ms))
                    &&& readings.len() == pass.ran
                    &&& timed(&clock, start_at, readings, before.frame_ms, false)
                },
                role == AgentRole::Worker ==> pass.deadline is None,
                steps(before, self@, i, pass.ran as nat),
                pending(before.word) ==> pass.ran == 0,
            decreases usize::MAX - pass.ran,
        {
            let ghost mid = self@;
            let picked = self.next_job(agent);
            let (mut job, from) = match picked {
                Some(found) => found,
                None => {
                    let d = pass.report();
                    assert(ran_dry(&clock, before, self@, i, role, d, pass.ran as nat));
                    return d;
                },
            };
            if let Some(observer) = &self.observer {
                if let Some(from) = from {
                    observer.on_migrate(job.id, from, agent);
                }
                observer.on_step_begin(job.id, agent);
            }
            let ghost held = job;
            let report = job.task.step();
            if let Some(observer) = &self.observer {
                observer.on_step_end(job.id, agent);
            }
            let ghost next = job.task;
            pass.ran = pass.ran + 1;
            proof {
                lemma_pick_keeps(mid, i);
                lemma_settle_keeps(mid.after_pick(i), i, job, report);
            }
            self.settle(agent, job, report);
            proof {
                assert(stepped(&held.task, &next, report));
                assert(one_step(mid, self@, i));
                assert(steps(before, self@, i, pass.ran as nat));
            }
            let now: u64 = match pass.deadline {
                Some(_) => self.clock.now_ms(),
                None => 0,
            };
            proof {
                readings = readings.push(now);
            }
            match pass.after_step(self.stopping, self.safepoint.requested(), now) {
                PassStep::GoOn => {},
                PassStep::ShutDown => {
                    return Drive::ShuttingDown;
                },
                PassStep::Stop => {
                    let d = pass.report();
                    proof {
                        if !pending(before.word) {
                            assert(timed(&clock, start_at, readings, before.frame_ms, true));
                        }
                    }
                    assert(cut_short(&clock, before, self@, i, role, d, pass.ran as nat));
                    return d;
                },
            }
        }
        let d = pass.report();
        assert(cut_short(&clock, before, self@, i, role, d, pass.ran as nat));
        d
    }

    /// Run `agent` as a worker, pass by pass, until it has to wait or is to leave.
    /// The waiting is the caller's: with one owner there is nobody else to end it.
    ///
    /// Where passes are made at all, the work has to come to an end.
    pub fn run(&mut self, agent: AgentId) -> (end: RunEnd)
        requires
            old(self).wf(),
            agent.0 < old(self)@.deques.len(),
            pending(old(self)@.word) || old(self)@.stopping || exists|n: nat|
                steps_end(old(self)@, agent.0 as int, n),
        ensures
            final(self).wf(),
            final(self).hosted_as(old(self)),
            ran(&old(self).clock(), old(self)@, final(self)@, agent.0 as int, end),
            pending(old(self)@.word) ==> end == RunEnd::Barrier && final(self)@ == old(self)@,
            !pending(old(self)@.word) && old(self)@.stopping ==> end == RunEnd::Leave
                && final(self)@ == old(self)@,
            !pending(old(self)@.word) && !old(self)@.stopping ==> end == RunEnd::Park
                && !final(self)@.busy() && final(self)@.slots[agent.0 as int] == PARKED,
    {
        let ghost before = self@;
        let ghost clock = self.clock;
        let ghost i = agent.0 as int;
        let ghost mut trips_made: nat = 0;
        let ghost mut left: nat = choose|n: nat| steps_end(self@, i, n);
        loop
            invariant
                before == old(self)@,
                clock == old(self).clock(),
                self.wf(),
                self.hosted_as(old(self)),
                i == agent.0 as int,
                0 <= i < self@.deques.len(),
                self@.word == before.word,
                self@.stopping == before.stopping,
                trips(&clock, before, self@, i, trips_made),
                pending(before.word) || before.stopping ==> self@ == before,
                !pending(before.word) && !before.stopping ==> steps_end(self@, i, left),
            decreases
                left,
                if self@.slots[i] == RUNNING {
                    0int
                } else {
                    1int
                },
        {
            let ghost head = self@;
            proof {
                self.lemma_one_of_each();
            }
            if self.before_pass() {
                return RunEnd::Barrier;
            }
            let drive = self.drive_once(agent, AgentRole::Worker);
            let ghost mid = self@;
            proof {
                lemma_drive_keeps(&clock, head, mid, i, AgentRole::Worker, drive);
                self.lemma_one_of_each();
            }
            match self.after_pass(agent, drive) {
                RunStep::Leave => {
                    assert(last_trip(&clock, head, self@, i, RunEnd::Leave));
                    return RunEnd::Leave;
                },
                RunStep::Park => {
                    assert(last_trip(&clock, head, self@, i, RunEnd::Park));
                    return RunEnd::Park;
                },
                RunStep::Again => {
                    proof {
                        assert(trip(&clock, head, self@, i));
                        trips_made = trips_made + 1;
                        left = lemma_trip_uses_steps(&clock, head, mid, i, drive, left);
                    }
                },
            }
        }
    }

    /// Every agent has a queue, with its room, and a parking slot.
    pub proof fn lemma_one_of_each(&self)
        requires
            self.wf(),
        ensures
            0 < self@.deques.len() <= u32::MAX,
            self@.rooms.len() == self@.deques.len(),
            self@.slots.len() == self@.deques.len(),
    {
    }
}

/// A cluster as it is built: `n` agents, all running, and no work.
pub open spec fn fresh<T>(v: ClusterView<T>, n: nat, capacity: nat) -> bool {
    &&& v.deques.len() == n
    &&& v.rooms.len() == n
    &&& v.slots.len() == n
    &&& forall|i: int|
        0 <= i < n ==> {
            &&& (#[trigger] v.deques[i]).len() == 0
            &&& is_ring_size(v.rooms[i], capacity)
            &&& v.slots[i] == RUNNING
        }
    &&& v.injector.len() == 0
    &&& v.parked == Map::<u64, Job<T>>::empty()
    &&& v.early == Set::<u64>::empty()
    &&& v.word == 0
    &&& v.waiting == 0
    &&& !v.stopping
    &&& v.rotor == 0
    &&& v.next_id == 1
    &&& v.frame_ms == DEFAULT_FRAME_MS
}

/// What the clock read in a main agent's pass: once at the start, and once after
/// each step. None of the readings reached the end of the budget, but for the last
/// if it was `used_up`.
pub open spec fn timed<C: Clock>(
    clock: &C,
    start: u64,
    readings: Seq<u64>,
    frame_ms: u64,
    used_up: bool,
) -> bool {
    &&& clock.may_read(start)
    &&& forall|k: int|
        0 <= k < readings.len() ==> clock.may_read(#[trigger] readings[k]) && (readings[k]
            >= budget_end(start, frame_ms)) == (used_up && k == readings.len() - 1)
}

/// The budget of a pass of `n` steps: a main agent's is used up at the last step or
/// not at all, and a worker has none.
pub open spec fn in_budget<C: Clock>(
    clock: &C,
    role: AgentRole,
    frame_ms: u64,
    n: nat,
    used_up: bool,
) -> bool {
    match role {
        AgentRole::Main => exists|start: u64, readings: Seq<u64>|
            readings.len() == n && #[trigger] timed(clock, start, readings, frame_ms, used_up),
        AgentRole::Worker => !used_up,
    }
}

/// A pass of `n` steps that ended because there was no job left.
pub open spec fn ran_dry<T: Task, C: Clock>(
    clock: &C,
    before: ClusterView<T>,
    after: ClusterView<T>,
    i: int,
    role: AgentRole,
    d: Drive,
    n: nat,
) -> bool {
    &&& pending(before.word) ==> n == 0
    &&& in_budget(clock, role, before.frame_ms, n, false)
    &&& exists|mid: ClusterView<T>|
        {
            &&& #[trigger] steps(before, mid, i, n)
            &&& mid.picked(i) is None
            &&& after == mid.after_pick(i)
            &&& d == if n == 0 {
                Drive::Idle
            } else {
                Drive::Ran(n as usize)
            }
        }
}

/// A pass of `n` steps that ended before its work did: after one step with a stop
/// pending, else when a main agent's budget was used up, or the count of steps.
pub open spec fn cut_short<T: Task, C: Clock>(
    clock: &C,
    before: ClusterView<T>,
    after: ClusterView<T>,
    i: int,
    role: AgentRole,
    d: Drive,
    n: nat,
) -> bool {
    &&& n > 0
    &&& steps(before, after, i, n)
    &&& d == Drive::Ran(n as usize)
    &&& if pending(before.word) {
        n == 1
    } else {
        ||| in_budget(clock, role, before.frame_ms, n, true)
        ||| n == usize::MAX && in_budget(clock, role, before.frame_ms, n, false)
    }
}

/// What a pass may do while the cluster is not shutting down.
pub open spec fn passed<T: Task, C: Clock>(
    clock: &C,
    before: ClusterView<T>,
    after: ClusterView<T>,
    i: int,
    role: AgentRole,
    d: Drive,
) -> bool {
    ||| exists|n: nat|
        n <= usize::MAX && #[trigger] ran_dry(clock, before, after, i, role, d, n)
    ||| exists|n: nat|
        n <= usize::MAX && #[trigger] cut_short(clock, before, after, i, role, d, n)
}

/// What a pass may do: nothing, once the cluster is shutting down.
pub open spec fn driven<T: Task, C: Clock>(
    clock: &C,
    before: ClusterView<T>,
    after: ClusterView<T>,
    i: int,
    role: AgentRole,
    d: Drive,
) -> bool {
    if before.stopping {
        d == Drive::ShuttingDown && after == before
    } else {
        passed(clock, before, after, i, role, d)
    }
}

/// A trip round a worker's run: a pass, after which it goes round again.
pub open spec fn trip<T: Task, C: Clock>(
    clock: &C,
    before: ClusterView<T>,
    after: ClusterView<T>,
    i: int,
) -> bool {
    !pending(before.word) && exists|mid: ClusterView<T>, d: Drive|
        {
            &&& #[trigger] driven(clock, before, mid, i, AgentRole::Worker, d)
            &&& mid.run_step(i, d) == RunStep::Again
            &&& after == mid.after_run_step(i, d)
        }
}

/// `k` trips.
pub open spec fn trips<T: Task, C: Clock>(
    clock: &C,
    before: ClusterView<T>,
    after: ClusterView<T>,
    i: int,
    k: nat,
) -> bool
    decreases k,
{
    if k == 0 {
        after == before
    } else {
        exists|mid: ClusterView<T>|
            trips(clock, before, mid, i, (k - 1) as nat) && #[trigger] trip(clock, mid, after, i)
    }
}

/// How a worker's run comes to a halt: at the barrier before a pass, or after one
/// that leaves it nothing to do, or nothing ever.
pub open spec fn last_trip<T: Task, C: Clock>(
    clock: &C,
    before: ClusterView<T>,
    after: ClusterView<T>,
    i: int,
    end: RunEnd,
) -> bool {
    if pending(before.word) {
        end == RunEnd::Barrier && after == before
    } else {
        exists|mid: ClusterView<T>, d: Drive|
            {
                &&& #[trigger] driven(clock, before, mid, i, AgentRole::Worker, d)
                &&& match mid.run_step(i, d) {
                    RunStep::Leave => end == RunEnd::Leave,
                    RunStep::Park => end == RunEnd::Park,
                    RunStep::Again => false,
                }
                &&& after == mid.after_run_step(i, d)
            }
    }
}

/// A worker's run, until it comes to a halt.
pub open spec fn ran<T: Task, C: Clock>(
    clock: &C,
    before: ClusterView<T>,
    after: ClusterView<T>,
    i: int,
    end: RunEnd,
) -> bool {
    exists|last: ClusterView<T>, k: nat| #[trigger]
        trips(clock, before, last, i, k) && last_trip(clock, last, after, i, end)
}

/// Agent `i` cannot make `n` steps: the work comes to an end before.
pub open spec fn steps_end<T: Task>(v: ClusterView<T>, i: int, n: nat) -> bool {
    forall|after: ClusterView<T>| !#[trigger] steps(v, after, i, n)
}

/// Steps after steps are steps.
proof fn lemma_steps_join<T: Task>(
    a: ClusterView<T>,
    b: ClusterView<T>,
    c: ClusterView<T>,
    i: int,
    n: nat,
    m: nat,
)
    requires
        steps(a, b, i, n),
        steps(b, c, i, m),
    ensures
        steps(a, c, i, n + m),
    decreases m,
{
    if m > 0 {
        let mid = choose|mid: ClusterView<T>|
            steps(b, mid, i, (m - 1) as nat) && #[trigger] one_step(mid, c, i);
        lemma_steps_join(a, b, mid, i, n, (m - 1) as nat);
    }
}

/// Whoever makes some steps makes fewer on the way.
proof fn lemma_fewer_steps<T: Task>(
    v: ClusterView<T>,
    after: ClusterView<T>,
    i: int,
    n: nat,
    m: nat,
)
    requires
        steps(v, after, i, n),
        m <= n,
    ensures
        !steps_end(v, i, m),
    decreases n,
{
    if m < n {
        let mid = choose|mid: ClusterView<T>|
            steps(v, mid, i, (n - 1) as nat) && #[trigger] one_step(mid, after, i);
        lemma_fewer_steps(v, mid, i, (n - 1) as nat, m);
    }
}

/// Without work there is no step.
pub proof fn lemma_no_step<T: Task>(v: ClusterView<T>, i: int)
    requires
        0 <= i < v.deques.len(),
        !v.busy(),
    ensures
        steps_end(v, i, 1),
{
    law_work_is_found(v, i);
    assert forall|after: ClusterView<T>| !#[trigger] steps(v, after, i, 1) by {
        if steps(v, after, i, 1) {
            let mid = choose|mid: ClusterView<T>|
                steps(v, mid, i, 0) && #[trigger] one_step(mid, after, i);
        }
    }
}

/// A pass touches neither the stop word nor the shutdown flag; a worker's that made
/// no step leaves the slots alone, and nothing to do.
proof fn lemma_drive_keeps<T: Task, C: Clock>(
    clock: &C,
    v: ClusterView<T>,
    after: ClusterView<T>,
    i: int,
    role: AgentRole,
    d: Drive,
)
    requires
        0 <= i < v.deques.len(),
        driven(clock, v, after, i, role, d),
    ensures
        after.word == v.word,
        after.stopping == v.stopping,
        after.deques.len() == v.deques.len(),
        d == Drive::ShuttingDown ==> v.stopping,
        d == Drive::Idle ==> after.slots == v.slots && !after.busy(),
{
    if v.stopping {
    } else if exists|n: nat|
        n <= usize::MAX && #[trigger] ran_dry(clock, v, after, i, role, d, n) {
        let n = choose|n: nat|
            n <= usize::MAX && #[trigger] ran_dry(clock, v, after, i, role, d, n);
        let mid = choose|mid: ClusterView<T>| #[trigger]
            steps(v, mid, i, n) && mid.picked(i) is None && after == mid.after_pick(i);
        law_work_ends_no_stop(v, mid, i, n);
        lemma_pick_keeps(mid, i);
        law_work_is_found(mid, i);
    } else {
        let n = choose|n: nat|
            n <= usize::MAX && #[trigger] cut_short(clock, v, after, i, role, d, n);
        law_work_ends_no_stop(v, after, i, n);
    }
}

/// A trip uses up steps, or else a notification.
proof fn lemma_trip_uses_steps<T: Task, C: Clock>(
    clock: &C,
    v: ClusterView<T>,
    mid: ClusterView<T>,
    i: int,
    d: Drive,
    left: nat,
) -> (rest: nat)
    requires
        0 <= i < v.deques.len(),
        i < mid.slots.len(),
        !v.stopping,
        !pending(v.word),
        steps_end(v, i, left),
        driven(clock, v, mid, i, AgentRole::Worker, d),
        mid.run_step(i, d) == RunStep::Again,
    ensures
        steps_end(mid.after_run_step(i, d), i, rest),
        rest < left || rest == left && v.slots[i] != RUNNING && mid.after_run_step(i, d).slots[i]
            == RUNNING,
{
    let after = mid.after_run_step(i, d);
    lemma_drive_keeps(clock, v, mid, i, AgentRole::Worker, d);
    if exists|n: nat|
        n <= usize::MAX && #[trigger] ran_dry(clock, v, mid, i, AgentRole::Worker, d, n) {
        let n = choose|n: nat|
            n <= usize::MAX && #[trigger] ran_dry(clock, v, mid, i, AgentRole::Worker, d, n);
        let dry = choose|dry: ClusterView<T>| #[trigger]
            steps(v, dry, i, n) && dry.picked(i) is None && mid == dry.after_pick(i) && d == (if n
                == 0 {
                Drive::Idle
            } else {
                Drive::Ran(n as usize)
            });
        law_work_ends_no_stop(v, dry, i, n);
        law_work_is_found(dry, i);
        lemma_pick_keeps(dry, i);
        assert(!mid.busy());
        assert(!after.busy());
        lemma_no_step(after, i);
        if left <= n {
            lemma_fewer_steps(v, dry, i, n, left);
        }
        1
    } else {
        let n = choose|n: nat|
            n <= usize::MAX && #[trigger] cut_short(clock, v, mid, i, AgentRole::Worker, d, n);
        if left <= n {
            lemma_fewer_steps(v, mid, i, n, left);
        }
        let rest = (left - n) as nat;
        assert forall|end: ClusterView<T>| !#[trigger] steps(after, end, i, rest) by {
            if steps(after, end, i, rest) {
                lemma_steps_join(v, mid, end, i, n, rest);
            }
        }
        rest
    }
}

/// A victim is another agent with something to steal.
pub proof fn lemma_victim<T>(v: ClusterView<T>, thief: int, k: nat)
    ensures
        v.victim(thief, k) matches Some(i) ==> 0 <= i < v.deques.len() && i != thief
            && v.deques[i].len() > 0,
    decreases v.deques.len() - k,
{
    if k < v.deques.len() {
        lemma_victim(v, thief, k + 1);
    }
}

/// Looking for a job touches neither the stop word nor the shutdown flag.
pub proof fn lemma_pick_keeps<T>(v: ClusterView<T>, i: int)
    requires
        0 <= i < v.deques.len(),
    ensures
        v.after_pick(i).deques.len() == v.deques.len(),
        v.after_pick(i).rooms == v.rooms,
        v.after_pick(i).slots == v.slots,
        v.after_pick(i).word == v.word,
        v.after_pick(i).waiting == v.waiting,
        v.after_pick(i).stopping == v.stopping,
        v.after_pick(i).next_id == v.next_id,
        v.after_pick(i).parked == v.parked,
        v.after_pick(i).early == v.early,
{
    lemma_victim(v, i, 0);
}

proof fn lemma_deposit_keeps<T>(v: ClusterView<T>, i: int, job: Job<T>)
    requires
        0 <= i < v.deques.len(),
    ensures
        v.deposited(i, job).deques.len() == v.deques.len(),
{
}

/// Neither does settling one.
pub proof fn lemma_settle_keeps<T>(v: ClusterView<T>, i: int, job: Job<T>, s: Suspension)
    requires
        0 <= i < v.deques.len(),
    ensures
        v.settled(i, job, s).deques.len() == v.deques.len(),
        v.settled(i, job, s).rooms == v.rooms,
        v.settled(i, job, s).word == v.word,
        v.settled(i, job, s).waiting == v.waiting,
        v.settled(i, job, s).stopping == v.stopping,
        v.settled(i, job, s).next_id == v.next_id,
{
}

} // verus!
