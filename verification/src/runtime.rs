//! Schedulers: what drives tasks, one agent at a time, and the words that
//! schedulers over several agents share.
use vstd::prelude::*;

use crate::vocab::{stepped, Suspension, Task};

verus! {

/// A scheduler owns a collection of tasks, dispatches steps, and reports when
/// everything is done.
pub trait Scheduler: Sized {
    type Work: Task;

    /// The live tasks.
    spec fn tasks(&self) -> Seq<Self::Work>;

    /// What one round of the policy may lead to.
    spec fn ticked(&self, next: &Self) -> bool;

    /// At most `n` rounds are left, whatever the tasks do.
    spec fn ends_within(&self, n: nat) -> bool;

    /// What `n` rounds of the policy, one after another, may lead to.
    spec fn ticked_times(&self, next: &Self, n: nat) -> bool;

    /// Without a round nothing changes.
    proof fn lemma_no_round(&self)
        ensures
            self.ticked_times(self, 0),
    ;

    /// After some rounds, one round more.
    proof fn lemma_one_more_round(&self, mid: &Self, next: &Self, n: nat)
        requires
            self.ticked_times(mid, n),
            mid.ticked(next),
        ensures
            self.ticked_times(next, n + 1),
    ;

    /// A round uses up one of the rounds that are left.
    proof fn lemma_round_counts(&self, next: &Self, n: nat)
        requires
            self.ends_within(n),
            self.ticked(next),
        ensures
            next.tasks().len() > 0 ==> n > 0 && next.ends_within((n - 1) as nat),
    ;

    /// Add a task. Ownership transfers; the scheduler drops the task when it
    /// completes.
    fn spawn(&mut self, task: Self::Work)
        ensures
            final(self).tasks() == old(self).tasks().push(task),
    ;

    /// Run one round of the scheduling policy. Returns `true` if at least one
    /// task is still alive after the round.
    fn tick(&mut self) -> (alive: bool)
        ensures
            old(self).ticked(final(self)),
            alive == (final(self).tasks().len() > 0),
    ;

    /// Drive every task to completion, round by round. Returns when no live tasks
    /// remain.
    fn run_to_completion(&mut self)
        requires
            exists|n: nat| old(self).ends_within(n),
        ensures
            final(self).tasks().len() == 0,
            exists|k: nat| #[trigger] old(self).ticked_times(final(self), k),
    {
        let ghost mut n: nat = choose|n: nat| self.ends_within(n);
        let ghost mut k: nat = 0;
        proof {
            self.lemma_no_round();
        }
        loop
            invariant_except_break
                self.ends_within(n),
            invariant
                old(self).ticked_times(self, k),
            ensures
                self.tasks().len() == 0,
            decreases n,
        {
            let ghost before = *self;
            let alive = self.tick();
            proof {
                before.lemma_round_counts(self, n);
                old(self).lemma_one_more_round(&before, self, k);
                k = k + 1;
            }
            if !alive {
                break;
            }
            proof {
                n = (n - 1) as nat;
            }
        }
    }

    /// Number of live tasks held by the scheduler.
    fn task_count(&self) -> (n: usize)
        ensures
            n == self.tasks().len(),
    ;
}

/// Every task stepped once, in order, with these reports.
pub open spec fn stepped_all<T: Task>(
    before: Seq<T>,
    after: Seq<T>,
    reports: Seq<Suspension>,
) -> bool {
    &&& after.len() == before.len()
    &&& reports.len() == before.len()
    &&& forall|i: int|
        0 <= i < before.len() ==> stepped(&#[trigger] before[i], &after[i], reports[i])
}

/// The last element moved into the place of the one removed.
pub open spec fn swap_removed<T>(s: Seq<T>, i: int) -> Seq<T> {
    s.update(i, s.last()).drop_last()
}

/// The tasks left once those from place `k` on that have completed are removed,
/// the last of them first.
pub open spec fn retired<T>(tasks: Seq<T>, reports: Seq<Suspension>, k: nat) -> Seq<T>
    decreases reports.len() - k,
{
    if k >= reports.len() {
        tasks
    } else {
        let rest = retired(tasks, reports, k + 1);
        if reports[k as int] == Suspension::Completed {
            swap_removed(rest, k as int)
        } else {
            rest
        }
    }
}

/// One round: every task steps once, and those that complete are dropped.
pub open spec fn round<T: Task>(before: Seq<T>, after: Seq<T>) -> bool {
    exists|mid: Seq<T>, reports: Seq<Suspension>| #[trigger]
        stepped_all(before, mid, reports) && after == retired(mid, reports, 0)
}

/// `n` rounds, one after another.
pub open spec fn rounds<T: Task>(before: Seq<T>, after: Seq<T>, n: nat) -> bool
    decreases n,
{
    if n == 0 {
        after == before
    } else {
        exists|mid: Seq<T>|
            rounds(before, mid, (n - 1) as nat) && #[trigger] round(mid, after)
    }
}

/// However it goes, the task completes in at most `n` steps.
pub open spec fn finishes_within<T: Task>(t: T, n: nat) -> bool
    decreases n,
{
    n > 0 && forall|u: T, s: Suspension| #[trigger]
        stepped(&t, &u, s) ==> s == Suspension::Completed || finishes_within(u, (n - 1) as nat)
}

/// `x` is among the tasks from place `k` on that have not completed.
pub open spec fn survives<T>(tasks: Seq<T>, reports: Seq<Suspension>, k: nat, x: T) -> bool {
    exists|j: int|
        k <= j < tasks.len() && #[trigger] tasks[j] == x && reports[j] != Suspension::Completed
}

/// What is left after removing comes from what did not complete.
pub proof fn lemma_retired<T>(tasks: Seq<T>, reports: Seq<Suspension>, k: nat)
    requires
        tasks.len() == reports.len(),
        k <= reports.len(),
    ensures
        k <= retired(tasks, reports, k).len() <= tasks.len(),
        forall|i: int| 0 <= i < k ==> #[trigger] retired(tasks, reports, k)[i] == tasks[i],
        forall|i: int|
            k <= i < retired(tasks, reports, k).len() ==> survives(
                tasks,
                reports,
                k,
                #[trigger] retired(tasks, reports, k)[i],
            ),
    decreases reports.len() - k,
{
    if k < reports.len() {
        lemma_retired(tasks, reports, k + 1);
        let rest = retired(tasks, reports, k + 1);
        let left = retired(tasks, reports, k);
        assert forall|i: int| k <= i < left.len() implies survives(
            tasks,
            reports,
            k,
            #[trigger] left[i],
        ) by {
            if reports[k as int] == Suspension::Completed {
                let from = if i == k {
                    rest.len() - 1
                } else {
                    i
                };
                assert(left[i] == rest[from]);
                assert(survives(tasks, reports, k + 1, rest[from]));
            } else if i == k {
                assert(tasks[i] == left[i]);
            } else {
                assert(survives(tasks, reports, k + 1, rest[i]));
            }
        }
    }
}

/// How many of the reports from place `k` on are of completion.
pub open spec fn completions(reports: Seq<Suspension>, k: nat) -> nat
    decreases reports.len() - k,
{
    if k >= reports.len() {
        0
    } else {
        completions(reports, k + 1) + if reports[k as int] == Suspension::Completed {
            1nat
        } else {
            0
        }
    }
}

/// A round drops exactly as many tasks as complete in it, and every task it
/// keeps is one that stepped and did not complete.
pub proof fn law_round_drops_what_completes<T>(tasks: Seq<T>, reports: Seq<Suspension>)
    requires
        tasks.len() == reports.len(),
    ensures
        retired(tasks, reports, 0).len() + completions(reports, 0) == tasks.len(),
        forall|i: int|
            0 <= i < retired(tasks, reports, 0).len() ==> survives(
                tasks,
                reports,
                0,
                #[trigger] retired(tasks, reports, 0)[i],
            ),
{
    lemma_retired(tasks, reports, 0);
    lemma_retired_count(tasks, reports, 0);
}

proof fn lemma_retired_count<T>(tasks: Seq<T>, reports: Seq<Suspension>, k: nat)
    requires
        tasks.len() == reports.len(),
        k <= reports.len(),
    ensures
        retired(tasks, reports, k).len() + completions(reports, k) == tasks.len(),
    decreases reports.len() - k,
{
    if k < reports.len() {
        lemma_retired_count(tasks, reports, k + 1);
        lemma_retired(tasks, reports, k + 1);
    }
}

/// Every task that does not complete in a round is kept.
pub proof fn law_round_keeps_the_living<T>(tasks: Seq<T>, reports: Seq<Suspension>, j: int)
    requires
        tasks.len() == reports.len(),
        0 <= j < tasks.len(),
        reports[j] != Suspension::Completed,
    ensures
        retired(tasks, reports, 0).contains(tasks[j]),
{
    lemma_kept(tasks, reports, 0, j);
}

proof fn lemma_kept<T>(tasks: Seq<T>, reports: Seq<Suspension>, k: nat, j: int)
    requires
        tasks.len() == reports.len(),
        k <= reports.len(),
        0 <= j < tasks.len(),
        reports[j] != Suspension::Completed,
    ensures
        retired(tasks, reports, k).contains(tasks[j]),
    decreases reports.len() - k,
{
    if k < reports.len() {
        lemma_kept(tasks, reports, k + 1, j);
        lemma_retired(tasks, reports, k + 1);
        let rest = retired(tasks, reports, k + 1);
        let left = retired(tasks, reports, k);
        if reports[k as int] == Suspension::Completed {
            if j < k {
                assert(left[j] == tasks[j]);
            } else {
                lemma_kept_past(tasks, reports, k + 1, j);
                let i = choose|i: int| k + 1 <= i < rest.len() && rest[i] == tasks[j];
                if i == rest.len() - 1 {
                    assert(left[k as int] == tasks[j]);
                } else {
                    assert(left[i] == tasks[j]);
                }
            }
        }
    } else {
        assert(tasks[j] == retired(tasks, reports, k)[j]);
    }
}

/// A living task from place `k` on is kept from place `k` on.
proof fn lemma_kept_past<T>(tasks: Seq<T>, reports: Seq<Suspension>, k: nat, j: int)
    requires
        tasks.len() == reports.len(),
        k <= j < tasks.len(),
        reports[j] != Suspension::Completed,
    ensures
        exists|i: int|
            k <= i < retired(tasks, reports, k).len() && retired(tasks, reports, k)[i] == tasks[j],
    decreases reports.len() - k,
{
    lemma_retired(tasks, reports, k + 1);
    let rest = retired(tasks, reports, k + 1);
    let left = retired(tasks, reports, k);
    if reports[k as int] == Suspension::Completed {
        lemma_kept_past(tasks, reports, k + 1, j);
        let i = choose|i: int| k + 1 <= i < rest.len() && rest[i] == tasks[j];
        if i == rest.len() - 1 {
            assert(left[k as int] == tasks[j]);
        } else {
            assert(left[i] == tasks[j]);
        }
    } else if j == k {
        assert(left[j] == tasks[j]);
    } else {
        lemma_kept_past(tasks, reports, k + 1, j);
        let i = choose|i: int| k + 1 <= i < rest.len() && rest[i] == tasks[j];
        assert(left[i] == tasks[j]);
    }
}

/// In a round every task steps exactly once, and from where it stood: it is kept as its
/// step has left it, unless it completed. Nobody else is kept, and as many are gone as
/// completed.
pub proof fn law_a_round_steps_everybody_once<T: Task>(before: Seq<T>, after: Seq<T>)
    requires
        round(before, after),
    ensures
        exists|mid: Seq<T>, reports: Seq<Suspension>| #[trigger]
            each_stepped(before, mid, reports) && kept_apart(mid, reports, after),
{
    let (mid, reports) = choose|mid: Seq<T>, reports: Seq<Suspension>| #[trigger]
        stepped_all(before, mid, reports) && after == retired(mid, reports, 0);
    assert forall|i: int| 0 <= i < before.len() implies stepped(
        &before[i],
        &mid[i],
        #[trigger] reports[i],
    ) by {
        assert(stepped(&before[i], &mid[i], reports[i]));
    }
    lemma_kept_apart(mid, reports);
    assert(each_stepped(before, mid, reports) && kept_apart(mid, reports, after));
}

/// Each task has made one step, from where it stood, with this report.
pub open spec fn each_stepped<T: Task>(
    before: Seq<T>,
    mid: Seq<T>,
    reports: Seq<Suspension>,
) -> bool {
    &&& mid.len() == before.len()
    &&& reports.len() == before.len()
    &&& forall|i: int|
        0 <= i < before.len() ==> stepped(&before[i], &mid[i], #[trigger] reports[i])
}

/// `after` is made of the tasks that did not complete, each taken once: some order of
/// their places gives it.
pub open spec fn kept_apart<T>(tasks: Seq<T>, reports: Seq<Suspension>, after: Seq<T>) -> bool {
    exists|places: Seq<int>|
        {
            &&& places.len() == after.len()
            &&& #[trigger] places.no_duplicates()
            &&& forall|j: int|
                0 <= j < places.len() ==> 0 <= #[trigger] places[j] < tasks.len()
                    && reports[places[j]] != Suspension::Completed && after[j] == tasks[places[j]]
            &&& forall|i: int|
                0 <= i < tasks.len() && #[trigger] reports[i] != Suspension::Completed
                    ==> places.contains(i)
        }
}

/// Where the tasks that are left come from.
spec fn places_left(n: nat, reports: Seq<Suspension>, k: nat) -> Seq<int>
    decreases reports.len() - k,
{
    retired(Seq::new(n, |i: int| i), reports, k)
}

proof fn lemma_places<T>(tasks: Seq<T>, reports: Seq<Suspension>, k: nat)
    requires
        tasks.len() == reports.len(),
        k <= reports.len(),
    ensures
        ({
            let places = places_left(tasks.len(), reports, k);
            let left = retired(tasks, reports, k);
            &&& places.len() == left.len()
            &&& forall|j: int|
                0 <= j < places.len() ==> 0 <= #[trigger] places[j] < tasks.len() && left[j]
                    == tasks[places[j]]
            &&& places.no_duplicates()
        }),
    decreases reports.len() - k,
{
    let ids = Seq::new(tasks.len(), |i: int| i);
    if k < reports.len() {
        lemma_places(tasks, reports, k + 1);
        lemma_retired(tasks, reports, k + 1);
        lemma_retired(ids, reports, k + 1);
        let rest = places_left(tasks.len(), reports, k + 1);
        let places = places_left(tasks.len(), reports, k);
        if reports[k as int] == Suspension::Completed {
            assert(places == swap_removed(rest, k as int));
            assert forall|a: int, b: int|
                0 <= a < places.len() && 0 <= b < places.len() && a != b implies places[a]
                != places[b] by {
                let x = if a == k {
                    rest.len() - 1
                } else {
                    a
                };
                let y = if b == k {
                    rest.len() - 1
                } else {
                    b
                };
                assert(places[a] == rest[x] && places[b] == rest[y]);
            }
        }
    }
}

pub proof fn lemma_kept_apart<T>(tasks: Seq<T>, reports: Seq<Suspension>)
    requires
        tasks.len() == reports.len(),
    ensures
        kept_apart(tasks, reports, retired(tasks, reports, 0)),
{
    let ids = Seq::new(tasks.len(), |i: int| i);
    let places = places_left(tasks.len(), reports, 0);
    lemma_places(tasks, reports, 0);
    lemma_retired(ids, reports, 0);
    assert forall|j: int| 0 <= j < places.len() implies 0 <= #[trigger] places[j] < tasks.len()
        && reports[places[j]] != Suspension::Completed by {
        assert(survives(ids, reports, 0, retired(ids, reports, 0)[j]));
        let i = choose|i: int|
            0 <= i < ids.len() && #[trigger] ids[i] == places[j] && reports[i]
                != Suspension::Completed;
        assert(ids[i] == i);
    }
    assert forall|i: int|
        0 <= i < tasks.len() && #[trigger] reports[i] != Suspension::Completed implies places.contains(
        i,
    ) by {
        law_round_keeps_the_living(ids, reports, i);
        assert(ids[i] == i);
    }
    assert(places.no_duplicates());
}

/// A round in which nobody completes keeps everybody in place; where one completes,
/// the last takes its place, and the others keep theirs.
pub proof fn law_a_round_moves_only_the_last<T>(tasks: Seq<T>, reports: Seq<Suspension>, i: int)
    requires
        tasks.len() == reports.len(),
    ensures
        (forall|j: int| 0 <= j < reports.len() ==> #[trigger] reports[j] != Suspension::Completed)
            ==> retired(tasks, reports, 0) == tasks,
        0 <= i < reports.len() && reports[i] == Suspension::Completed && (forall|j: int|
            0 <= j < reports.len() && j != i ==> #[trigger] reports[j] != Suspension::Completed)
            ==> {
            let left = retired(tasks, reports, 0);
            &&& left.len() == tasks.len() - 1
            &&& forall|j: int| 0 <= j < left.len() && j != i ==> #[trigger] left[j] == tasks[j]
            &&& i < left.len() ==> left[i] == tasks.last()
        },
{
    lemma_moves_only_the_last(tasks, reports, i, 0);
}

proof fn lemma_moves_only_the_last<T>(
    tasks: Seq<T>,
    reports: Seq<Suspension>,
    i: int,
    k: nat,
)
    requires
        tasks.len() == reports.len(),
        k <= reports.len(),
    ensures
        (forall|j: int| k <= j < reports.len() ==> #[trigger] reports[j] != Suspension::Completed)
            ==> retired(tasks, reports, k) == tasks,
        k <= i < reports.len() && reports[i] == Suspension::Completed && (forall|j: int|
            k <= j < reports.len() && j != i ==> #[trigger] reports[j] != Suspension::Completed)
            ==> retired(tasks, reports, k) == swap_removed(tasks, i),
    decreases reports.len() - k,
{
    if k < reports.len() {
        lemma_moves_only_the_last(tasks, reports, i, k + 1);
    }
}

/// Rounds follow one another: some and then some more are as many together, none
/// changes nothing, and one is one round.
pub proof fn law_rounds_add_up<T: Task>(a: Seq<T>, b: Seq<T>, c: Seq<T>, n: nat, m: nat)
    ensures
        rounds(a, b, n) && rounds(b, c, m) ==> rounds(a, c, n + m),
        rounds(a, b, 0) <==> a == b,
        rounds(a, b, 1) <==> round(a, b),
    decreases m,
{
    if rounds(a, b, 1) {
        let mid = choose|mid: Seq<T>| rounds(a, mid, 0) && #[trigger] round(mid, b);
    }
    if round(a, b) {
        assert(rounds(a, a, 0) && round(a, b));
    }
    if m > 0 && rounds(a, b, n) && rounds(b, c, m) {
        let mid = choose|mid: Seq<T>|
            rounds(b, mid, (m - 1) as nat) && #[trigger] round(mid, c);
        law_rounds_add_up(a, b, mid, n, (m - 1) as nat);
    }
}

/// Round-robin scheduler: each tick steps every task once; completed tasks are
/// removed in the same pass.
pub struct RoundRobin<T: Task> {
    tasks: Vec<T>,
}

impl<T: Task> RoundRobin<T> {
    /// The live tasks, in the order they are stepped.
    pub closed spec fn view(&self) -> Seq<T> {
        self.tasks@
    }

    /// A scheduler without tasks.
    pub fn new() -> (s: Self)
        ensures
            s@.len() == 0,
    {
        RoundRobin { tasks: Vec::new() }
    }

    /// A scheduler without tasks, with room for `cap` of them.
    pub fn with_capacity(cap: usize) -> (s: Self)
        ensures
            s@.len() == 0,
    {
        RoundRobin { tasks: Vec::with_capacity(cap) }
    }
}

impl<T: Task> Default for RoundRobin<T> {
    fn default() -> (s: Self)
        ensures
            s@.len() == 0,
    {
        Self::new()
    }
}

impl<T: Task> Scheduler for RoundRobin<T> {
    type Work = T;

    open spec fn tasks(&self) -> Seq<T> {
        self@
    }

    open spec fn ticked(&self, next: &Self) -> bool {
        round(self@, next@)
    }

    open spec fn ticked_times(&self, next: &Self, n: nat) -> bool {
        rounds(self@, next@, n)
    }

    proof fn lemma_no_round(&self) {
    }

    proof fn lemma_one_more_round(&self, mid: &Self, next: &Self, n: nat) {
        assert(mid.ticked(next) && self.ticked_times(mid, n));
        assert(rounds(self@, mid@, n) && round(mid@, next@));
        assert(rounds(self@, next@, n + 1));
    }

    open spec fn ends_within(&self, n: nat) -> bool {
        forall|i: int| 0 <= i < self@.len() ==> finishes_within(#[trigger] self@[i], n)
    }

    proof fn lemma_round_counts(&self, next: &Self, n: nat) {
        assert(self.ticked(next) && self.ends_within(n));
        assert(round(self@, next@));
        let (mid, reports) = choose|mid: Seq<T>, reports: Seq<Suspension>| #[trigger]
            stepped_all(self@, mid, reports) && next@ == retired(mid, reports, 0);
        lemma_retired(mid, reports, 0);
        assert forall|i: int| 0 <= i < next@.len() implies n > 0 && finishes_within(
            #[trigger] next@[i],
            (n - 1) as nat,
        ) by {
            assert(survives(mid, reports, 0, next@[i]));
            let j = choose|j: int|
                0 <= j < mid.len() && #[trigger] mid[j] == next@[i] && reports[j]
                    != Suspension::Completed;
            assert(finishes_within(self@[j], n));
            assert(stepped(&self@[j], &mid[j], reports[j]));
        }
        if next@.len() > 0 {
            assert(finishes_within(next@[0], (n - 1) as nat));
        }
    }

    fn spawn(&mut self, task: T) {
        self.tasks.push(task);
    }

    fn tick(&mut self) -> (alive: bool) {
        let ghost before = self@;
        // Step in place, and note who completed.
        let mut reports: Vec<Suspension> = Vec::new();
        let mut i: usize = 0;
        while i < self.tasks.len()
            invariant
                i <= self.tasks@.len(),
                self.tasks@.len() == before.len(),
                reports@.len() == i,
                forall|k: int|
                    0 <= k < i ==> stepped(&#[trigger] before[k], &self.tasks@[k], reports@[k]),
                forall|k: int| i <= k < before.len() ==> self.tasks@[k] == before[k],
            decreases self.tasks@.len() - i,
        {
            let report = self.tasks[i].step();
            reports.push(report);
            i = i + 1;
        }
        let ghost mid = self.tasks@;
        assert(stepped_all(before, mid, reports@));
        // Remove the last of the completed first: earlier places stay put.
        let mut k: usize = reports.len();
        while k > 0
            invariant
                k <= reports@.len(),
                mid.len() == reports@.len(),
                self.tasks@ == retired(mid, reports@, k as nat),
            decreases k,
        {
            proof {
                lemma_retired(mid, reports@, k as nat);
            }
            k = k - 1;
            if reports[k] == Suspension::Completed {
                self.tasks.swap_remove(k);
                assert(self.tasks@ =~= swap_removed(retired(mid, reports@, (k + 1) as nat), k as int));
            }
        }
        proof {
            assert(round(before, self@));
            assert(old(self).ticked(self));
        }
        self.tasks.len() > 0
    }

    fn task_count(&self) -> (n: usize) {
        self.tasks.len()
    }
}

/// Index of one execution agent inside a cluster that shares an address space:
/// an OS thread natively, a Web Worker in a browser. Agent 0 bootstrapped the
/// cluster.
#[derive(Debug, Clone, Copy, PartialEq, Eq, PartialOrd, Ord, Hash, Structural)]
pub struct AgentId(pub u32);

/// What an agent is permitted to do when it runs out of work: a property of
/// where the code runs, not a preference.
#[derive(Debug, Clone, Copy, PartialEq, Eq, Structural)]
pub enum AgentRole {
    /// Must not block: returns to a host event loop between passes.
    Main,
    /// May block: parks until another agent hands it work.
    Worker,
}

/// How long a single pass may run before yielding control back.
#[derive(Debug, Clone, Copy, PartialEq, Eq, Structural)]
pub enum Budget {
    /// Run until the agent has no work left.
    Unbounded,
    /// Stop once the clock passes this many milliseconds from the start of the
    /// pass.
    Deadline(u64),
}

impl AgentRole {
    /// The budget implied by this role: derived rather than configured, so a
    /// host cannot starve a UI thread by forgetting to pass a number.
    pub fn budget(self, frame_ms: u64) -> (b: Budget)
        ensures
            b == match self {
                AgentRole::Main => Budget::Deadline(frame_ms),
                AgentRole::Worker => Budget::Unbounded,
            },
    {
        match self {
            AgentRole::Main => Budget::Deadline(frame_ms),
            AgentRole::Worker => Budget::Unbounded,
        }
    }
}

/// Outcome of one scheduling pass.
#[derive(Debug, Clone, Copy, PartialEq, Eq, Structural)]
pub enum Drive {
    /// No work was available anywhere in the cluster.
    Idle,
    /// This many tasks were stepped.
    Ran(usize),
    /// The cluster is shutting down; stop calling in.
    ShuttingDown,
}

/// A scheduler whose tasks may move between agents sharing one address space.
///
/// The work must be `Send`: an execution agent is a thread as far as the type
/// system is concerned, so `Send` already means "may be moved to another agent".
pub trait ParallelScheduler: Sync {
    type Work: Task + Send;

    /// Submit a task to the cluster. Any agent may pick it up.
    fn spawn(&self, task: Self::Work);

    /// Run one pass on behalf of `agent`, bounded by `role`'s budget. Never
    /// parks, so this is the only entry point a main agent may use.
    fn drive_once(&self, agent: AgentId, role: AgentRole) -> Drive;

    /// Drive until shutdown, parking whenever there is no work. Worker agents
    /// only.
    fn run(&self, agent: AgentId);

    /// Ask every agent to stop at its next pass boundary.
    fn shutdown(&self);
}

} // verus!
