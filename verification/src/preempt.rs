//! Time slicing: each fiber gets a slice of the clock per round, by which it is
//! to have yielded. Slicing is cooperative: a fiber polls its deadline.
use vstd::prelude::*;

use crate::runtime::{
    kept_apart, lemma_kept_apart, lemma_retired, retired, survives, swap_removed,
};
use crate::vocab::{stepped, Clock, Suspension, Task};

verus! {

/// A task that a deadline can be set on.
pub trait Sliced: Task + Sized {
    /// `next` is the same task with its deadline at `deadline_ms`. A task that
    /// leaves it out promises nothing of its deadline.
    open spec fn dated(&self, next: &Self, deadline_ms: u64) -> bool {
        true
    }

    /// Set an absolute deadline. Replaces any previous one.
    fn set_deadline_ms(&mut self, deadline_ms: u64)
        ensures
            old(self).dated(final(self), deadline_ms),
    ;
}

impl<T: Sliced> Sliced for Box<T> {
    open spec fn dated(&self, next: &Self, deadline_ms: u64) -> bool {
        (**self).dated(&**next, deadline_ms)
    }

    fn set_deadline_ms(&mut self, deadline_ms: u64) {
        (**self).set_deadline_ms(deadline_ms)
    }
}

/// One slice: the deadline is set, then the task steps.
pub open spec fn sliced<T: Sliced>(before: T, after: T, deadline_ms: u64, report: Suspension) -> bool {
    exists|mid: T| #[trigger]
        before.dated(&mid, deadline_ms) && stepped(&mid, &after, report)
}

/// Every task had one slice, in order, with these deadlines and these reports.
/// Each deadline is a slice away from what the clock read when the task's turn
/// came, as far as the clock can count.
pub open spec fn sliced_all<T: Sliced, C: Clock>(
    clock: &C,
    before: Seq<T>,
    after: Seq<T>,
    turns: Seq<u64>,
    slice_ms: u64,
    reports: Seq<Suspension>,
) -> bool {
    &&& after.len() == before.len()
    &&& turns.len() == before.len()
    &&& reports.len() == before.len()
    &&& forall|i: int|
        0 <= i < before.len() ==> sliced(
            #[trigger] before[i],
            after[i],
            deadline_of(turns[i], slice_ms),
            reports[i],
        )
    &&& forall|i: int| 0 <= i < turns.len() ==> clock.may_read(#[trigger] turns[i])
}

/// When a slice that begins at `now` ends, as far as the clock can count.
pub open spec fn deadline_of(now: u64, slice_ms: u64) -> u64 {
    if now + slice_ms > u64::MAX {
        u64::MAX
    } else {
        (now + slice_ms) as u64
    }
}

/// One round: every task has one slice, and those that complete are dropped.
pub open spec fn slice_round<T: Sliced, C: Clock>(
    clock: &C,
    before: Seq<T>,
    after: Seq<T>,
    slice_ms: u64,
) -> bool {
    exists|mid: Seq<T>, turns: Seq<u64>, reports: Seq<Suspension>| #[trigger]
        sliced_all(clock, before, mid, turns, slice_ms, reports) && after == retired(
            mid,
            reports,
            0,
        )
}

/// `n` rounds, one after another.
pub open spec fn slice_rounds<T: Sliced, C: Clock>(
    clock: &C,
    before: Seq<T>,
    after: Seq<T>,
    slice_ms: u64,
    n: nat,
) -> bool
    decreases n,
{
    if n == 0 {
        after == before
    } else {
        exists|mid: Seq<T>|
            slice_rounds(clock, before, mid, slice_ms, (n - 1) as nat) && #[trigger] slice_round(
                clock,
                mid,
                after,
                slice_ms,
            )
    }
}

/// However it goes, the task completes in at most `n` slices.
pub open spec fn ends_in_slices<T: Sliced>(t: T, n: nat) -> bool
    decreases n,
{
    n > 0 && forall|u: T, d: u64, s: Suspension| #[trigger]
        sliced(t, u, d, s) ==> s == Suspension::Completed || ends_in_slices(u, (n - 1) as nat)
}

/// Every task completes in at most `n` slices.
pub open spec fn all_end_in_slices<T: Sliced>(tasks: Seq<T>, n: nat) -> bool {
    forall|i: int| 0 <= i < tasks.len() ==> ends_in_slices(#[trigger] tasks[i], n)
}

/// Round-robin scheduler that bounds each turn by a slice of the clock.
pub struct TimeSliceScheduler<T: Sliced, C: Clock> {
    fibers: Vec<T>,
    slice_ms: u64,
    clock: C,
}

impl<T: Sliced, C: Clock> TimeSliceScheduler<T, C> {
    /// The live fibers, in the order of their turns.
    pub closed spec fn view(&self) -> Seq<T> {
        self.fibers@
    }

    /// How long a slice is.
    pub closed spec fn slice(&self) -> u64 {
        self.slice_ms
    }

    /// The clock that slices are measured by.
    pub closed spec fn clock(&self) -> C {
        self.clock
    }

    /// A scheduler without fibers.
    pub fn new(slice_ms: u64, clock: C) -> (s: Self)
        ensures
            s@.len() == 0,
            s.slice() == slice_ms,
            s.clock() == clock,
    {
        TimeSliceScheduler { fibers: Vec::new(), slice_ms, clock }
    }

    /// Add a fiber. The scheduler drops it when it completes.
    pub fn spawn(&mut self, fiber: T)
        ensures
            final(self)@ == old(self)@.push(fiber),
            final(self).slice() == old(self).slice(),
            final(self).clock() == old(self).clock(),
    {
        self.fibers.push(fiber);
    }

    /// Number of live fibers.
    pub fn fiber_count(&self) -> (n: usize)
        ensures
            n == self@.len(),
    {
        self.fibers.len()
    }

    /// Give every fiber one slice. Returns whether at least one is still alive.
    pub fn tick(&mut self) -> (alive: bool)
        ensures
            slice_round(&old(self).clock(), old(self)@, final(self)@, old(self).slice()),
            alive == (final(self)@.len() > 0),
            final(self).slice() == old(self).slice(),
            final(self).clock() == old(self).clock(),
    {
        let ghost before = self@;
        let ghost slice_ms = self.slice_ms;
        let ghost clock = self.clock;
        let ghost mut turns: Seq<u64> = Seq::empty();
        let mut reports: Vec<Suspension> = Vec::new();
        let mut i: usize = 0;
        while i < self.fibers.len()
            invariant
                i <= self.fibers@.len(),
                self.fibers@.len() == before.len(),
                self.slice_ms == slice_ms,
                self.clock == clock,
                reports@.len() == i,
                turns.len() == i,
                forall|k: int| 0 <= k < i ==> clock.may_read(#[trigger] turns[k]),
                forall|k: int|
                    0 <= k < i ==> sliced(
                        #[trigger] before[k],
                        self.fibers@[k],
                        deadline_of(turns[k], slice_ms),
                        reports@[k],
                    ),
                forall|k: int| i <= k < before.len() ==> self.fibers@[k] == before[k],
            decreases self.fibers@.len() - i,
        {
            let now: u64 = self.clock.now_ms();
            let deadline: u64 = now.saturating_add(self.slice_ms);
            self.fibers[i].set_deadline_ms(deadline);
            let ghost dated = self.fibers@[i as int];
            assert(before[i as int].dated(&dated, deadline));
            let report = self.fibers[i].step();
            proof {
                turns = turns.push(now);
            }
            reports.push(report);
            i = i + 1;
        }
        let ghost mid = self.fibers@;
        assert(sliced_all(&clock, before, mid, turns, slice_ms, reports@));
        // Remove the last of the completed first: earlier places stay put.
        let mut k: usize = reports.len();
        while k > 0
            invariant
                k <= reports@.len(),
                mid.len() == reports@.len(),
                self.slice_ms == slice_ms,
                self.clock == clock,
                self.fibers@ == retired(mid, reports@, k as nat),
            decreases k,
        {
            proof {
                lemma_retired(mid, reports@, k as nat);
            }
            k = k - 1;
            if reports[k] == Suspension::Completed {
                self.fibers.swap_remove(k);
                assert(self.fibers@ =~= swap_removed(
                    retired(mid, reports@, (k + 1) as nat),
                    k as int,
                ));
            }
        }
        self.fibers.len() > 0
    }

    /// Give slices, round by round, until no live fiber remains.
    pub fn run_to_completion(&mut self)
        requires
            exists|n: nat| all_end_in_slices(old(self)@, n),
        ensures
            final(self)@.len() == 0,
            exists|k: nat| #[trigger]
                slice_rounds(
                    &old(self).clock(),
                    old(self)@,
                    final(self)@,
                    old(self).slice(),
                    k,
                ),
            final(self).slice() == old(self).slice(),
            final(self).clock() == old(self).clock(),
    {
        let ghost origin = self@;
        let ghost mut k: nat = 0;
        let ghost mut n: nat = choose|n: nat| all_end_in_slices(self@, n);
        let ghost slice_ms = self.slice_ms;
        let ghost clock = self.clock;
        loop
            invariant_except_break
                all_end_in_slices(self@, n),
            invariant
                self.slice_ms == slice_ms,
                self.clock == clock,
                slice_rounds(&clock, origin, self@, slice_ms, k),
            ensures
                self@.len() == 0,
            decreases n,
        {
            let ghost before = self@;
            let alive = self.tick();
            proof {
                law_a_round_uses_one_slice(&clock, before, self@, slice_ms, n);
                assert(slice_round(&clock, before, self@, slice_ms));
                k = k + 1;
            }
            if !alive {
                break;
            }
            proof {
                n = (n - 1) as nat;
            }
        }
        assert(slice_rounds(&old(self).clock(), old(self)@, self@, old(self).slice(), k));
    }
}

/// After a round every fiber that is left has a slice fewer to go.
pub proof fn law_a_round_uses_one_slice<T: Sliced, C: Clock>(
    clock: &C,
    before: Seq<T>,
    after: Seq<T>,
    slice_ms: u64,
    n: nat,
)
    requires
        slice_round(clock, before, after, slice_ms),
        all_end_in_slices(before, n),
    ensures
        after.len() <= before.len(),
        after.len() > 0 ==> n > 0,
        all_end_in_slices(after, (n - 1) as nat),
{
    let (mid, turns, reports) = choose|
        mid: Seq<T>,
        turns: Seq<u64>,
        reports: Seq<Suspension>,
    | #[trigger]
        sliced_all(clock, before, mid, turns, slice_ms, reports) && after == retired(
            mid,
            reports,
            0,
        );
    lemma_retired(mid, reports, 0);
    assert forall|i: int| 0 <= i < after.len() implies n > 0 && ends_in_slices(
        #[trigger] after[i],
        (n - 1) as nat,
    ) by {
        assert(survives(mid, reports, 0, after[i]));
        let j = choose|j: int|
            0 <= j < mid.len() && #[trigger] mid[j] == after[i] && reports[j]
                != Suspension::Completed;
        assert(ends_in_slices(before[j], n));
        assert(sliced(before[j], mid[j], deadline_of(turns[j], slice_ms), reports[j]));
    }
    if after.len() > 0 {
        assert(ends_in_slices(after[0], (n - 1) as nat));
    }
}

/// In a round of slices every fiber has exactly one turn: the clock is read when it
/// comes, the fiber's deadline is set a slice later, as far as the clock can count, and
/// then the fiber steps. It is kept as its step has left it, unless it completed, each
/// once, and nobody else is.
pub proof fn law_a_round_gives_everybody_one_slice<T: Sliced, C: Clock>(
    clock: &C,
    before: Seq<T>,
    after: Seq<T>,
    slice_ms: u64,
)
    requires
        slice_round(clock, before, after, slice_ms),
    ensures
        exists|turns: Seq<u64>, mid: Seq<T>, reports: Seq<Suspension>| #[trigger]
            each_had_a_slice(clock, before, mid, turns, slice_ms, reports) && kept_apart(
                mid,
                reports,
                after,
            ),
{
    let (mid, turns, reports) = choose|
        mid: Seq<T>,
        turns: Seq<u64>,
        reports: Seq<Suspension>,
    | #[trigger]
        sliced_all(clock, before, mid, turns, slice_ms, reports) && after == retired(
            mid,
            reports,
            0,
        );
    lemma_kept_apart(mid, reports);
    assert forall|i: int| 0 <= i < before.len() implies #[trigger] had_a_slice(
        clock,
        before[i],
        mid[i],
        turns[i],
        slice_ms,
        reports[i],
    ) by {
        assert(sliced(before[i], mid[i], deadline_of(turns[i], slice_ms), reports[i]));
        let dated = choose|x: T| #[trigger]
            before[i].dated(&x, deadline_of(turns[i], slice_ms)) && stepped(
                &x,
                &mid[i],
                reports[i],
            );
        assert(clock.may_read(turns[i]));
        assert(before[i].dated(&dated, deadline_of(turns[i], slice_ms)));
    }
    assert(each_had_a_slice(clock, before, mid, turns, slice_ms, reports));
    assert(kept_apart(mid, reports, after));
}

/// Each fiber has had one turn, from where it stood, with this report.
pub open spec fn each_had_a_slice<T: Sliced, C: Clock>(
    clock: &C,
    before: Seq<T>,
    mid: Seq<T>,
    turns: Seq<u64>,
    slice_ms: u64,
    reports: Seq<Suspension>,
) -> bool {
    &&& turns.len() == before.len()
    &&& mid.len() == before.len()
    &&& reports.len() == before.len()
    &&& forall|i: int|
        0 <= i < before.len() ==> #[trigger] had_a_slice(
            clock,
            before[i],
            mid[i],
            turns[i],
            slice_ms,
            reports[i],
        )
}

/// A fiber's turn: with the clock at `now` its deadline is set `slice_ms` later, or at
/// the clock's end if that is sooner, and then it steps.
pub open spec fn had_a_slice<T: Sliced, C: Clock>(
    clock: &C,
    before: T,
    after: T,
    now: u64,
    slice_ms: u64,
    report: Suspension,
) -> bool {
    &&& clock.may_read(now)
    &&& exists|dated: T, deadline: u64|
        {
            &&& #[trigger] before.dated(&dated, deadline)
            &&& now <= deadline
            &&& deadline == now + slice_ms || (deadline == u64::MAX && now + slice_ms > u64::MAX)
            &&& stepped(&dated, &after, report)
        }
}

/// Rounds of slices follow one another: some and then some more are as many together,
/// none changes nothing, and one is one round.
pub proof fn law_slice_rounds_add_up<T: Sliced, C: Clock>(
    clock: &C,
    a: Seq<T>,
    b: Seq<T>,
    c: Seq<T>,
    slice_ms: u64,
    n: nat,
    m: nat,
)
    ensures
        slice_rounds(clock, a, b, slice_ms, n) && slice_rounds(clock, b, c, slice_ms, m)
            ==> slice_rounds(clock, a, c, slice_ms, n + m),
        slice_rounds(clock, a, b, slice_ms, 0) <==> a == b,
        slice_rounds(clock, a, b, slice_ms, 1) <==> slice_round(clock, a, b, slice_ms),
    decreases m,
{
    if slice_rounds(clock, a, b, slice_ms, 1) {
        let mid = choose|mid: Seq<T>|
            slice_rounds(clock, a, mid, slice_ms, 0) && #[trigger] slice_round(
                clock,
                mid,
                b,
                slice_ms,
            );
    }
    if slice_round(clock, a, b, slice_ms) {
        assert(slice_rounds(clock, a, a, slice_ms, 0) && slice_round(clock, a, b, slice_ms));
    }
    if m > 0 && slice_rounds(clock, a, b, slice_ms, n) && slice_rounds(clock, b, c, slice_ms, m) {
        let mid = choose|mid: Seq<T>|
            slice_rounds(clock, b, mid, slice_ms, (m - 1) as nat) && #[trigger] slice_round(
                clock,
                mid,
                c,
                slice_ms,
            );
        law_slice_rounds_add_up(clock, a, b, mid, slice_ms, n, (m - 1) as nat);
    }
}

} // verus!
