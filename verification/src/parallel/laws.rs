//! What holds of every cluster: no job is lost or doubled, no wake is missed.
use vstd::multiset::Multiset;
use vstd::prelude::*;
use vstd::seq_lib::group_to_multiset_ensures;
use vstd::set_lib::{lemma_int_range, set_int_range};

use crate::parallel::cluster::{
    cut_short, driven, first_parked, fresh, last_trip, lemma_pick_keeps, lemma_settle_keeps,
    in_budget, lemma_victim, one_step, ran, ran_dry, steps, timed, trip, trips, ClusterView, Job,
    RunEnd, RunStep,
};
use crate::parallel::deque::{popped, pushed, ring_index, stolen};
use crate::parallel::park::{NOTIFIED, PARKED, RUNNING};
use crate::parallel::safepoint::pending;
use crate::runtime::{AgentId, AgentRole, Drive};
use crate::vocab::{stepped, Clock, Suspension, Task, TaskId};

verus! {

/// The owner of a deque takes its own work newest first.
pub proof fn law_owner_takes_the_newest<T>(queue: Seq<T>, v: T)
    ensures
        queue.push(v).last() == v,
        queue.push(v).drop_last() == queue,
        popped(queue.push(v)) == (Some(v), queue),
        forall|room: nat|
            queue.len() < room ==> popped(#[trigger] pushed(queue, room, v)) == (Some(v), queue),
        forall|room: nat| queue.len() >= room ==> #[trigger] pushed(queue, room, v) == queue,
{
    assert(queue.push(v).drop_last() =~= queue);
}

/// A thief takes the oldest work, whatever the owner pushes meanwhile.
pub proof fn law_thief_takes_the_oldest<T>(queue: Seq<T>, v: T)
    requires
        queue.len() > 0,
    ensures
        queue.push(v).first() == queue.first(),
        queue.push(v).drop_first() == queue.drop_first().push(v),
        stolen(queue.push(v)) == (stolen(queue).0, stolen(queue).1.push(v)),
        stolen(queue).0 == Some(queue[0]),
        seq![queue[0]] + stolen(queue).1 == queue,
        stolen(seq![v]) == (Some(v), Seq::<T>::empty()),
        stolen(Seq::<T>::empty()) == (None::<T>, Seq::<T>::empty()),
        popped(Seq::<T>::empty()) == (None::<T>, Seq::<T>::empty()),
{
    assert(queue.push(v).drop_first() =~= queue.drop_first().push(v));
    assert(seq![queue[0]] + stolen(queue).1 =~= queue);
    assert(seq![v].drop_first() =~= Seq::<T>::empty());
}

/// A deque loses nothing and doubles nothing: what a pop or a steal takes and
/// what it leaves make up what there was.
pub proof fn law_deque_conserves<T>(queue: Seq<T>)
    requires
        queue.len() > 0,
    ensures
        queue.to_multiset() == queue.drop_last().to_multiset().insert(queue.last()),
        queue.to_multiset() == queue.drop_first().to_multiset().insert(queue.first()),
{
    broadcast use group_to_multiset_ensures;

    assert(queue =~= queue.drop_last().push(queue.last()));
    assert(queue.drop_first() =~= queue.remove(0));
    assert(queue.to_multiset().contains(queue[0]));
    assert(queue.remove(0).to_multiset() == queue.to_multiset().remove(queue[0]));
    assert(queue.to_multiset() =~= queue.to_multiset().remove(queue[0]).insert(queue[0]));
}

/// One thing done to a deque.
pub enum DequeStep<T> {
    /// The owner pushes a value.
    Push(T),
    /// The owner pops.
    Pop,
    /// Somebody steals.
    Steal,
}

/// What has become of the values that were pushed onto a deque.
#[verifier::ext_equal]
pub struct DequeHistory<T> {
    /// What is in the deque, from the top to the bottom.
    pub queue: Seq<T>,
    /// What pushes have put in, in order.
    pub accepted: Seq<T>,
    /// What pops and steals have handed out, in order.
    pub taken: Seq<T>,
}

impl<T> DequeHistory<T> {
    /// A deque that nothing has happened to.
    pub open spec fn start() -> DequeHistory<T> {
        DequeHistory { queue: Seq::empty(), accepted: Seq::empty(), taken: Seq::empty() }
    }

    /// One step further, as a push, a pop or a steal takes it.
    pub open spec fn then_do(self, room: nat, step: DequeStep<T>) -> DequeHistory<T> {
        match step {
            DequeStep::Push(v) => DequeHistory {
                queue: pushed(self.queue, room, v),
                accepted: if self.queue.len() < room {
                    self.accepted.push(v)
                } else {
                    self.accepted
                },
                ..self
            },
            DequeStep::Pop => self.handing_out(popped(self.queue)),
            DequeStep::Steal => self.handing_out(stolen(self.queue)),
        }
    }

    /// What was handed out, if anything, and what is left.
    pub open spec fn handing_out(self, out: (Option<T>, Seq<T>)) -> DequeHistory<T> {
        DequeHistory {
            queue: out.1,
            taken: match out.0 {
                Some(v) => self.taken.push(v),
                None => self.taken,
            },
            ..self
        }
    }
}

/// What some steps, in the order in which they took effect, have led to.
pub open spec fn history<T>(room: nat, steps: Seq<DequeStep<T>>) -> DequeHistory<T>
    decreases steps.len(),
{
    if steps.len() == 0 {
        DequeHistory::start()
    } else {
        history(room, steps.drop_last()).then_do(room, steps.last())
    }
}

proof fn lemma_history_conserves<T>(room: nat, steps: Seq<DequeStep<T>>)
    ensures
        ({
            let h = history(room, steps);
            h.accepted.to_multiset() == h.queue.to_multiset().add(h.taken.to_multiset())
        }),
    decreases steps.len(),
{
    broadcast use group_to_multiset_ensures;

    let h = history(room, steps);
    if steps.len() == 0 {
        assert(h.accepted.to_multiset() =~= h.queue.to_multiset().add(h.taken.to_multiset()));
    } else {
        lemma_history_conserves(room, steps.drop_last());
        let prev = history(room, steps.drop_last());
        if prev.queue.len() > 0 {
            law_deque_conserves(prev.queue);
        }
        assert(h.accepted.to_multiset() =~= h.queue.to_multiset().add(h.taken.to_multiset()));
    }
}

/// Over any sequence of pushes, pops and steals a deque loses nothing and repeats
/// nothing: each value that was accepted has been handed out or is still in the
/// deque, exactly as often as it was accepted. Where the accepted values are
/// distinct, no value is handed out twice, and none that was handed out is still
/// there.
pub proof fn law_a_deque_never_loses_or_repeats<T>(room: nat, steps: Seq<DequeStep<T>>)
    ensures
        ({
            let h = history(room, steps);
            &&& forall|v: T| #[trigger]
                h.accepted.to_multiset().count(v) == h.queue.to_multiset().count(v)
                    + h.taken.to_multiset().count(v)
            &&& h.accepted.len() == h.queue.len() + h.taken.len()
            &&& h.accepted.no_duplicates() ==> (h.queue + h.taken).no_duplicates()
        }),
{
    broadcast use group_to_multiset_ensures;

    let h = history(room, steps);
    lemma_history_conserves(room, steps);
    let both = h.queue + h.taken;
    vstd::seq_lib::lemma_multiset_commutative(h.queue, h.taken);
    assert(both.to_multiset() == h.accepted.to_multiset());
    assert(both.to_multiset().len() == both.len());
    assert(h.accepted.to_multiset().len() == h.accepted.len());
    if h.accepted.no_duplicates() {
        h.accepted.lemma_multiset_has_no_duplicates();
        both.lemma_multiset_has_no_duplicates_conv();
    }
}

/// Everything in some of the queues.
pub open spec fn gathered<X>(queues: Seq<Seq<X>>) -> Multiset<X>
    decreases queues.len(),
{
    if queues.len() == 0 {
        Multiset::empty()
    } else {
        gathered(queues.drop_last()).add(queues.last().to_multiset())
    }
}

/// Replacing one queue exchanges what it holds.
proof fn lemma_gathered_update<X>(queues: Seq<Seq<X>>, i: int, queue: Seq<X>)
    requires
        0 <= i < queues.len(),
    ensures
        gathered(queues.update(i, queue)).add(queues[i].to_multiset()) == gathered(queues).add(
            queue.to_multiset(),
        ),
    decreases queues.len(),
{
    let next = queues.update(i, queue);
    if i == queues.len() - 1 {
        assert(next.drop_last() =~= queues.drop_last());
        assert(gathered(next).add(queues[i].to_multiset()) =~= gathered(queues).add(
            queue.to_multiset(),
        ));
    } else {
        lemma_gathered_update(queues.drop_last(), i, queue);
        assert(next.drop_last() =~= queues.drop_last().update(i, queue));
        let a = gathered(next.drop_last());
        let b = gathered(queues.drop_last());
        let last = queues.last().to_multiset();
        assert(a.add(queues[i].to_multiset()) == b.add(queue.to_multiset()));
        assert(a.add(last).add(queues[i].to_multiset()) =~= a.add(queues[i].to_multiset()).add(
            last,
        ));
        assert(b.add(last).add(queue.to_multiset()) =~= b.add(queue.to_multiset()).add(last));
    }
}

/// The jobs that can be run: those of every agent's queue and of the shared one.
pub open spec fn runnable<T>(v: ClusterView<T>) -> Multiset<Job<T>> {
    gathered(v.deques).add(v.injector.to_multiset())
}

/// A deposited job becomes runnable, and nothing else changes: overflow spills, it
/// is not lost.
pub proof fn law_deposit_loses_nothing<T>(v: ClusterView<T>, i: int, job: Job<T>)
    requires
        0 <= i < v.deques.len(),
    ensures
        runnable(v.deposited(i, job)) == runnable(v).insert(job),
        v.deposited(i, job).parked == v.parked,
        v.deposited(i, job).early == v.early,
{
    broadcast use group_to_multiset_ensures;

    let after = v.deposited(i, job);
    if v.deques[i].len() < v.rooms[i] {
        let queue = v.deques[i].push(job);
        lemma_gathered_update(v.deques, i, queue);
        assert(queue.to_multiset() =~= v.deques[i].to_multiset().insert(job));
        let old_queue = v.deques[i].to_multiset();
        let a = gathered(after.deques);
        let b = gathered(v.deques);
        assert(a.add(old_queue) == b.add(old_queue.insert(job)));
        assert(a =~= b.insert(job)) by {
            assert forall|x: Job<T>| a.count(x) == b.insert(job).count(x) by {
                assert(a.add(old_queue).count(x) == b.add(old_queue.insert(job)).count(x));
            }
        }
        assert(runnable(after) =~= runnable(v).insert(job));
    } else {
        assert(after.injector.to_multiset() =~= v.injector.to_multiset().insert(job));
        assert(runnable(after) =~= runnable(v).insert(job));
    }
}

/// A picked job was runnable, and is the only one that is no longer: no job is
/// handed out twice.
pub proof fn law_pick_takes_one<T>(v: ClusterView<T>, i: int)
    requires
        0 <= i < v.deques.len(),
    ensures
        match v.picked(i) {
            Some((job, _)) => runnable(v) == runnable(v.after_pick(i)).insert(job),
            None => runnable(v.after_pick(i)) == runnable(v),
        },
        v.after_pick(i).parked == v.parked,
        v.after_pick(i).early == v.early,
{
    broadcast use group_to_multiset_ensures;

    lemma_victim(v, i, 0);
    let after = v.after_pick(i);
    if v.deques[i].len() > 0 {
        law_deque_conserves(v.deques[i]);
        lemma_gathered_update(v.deques, i, v.deques[i].drop_last());
        lemma_taken(v, after, i, v.deques[i].drop_last(), v.deques[i].last());
    } else if v.injector.len() > 0 {
        law_deque_conserves(v.injector);
        assert(runnable(v) =~= runnable(after).insert(v.injector.first()));
    } else if v.deques.len() > 1 {
        match v.victim(i, 0) {
            Some(w) => {
                law_deque_conserves(v.deques[w]);
                lemma_gathered_update(v.deques, w, v.deques[w].drop_first());
                lemma_taken(v, after, w, v.deques[w].drop_first(), v.deques[w].first());
            },
            None => {},
        }
    }
}

proof fn lemma_taken<T>(
    v: ClusterView<T>,
    after: ClusterView<T>,
    w: int,
    queue: Seq<Job<T>>,
    job: Job<T>,
)
    requires
        0 <= w < v.deques.len(),
        after.deques == v.deques.update(w, queue),
        after.injector == v.injector,
        v.deques[w].to_multiset() == queue.to_multiset().insert(job),
        gathered(after.deques).add(v.deques[w].to_multiset()) == gathered(v.deques).add(
            queue.to_multiset(),
        ),
    ensures
        runnable(v) == runnable(after).insert(job),
{
    let a = gathered(after.deques);
    let b = gathered(v.deques);
    let q = queue.to_multiset();
    assert(b =~= a.insert(job)) by {
        assert forall|x: Job<T>| b.count(x) == a.insert(job).count(x) by {
            assert(a.add(q.insert(job)).count(x) == b.add(q).count(x));
        }
    }
    assert(runnable(v) =~= runnable(after).insert(job));
}

proof fn lemma_gathered_empty<X>(queues: Seq<Seq<X>>)
    requires
        forall|i: int| 0 <= i < queues.len() ==> (#[trigger] queues[i]).len() == 0,
    ensures
        gathered(queues) == Multiset::<X>::empty(),
    decreases queues.len(),
{
    broadcast use group_to_multiset_ensures;

    if queues.len() > 0 {
        let front = queues.drop_last();
        assert forall|i: int| 0 <= i < front.len() implies (#[trigger] front[i]).len() == 0 by {
            assert(front[i] == queues[i]);
        }
        lemma_gathered_empty(front);
        assert(queues[queues.len() - 1].len() == 0);
        assert(queues.last() =~= Seq::empty());
        assert(queues.last().to_multiset() =~= Multiset::empty());
        assert(gathered(queues) =~= Multiset::empty());
    }
}

proof fn lemma_no_victim<T>(v: ClusterView<T>, thief: int, k: nat)
    requires
        v.victim(thief, k) is None,
    ensures
        forall|j: int|
            k <= j < v.deques.len() ==> {
                let w = #[trigger] ring_index(
                    v.rotor as int % v.deques.len() as int,
                    j,
                    v.deques.len() as int,
                );
                w == thief || v.deques[w].len() == 0
            },
    decreases v.deques.len() - k,
{
    if k < v.deques.len() {
        lemma_no_victim(v, thief, k + 1);
    }
}

/// An agent finds a job exactly when there is work anywhere in the cluster.
pub proof fn law_work_is_found<T>(v: ClusterView<T>, i: int)
    requires
        0 <= i < v.deques.len(),
    ensures
        v.picked(i) is Some <==> v.busy(),
        v.picked(i) is None ==> runnable(v) == Multiset::<Job<T>>::empty(),
{
    broadcast use group_to_multiset_ensures;

    let n = v.deques.len() as int;
    lemma_victim(v, i, 0);
    if v.deques[i].len() == 0 && v.injector.len() == 0 && v.picked(i) is None {
        assert forall|w: int| 0 <= w < n implies (#[trigger] v.deques[w]).len() == 0 by {
            if n > 1 && w != i {
                lemma_no_victim(v, i, 0);
                let start = v.rotor as int % n;
                let j = if w >= start {
                    w - start
                } else {
                    w + n - start
                };
                assert(ring_index(start, j, n) == w);
            }
        }
        lemma_gathered_empty(v.deques);
        assert(v.injector =~= Seq::empty());
        assert(runnable(v) =~= Multiset::empty());
    }
}

/// A job is stolen exactly when an agent's own queue and the shared one are
/// empty, and then the victim named is another agent.
pub proof fn law_migration_is_reported<T>(v: ClusterView<T>, i: int)
    requires
        0 <= i < v.deques.len() <= u32::MAX,
        v.picked(i) is Some,
    ensures
        (v.picked(i)->0).1 is Some <==> v.deques[i].len() == 0 && v.injector.len() == 0,
        (v.picked(i)->0).1 matches Some(from) ==> {
            &&& from.0 != i
            &&& from.0 < v.deques.len()
            &&& v.deques[from.0 as int].len() > 0
            &&& (v.picked(i)->0).0 == v.deques[from.0 as int].first()
        },
{
    lemma_victim(v, i, 0);
}

/// A wake is never lost. Whether it comes before its job is parked or after, the
/// job is runnable again, and nothing of the wake is left over.
pub proof fn law_wake_is_never_lost<T>(v: ClusterView<T>, i: int, job: Job<T>)
    requires
        0 <= i < v.deques.len(),
        !v.parked.contains_key(job.id.0),
        !v.early.contains(job.id.0),
    ensures
        ({
            let after = v.woken(job.id.0).settled(i, job, Suspension::Pending);
            &&& runnable(after) == runnable(v).insert(job)
            &&& after.parked == v.parked
            &&& after.early == v.early
        }),
        ({
            let after = v.settled(i, job, Suspension::Pending).woken(job.id.0);
            &&& runnable(after) == runnable(v).insert(job)
            &&& after.parked == v.parked
            &&& after.early == v.early
        }),
{
    let woken_first = v.woken(job.id.0);
    let claimed = ClusterView { early: woken_first.early.remove(job.id.0), ..woken_first };
    law_deposit_loses_nothing(claimed, i, job);
    assert(claimed.early =~= v.early);
    let parked_first = v.settled(i, job, Suspension::Pending);
    law_wake_loses_nothing(parked_first, job.id.0);
    assert(parked_first.parked.remove(job.id.0) =~= v.parked);
    assert(runnable(parked_first) == runnable(v));
}

/// A wake moves the job it finds to the run queues, and touches no other.
pub proof fn law_wake_loses_nothing<T>(v: ClusterView<T>, id: u64)
    ensures
        v.parked.contains_key(id) ==> {
            &&& runnable(v.woken(id)) == runnable(v).insert(v.parked[id])
            &&& v.woken(id).parked == v.parked.remove(id)
            &&& v.woken(id).early == v.early
        },
        !v.parked.contains_key(id) ==> {
            &&& runnable(v.woken(id)) == runnable(v)
            &&& v.woken(id).parked == v.parked
            &&& v.woken(id).early == v.early.insert(id)
        },
{
    broadcast use group_to_multiset_ensures;

    if v.parked.contains_key(id) {
        let job = v.parked[id];
        assert(v.injector.push(job).to_multiset() =~= v.injector.to_multiset().insert(job));
        assert(runnable(v.woken(id)) =~= runnable(v).insert(job));
    }
}

/// A parked job is not work: it can neither be picked nor does it keep an agent
/// awake.
pub proof fn law_parked_jobs_are_not_work<T>(v: ClusterView<T>, i: int, job: Job<T>)
    requires
        0 <= i < v.deques.len(),
        !v.early.contains(job.id.0),
    ensures
        v.settled(i, job, Suspension::Pending).busy() == v.busy(),
        v.settled(i, job, Suspension::Pending).picked(i) == v.picked(i),
{
    let after = v.settled(i, job, Suspension::Pending);
    assert(after.deques == v.deques && after.injector == v.injector);
    lemma_same_victim(v, after, i, 0);
}

proof fn lemma_same_victim<T>(v: ClusterView<T>, w: ClusterView<T>, thief: int, k: nat)
    requires
        v.deques == w.deques,
        v.rotor == w.rotor,
    ensures
        v.victim(thief, k) == w.victim(thief, k),
    decreases v.deques.len() - k,
{
    if k < v.deques.len() {
        lemma_same_victim(v, w, thief, k + 1);
    }
}

/// Settling a step loses no job: one that completed is gone; any other is
/// runnable or parked.
pub proof fn law_settle_loses_nothing<T>(
    v: ClusterView<T>,
    i: int,
    job: Job<T>,
    s: Suspension,
)
    requires
        0 <= i < v.deques.len(),
        !v.parked.contains_key(job.id.0),
    ensures
        ({
            let after = v.settled(i, job, s);
            match s {
                Suspension::Completed => after == v,
                Suspension::Yielded => {
                    &&& runnable(after) == runnable(v).insert(job)
                    &&& after.parked == v.parked
                },
                Suspension::Pending => {
                    ||| runnable(after) == runnable(v).insert(job) && after.parked == v.parked
                    ||| runnable(after) == runnable(v) && after.parked == v.parked.insert(
                        job.id.0,
                        job,
                    )
                },
            }
        }),
{
    match s {
        Suspension::Completed => {},
        Suspension::Yielded => {
            law_deposit_loses_nothing(v, i, job);
        },
        Suspension::Pending => {
            if v.early.contains(job.id.0) {
                let claimed = ClusterView { early: v.early.remove(job.id.0), ..v };
                law_deposit_loses_nothing(claimed, i, job);
            }
        },
    }
}

/// Every job in the cluster has an id of its own, a real one, minted before.
pub open spec fn ids_ok<T>(v: ClusterView<T>) -> bool {
    &&& v.next_id > 0
    &&& forall|job: Job<T>| #[trigger]
        runnable(v).contains(job) ==> {
            &&& 0 < job.id.0 < v.next_id
            &&& runnable(v).count(job) == 1
            &&& !v.parked.contains_key(job.id.0)
        }
    &&& forall|a: Job<T>, b: Job<T>| #[trigger]
        runnable(v).contains(a) && #[trigger] runnable(v).contains(b) && a.id == b.id ==> a == b
    &&& forall|id: u64| #[trigger]
        v.parked.contains_key(id) ==> 0 < id < v.next_id && v.parked[id].id.0 == id
}

/// A cluster as it is built has no id to tell apart.
pub proof fn law_ids_start_apart<T>(v: ClusterView<T>, n: nat, capacity: nat)
    requires
        fresh(v, n, capacity),
    ensures
        ids_ok(v),
{
    broadcast use group_to_multiset_ensures;

    lemma_gathered_empty(v.deques);
    assert(v.injector =~= Seq::empty());
    assert(runnable(v) =~= Multiset::empty());
}

/// A job with the next id, added to what is runnable, keeps ids apart.
proof fn lemma_ids_stay_apart_on_mint<T>(v: ClusterView<T>, after: ClusterView<T>, job: Job<T>)
    requires
        v.next_id < u64::MAX,
        ids_ok(v),
        job.id.0 == v.next_id,
        runnable(after) == runnable(v).insert(job),
        after.parked == v.parked,
        after.next_id == v.next_id + 1,
    ensures
        ids_ok(after),
{
    assert(!runnable(v).contains(job));
    assert(ids_ok(after)) by {
        assert forall|x: Job<T>| #[trigger] runnable(after).contains(x) implies {
            &&& 0 < x.id.0 < after.next_id
            &&& runnable(after).count(x) == 1
            &&& !after.parked.contains_key(x.id.0)
        } by {
            if x != job {
                assert(runnable(v).contains(x));
            }
        }
        assert forall|a: Job<T>, b: Job<T>| #[trigger]
            runnable(after).contains(a) && #[trigger] runnable(after).contains(b) && a.id
                == b.id implies a == b by {
            if a != job {
                assert(runnable(v).contains(a));
            }
            if b != job {
                assert(runnable(v).contains(b));
            }
        }
    }
}

/// Minting an id for a new job keeps ids apart, and never hands out the sentinel,
/// whether the job is put on the shared queue or on agent `i`'s own.
pub proof fn law_ids_stay_apart_on_spawn<T>(v: ClusterView<T>, i: int, task: T)
    requires
        0 <= i < v.deques.len(),
        v.next_id < u64::MAX,
        ids_ok(v),
    ensures
        v.next_id != 0,
        ids_ok(v.spawned(task)),
        ids_ok(v.spawned_on(i, task)),
        ids_ok(
            (ClusterView {
                next_id: (v.next_id + 1) as u64,
                injector: v.injector.push(Job { id: TaskId(v.next_id), task }),
                ..v
            }).notified(),
        ),
        ids_ok(
            (ClusterView { next_id: (v.next_id + 1) as u64, ..v }).deposited(
                i,
                Job { id: TaskId(v.next_id), task },
            ).notified(),
        ),
{
    broadcast use group_to_multiset_ensures;

    let minted = ClusterView { next_id: (v.next_id + 1) as u64, ..v };
    let job = Job { id: TaskId(v.next_id), task };
    assert(runnable(minted) == runnable(v));
    let shared = ClusterView { injector: minted.injector.push(job), ..minted };
    assert(runnable(shared) =~= runnable(v).insert(job));
    assert(runnable(shared.notified()) == runnable(shared));
    lemma_ids_stay_apart_on_mint(v, shared.notified(), job);
    law_deposit_loses_nothing(minted, i, job);
    let own = minted.deposited(i, job);
    assert(runnable(own.notified()) == runnable(own));
    lemma_ids_stay_apart_on_mint(v, own.notified(), job);
}

/// A wake keeps ids apart.
pub proof fn law_ids_stay_apart_on_a_wake<T>(v: ClusterView<T>, id: u64)
    requires
        ids_ok(v),
    ensures
        ids_ok(v.woken(id)),
{
    law_wake_loses_nothing(v, id);
    let after = v.woken(id);
    if v.parked.contains_key(id) {
        let job = v.parked[id];
        assert(!runnable(v).contains(job));
        assert forall|x: Job<T>| #[trigger] runnable(after).contains(x) implies {
            &&& 0 < x.id.0 < after.next_id
            &&& runnable(after).count(x) == 1
            &&& !after.parked.contains_key(x.id.0)
        } by {
            if x != job {
                assert(runnable(v).contains(x));
            }
        }
        assert forall|a: Job<T>, b: Job<T>| #[trigger]
            runnable(after).contains(a) && #[trigger] runnable(after).contains(b) && a.id
                == b.id implies a == b by {
            if a != job {
                assert(runnable(v).contains(a));
            }
            if b != job {
                assert(runnable(v).contains(b));
            }
        }
    }
}

/// A whole pass keeps ids apart, and neither makes a job up nor brings one back:
/// who is in the cluster after it was there before.
pub proof fn law_a_pass_keeps_ids_apart<T: Task>(
    v: ClusterView<T>,
    after: ClusterView<T>,
    i: int,
    n: nat,
)
    requires
        0 <= i < v.deques.len(),
        ids_ok(v),
        steps(v, after, i, n),
    ensures
        ids_ok(after),
        after.next_id == v.next_id,
        after.deques.len() == v.deques.len(),
        forall|id: u64| #[trigger] present(after, id) ==> present(v, id),
    decreases n,
{
    if n > 0 {
        let mid = choose|mid: ClusterView<T>|
            steps(v, mid, i, (n - 1) as nat) && #[trigger] one_step(mid, after, i);
        law_a_pass_keeps_ids_apart(v, mid, i, (n - 1) as nat);
        let (taken, from) = mid.picked(i)->0;
        let (next, s) = choose|next: T, s: Suspension| #[trigger]
            stepped(&taken.task, &next, s) && after == mid.after_pick(i).settled(
                i,
                Job { id: taken.id, task: next },
                s,
            );
        law_ids_stay_apart_on_a_step(mid, i, next, s);
        law_pick_takes_one(mid, i);
        let held = mid.after_pick(i);
        let job = Job { id: taken.id, task: next };
        lemma_pick_keeps(mid, i);
        lemma_settle_keeps(held, i, job, s);
        assert(runnable(mid).contains(taken));
        assert(!held.parked.contains_key(job.id.0));
        law_settle_loses_nothing(held, i, job, s);
        assert forall|id: u64| #[trigger] present(after, id) implies present(v, id) by {
            assert(present(mid, id)) by {
                if after.parked.contains_key(id) {
                    if !held.parked.contains_key(id) {
                        assert(id == taken.id.0);
                    }
                } else {
                    let x = choose|x: Job<T>| #[trigger]
                        runnable(after).contains(x) && x.id.0 == id;
                    if x == job {
                        assert(runnable(mid).contains(taken));
                    } else {
                        assert(runnable(held).contains(x));
                        assert(runnable(mid).contains(x));
                    }
                }
            }
        }
    }
}

proof fn lemma_first_parked(slots: Seq<u32>, k: nat)
    ensures
        first_parked(slots, k) matches Some(i) ==> k <= i < slots.len() && slots[i] == PARKED,
    decreases slots.len() - k,
{
    if k < slots.len() {
        lemma_first_parked(slots, k + 1);
    }
}

/// Work that comes while an agent sleeps wakes one: where an agent is parked, a
/// notification moves exactly one parked agent on, and touches nothing else.
pub proof fn law_work_wakes_a_sleeper<T>(v: ClusterView<T>, asleep: int)
    requires
        0 <= asleep < v.slots.len(),
        v.slots[asleep] == PARKED,
    ensures
        ({
            let after = v.notified();
            exists|k: int|
                {
                    &&& 0 <= k <= asleep
                    &&& #[trigger] v.slots[k] == PARKED
                    &&& after == (ClusterView { slots: v.slots.update(k, NOTIFIED), ..v })
                }
        }),
{
    lemma_first_parked(v.slots, 0);
    lemma_first_parked_found(v.slots, 0, asleep);
    let k = first_parked(v.slots, 0)->0;
    assert(v.slots[k] == PARKED);
}

proof fn lemma_first_parked_found(slots: Seq<u32>, k: nat, asleep: int)
    requires
        k <= asleep < slots.len(),
        slots[asleep] == PARKED,
    ensures
        first_parked(slots, k) is Some,
        first_parked(slots, k)->0 <= asleep,
    decreases slots.len() - k,
{
    if slots[k as int] != PARKED {
        lemma_first_parked_found(slots, k + 1, asleep);
    }
}

proof fn lemma_settle_never_parks<T>(v: ClusterView<T>, i: int, job: Job<T>, s: Suspension, k: int)
    requires
        0 <= k < v.slots.len(),
    ensures
        v.settled(i, job, s).slots.len() == v.slots.len(),
        v.settled(i, job, s).slots[k] == PARKED ==> v.slots[k] == PARKED,
{
    lemma_first_parked(v.slots, 0);
}

proof fn lemma_steps_never_park<T: Task>(
    v: ClusterView<T>,
    after: ClusterView<T>,
    i: int,
    n: nat,
    k: int,
)
    requires
        0 <= i < v.deques.len(),
        0 <= k < v.slots.len(),
        steps(v, after, i, n),
    ensures
        after.deques.len() == v.deques.len(),
        after.slots.len() == v.slots.len(),
        after.slots[k] == PARKED ==> v.slots[k] == PARKED,
    decreases n,
{
    if n > 0 {
        let mid = choose|mid: ClusterView<T>|
            steps(v, mid, i, (n - 1) as nat) && #[trigger] one_step(mid, after, i);
        lemma_steps_never_park(v, mid, i, (n - 1) as nat, k);
        let (taken, from) = mid.picked(i)->0;
        let (next, s) = choose|next: T, s: Suspension| #[trigger]
            stepped(&taken.task, &next, s) && after == mid.after_pick(i).settled(
                i,
                Job { id: taken.id, task: next },
                s,
            );
        let job = Job { id: taken.id, task: next };
        lemma_pick_keeps(mid, i);
        lemma_settle_keeps(mid.after_pick(i), i, job, s);
        lemma_settle_never_parks(mid.after_pick(i), i, job, s, k);
    }
}

/// A pass never parks, whoever runs it, whenever it is asked for and however it
/// ends: no agent is parked after it that was not before, and nobody has come to
/// the barrier. It is all that an agent which must not block may use.
pub proof fn law_a_pass_never_parks<T: Task, C: Clock>(
    clock: &C,
    v: ClusterView<T>,
    after: ClusterView<T>,
    i: int,
    role: AgentRole,
    d: Drive,
    k: int,
)
    requires
        0 <= i < v.deques.len(),
        0 <= k < v.slots.len(),
        driven(clock, v, after, i, role, d),
    ensures
        after.slots.len() == v.slots.len(),
        after.slots[k] == PARKED ==> v.slots[k] == PARKED,
        after.waiting == v.waiting,
{
    if v.stopping {
    } else if exists|n: nat|
        n <= usize::MAX && #[trigger] ran_dry(clock, v, after, i, role, d, n) {
        let n = choose|n: nat|
            n <= usize::MAX && #[trigger] ran_dry(clock, v, after, i, role, d, n);
        let mid = choose|mid: ClusterView<T>| #[trigger]
            steps(v, mid, i, n) && mid.picked(i) is None && after == mid.after_pick(i);
        lemma_steps_never_park(v, mid, i, n, k);
        law_work_ends_no_stop(v, mid, i, n);
        lemma_pick_keeps(mid, i);
    } else {
        let n = choose|n: nat|
            n <= usize::MAX && #[trigger] cut_short(clock, v, after, i, role, d, n);
        lemma_steps_never_park(v, after, i, n, k);
        law_work_ends_no_stop(v, after, i, n);
    }
}

/// A shutdown is for good: it leaves no stop pending and everything queued where it
/// was, and nothing that happens later takes it back.
pub proof fn law_shutdown_is_for_good<T>(
    v: ClusterView<T>,
    i: int,
    job: Job<T>,
    s: Suspension,
    id: u64,
    d: Drive,
)
    requires
        0 <= i < v.deques.len(),
    ensures
        v.shut().stopping,
        !pending(v.shut().word),
        v.shut().deques == v.deques,
        v.shut().injector == v.injector,
        v.shut().parked == v.parked,
        v.stopping ==> {
            &&& v.deposited(i, job).stopping
            &&& v.notified().stopping
            &&& v.woken(id).stopping
            &&& v.after_pick(i).stopping
            &&& v.settled(i, job, s).stopping
            &&& v.after_run_step(i, d).stopping
        },
{
    lemma_pick_keeps(v, i);
    lemma_settle_keeps(v, i, job, s);
}

/// Once a cluster is shutting down, every pass of either role says so, and steps
/// nothing: what is queued stays queued.
pub proof fn law_no_pass_steps_after_shutdown<T: Task, C: Clock>(
    clock: &C,
    v: ClusterView<T>,
    after: ClusterView<T>,
    i: int,
    role: AgentRole,
    d: Drive,
)
    requires
        v.stopping,
        driven(clock, v, after, i, role, d),
    ensures
        d == Drive::ShuttingDown,
        after == v,
{
}

proof fn lemma_no_trip_after_shutdown<T: Task, C: Clock>(
    clock: &C,
    v: ClusterView<T>,
    after: ClusterView<T>,
    i: int,
    k: nat,
)
    requires
        v.stopping,
        trips(clock, v, after, i, k),
    ensures
        k == 0,
        after == v,
    decreases k,
{
    if k > 0 {
        let mid = choose|mid: ClusterView<T>|
            trips(clock, v, mid, i, (k - 1) as nat) && #[trigger] trip(clock, mid, after, i);
        lemma_no_trip_after_shutdown(clock, v, mid, i, (k - 1) as nat);
    }
}

/// A run on a cluster that is shutting down, with no stop pending that would send
/// the worker to the barrier first, leaves at once: it steps nothing, parks nobody,
/// and leaves everything where it was.
pub proof fn law_a_run_leaves_after_shutdown<T: Task, C: Clock>(
    clock: &C,
    v: ClusterView<T>,
    after: ClusterView<T>,
    i: int,
    end: RunEnd,
)
    requires
        v.stopping,
        !pending(v.word),
        ran(clock, v, after, i, end),
    ensures
        end == RunEnd::Leave,
        after == v,
{
    let (last, k) = choose|last: ClusterView<T>, k: nat| #[trigger]
        trips(clock, v, last, i, k) && last_trip(clock, last, after, i, end);
    lemma_no_trip_after_shutdown(clock, v, last, i, k);
}

/// The same, decision by decision, for a worker whose passes are made one by one: no
/// stop sends it to the barrier, its pass steps nothing, and after the pass it
/// leaves, without parking.
pub proof fn law_a_pass_after_shutdown_is_the_last<T: Task, C: Clock>(
    clock: &C,
    v: ClusterView<T>,
    after: ClusterView<T>,
    i: int,
    d: Drive,
)
    requires
        v.stopping,
        !pending(v.word),
        driven(clock, v, after, i, AgentRole::Worker, d),
    ensures
        after == v,
        after.run_step(i, d) == RunStep::Leave,
        after.after_run_step(i, d) == v,
{
}

/// A job of this id is in the cluster, to be run or waiting.
pub open spec fn present<T>(v: ClusterView<T>, id: u64) -> bool {
    v.parked.contains_key(id) || exists|job: Job<T>| #[trigger]
        runnable(v).contains(job) && job.id.0 == id
}

/// A step keeps ids apart: the job that is taken keeps its id, and nobody else
/// has it meanwhile.
pub proof fn law_ids_stay_apart_on_a_step<T>(v: ClusterView<T>, i: int, next: T, s: Suspension)
    requires
        0 <= i < v.deques.len(),
        ids_ok(v),
        v.picked(i) is Some,
    ensures
        ids_ok(v.after_pick(i)),
        ids_ok(
            v.after_pick(i).settled(i, Job { id: (v.picked(i)->0).0.id, task: next }, s),
        ),
{
    let taken = (v.picked(i)->0).0;
    let mid = v.after_pick(i);
    law_pick_takes_one(v, i);
    lemma_pick_keeps(v, i);
    assert(runnable(v) == runnable(mid).insert(taken));
    assert(runnable(v).contains(taken));
    assert(!runnable(mid).contains(taken));
    assert forall|x: Job<T>| #[trigger] runnable(mid).contains(x) implies runnable(v).contains(x)
        && x.id != taken.id && runnable(mid).count(x) == 1 by {
        assert(runnable(v).contains(x));
    }
    assert(ids_ok(mid));
    let job = Job { id: taken.id, task: next };
    let after = mid.settled(i, job, s);
    assert(!mid.parked.contains_key(job.id.0));
    assert(!runnable(mid).contains(job));
    law_settle_loses_nothing(mid, i, job, s);
    lemma_settle_keeps(mid, i, job, s);
    assert(ids_ok(after)) by {
        assert forall|x: Job<T>| #[trigger] runnable(after).contains(x) implies {
            &&& 0 < x.id.0 < after.next_id
            &&& runnable(after).count(x) == 1
            &&& !after.parked.contains_key(x.id.0)
        } by {
            if x != job {
                assert(runnable(mid).contains(x));
            }
        }
        assert forall|a: Job<T>, b: Job<T>| #[trigger]
            runnable(after).contains(a) && #[trigger] runnable(after).contains(b) && a.id
                == b.id implies a == b by {
            if a != job {
                assert(runnable(mid).contains(a));
            }
            if b != job {
                assert(runnable(mid).contains(b));
            }
        }
    }
}

/// The agents in `at` are those that wait at the barrier.
pub open spec fn counted<T>(v: ClusterView<T>, at: Set<int>) -> bool {
    &&& at.finite()
    &&& at.len() == v.waiting
    &&& forall|i: int| #[trigger] at.contains(i) ==> 0 <= i < v.deques.len()
}

/// An agent that comes to the barrier is counted, and so is one that leaves it.
pub proof fn law_arrivals_are_counted<T>(v: ClusterView<T>, at: Set<int>, i: int)
    requires
        counted(v, at),
        0 <= i < v.deques.len(),
    ensures
        !at.contains(i) && v.waiting < u32::MAX ==> counted(
            ClusterView { waiting: (v.waiting + 1) as u32, ..v },
            at.insert(i),
        ),
        at.contains(i) ==> v.waiting > 0 && counted(
            ClusterView { waiting: (v.waiting - 1) as u32, ..v },
            at.remove(i),
        ),
{
}

/// A stop that is complete holds everyone but its requester: all the others wait
/// at the barrier, so none of them is stepping a task.
pub proof fn law_a_complete_stop_holds_everyone<T>(
    v: ClusterView<T>,
    at: Set<int>,
    requester: int,
    other: int,
)
    requires
        counted(v, at),
        !at.contains(requester),
        0 <= requester < v.deques.len(),
        0 <= other < v.deques.len(),
        other != requester,
        v.waiting >= v.deques.len() - 1,
    ensures
        at.contains(other),
{
    let n = v.deques.len() as int;
    let others = set_int_range(0, n).remove(requester);
    lemma_int_range(0, n);
    if !at.contains(other) {
        assert(at.subset_of(others));
        at.lemma_subset_not_in_lt(others, other);
    }
}

/// Work does not end a stop, nor a shutdown: whatever an agent steps, those at the
/// barrier go on waiting out the same round.
pub proof fn law_work_ends_no_stop<T: Task>(
    v: ClusterView<T>,
    after: ClusterView<T>,
    i: int,
    n: nat,
)
    requires
        0 <= i < v.deques.len(),
        steps(v, after, i, n),
    ensures
        after.word == v.word,
        after.waiting == v.waiting,
        after.stopping == v.stopping,
        after.deques.len() == v.deques.len(),
    decreases n,
{
    if n > 0 {
        let mid = choose|mid: ClusterView<T>|
            steps(v, mid, i, (n - 1) as nat) && #[trigger] one_step(mid, after, i);
        law_work_ends_no_stop(v, mid, i, (n - 1) as nat);
        let (job, from) = mid.picked(i)->0;
        let (next, s) = choose|next: T, s: Suspension| #[trigger]
            stepped(&job.task, &next, s) && after == mid.after_pick(i).settled(
                i,
                Job { id: job.id, task: next },
                s,
            );
        lemma_pick_keeps(mid, i);
        lemma_settle_keeps(mid.after_pick(i), i, Job { id: job.id, task: next }, s);
    }
}

/// Only what is queued, or waits, differs: nothing else in the cluster has changed.
pub open spec fn same_frame<T>(v: ClusterView<T>, w: ClusterView<T>) -> bool {
    &&& v.rooms == w.rooms
    &&& v.word == w.word
    &&& v.waiting == w.waiting
    &&& v.stopping == w.stopping
    &&& v.next_id == w.next_id
    &&& v.frame_ms == w.frame_ms
    &&& v.deques.len() == w.deques.len()
}

/// One agent that was parked is notified, and every other slot is as it was.
pub open spec fn one_sleeper_called(before: Seq<u32>, after: Seq<u32>) -> bool {
    exists|k: int|
        {
            &&& 0 <= k < before.len()
            &&& #[trigger] before[k] == PARKED
            &&& after.len() == before.len()
            &&& after[k] == NOTIFIED
            &&& forall|j: int|
                0 <= j < before.len() && j != k ==> #[trigger] after[j] == before[j]
        }
}

/// Somebody is asleep.
pub open spec fn someone_sleeps(slots: Seq<u32>) -> bool {
    exists|k: int| 0 <= k < slots.len() && #[trigger] slots[k] == PARKED
}

/// A notification calls one sleeper, and nobody where nobody sleeps. It touches
/// nothing but that agent's slot.
pub proof fn law_a_notification_calls_one_sleeper<T>(v: ClusterView<T>)
    ensures
        someone_sleeps(v.slots) ==> one_sleeper_called(v.slots, v.notified().slots),
        !someone_sleeps(v.slots) ==> v.notified().slots == v.slots,
        v.notified().deques == v.deques,
        v.notified().injector == v.injector,
        v.notified().parked == v.parked,
        v.notified().early == v.early,
        v.notified().rotor == v.rotor,
        same_frame(v, v.notified()),
{
    lemma_first_parked(v.slots, 0);
    if someone_sleeps(v.slots) {
        let asleep = choose|k: int| 0 <= k < v.slots.len() && #[trigger] v.slots[k] == PARKED;
        lemma_first_parked_found(v.slots, 0, asleep);
        let k = first_parked(v.slots, 0)->0;
        assert(v.slots[k] == PARKED);
    } else if first_parked(v.slots, 0) is Some {
        assert(v.slots[first_parked(v.slots, 0)->0] == PARKED);
    }
}

/// A wake of a job that waits makes it runnable, last in the shared queue, and calls
/// a sleeping agent to it where one sleeps; nobody else is disturbed. A wake that
/// finds no job is kept for it, and disturbs nobody.
pub proof fn law_a_wake_calls_a_sleeper<T>(v: ClusterView<T>, id: u64)
    ensures
        v.parked.contains_key(id) ==> {
            &&& v.woken(id).injector.len() == v.injector.len() + 1
            &&& v.woken(id).injector.last() == v.parked[id]
            &&& v.woken(id).injector.drop_last() == v.injector
            &&& v.woken(id).early == v.early
            &&& someone_sleeps(v.slots) ==> one_sleeper_called(v.slots, v.woken(id).slots)
            &&& !someone_sleeps(v.slots) ==> v.woken(id).slots == v.slots
        },
        !v.parked.contains_key(id) ==> {
            &&& v.woken(id).early.contains(id)
            &&& v.woken(id).injector == v.injector
            &&& v.woken(id).slots == v.slots
        },
        !v.woken(id).parked.contains_key(id),
        forall|x: u64|
            x != id ==> {
                &&& v.woken(id).parked.contains_key(x) == v.parked.contains_key(x)
                &&& v.woken(id).early.contains(x) == #[trigger] v.early.contains(x)
            },
        forall|x: u64|
            x != id && v.parked.contains_key(x) ==> #[trigger] v.woken(id).parked[x] == v.parked[x],
        v.woken(id).deques == v.deques,
        v.woken(id).rotor == v.rotor,
        same_frame(v, v.woken(id)),
{
    if v.parked.contains_key(id) {
        let queued = ClusterView {
            parked: v.parked.remove(id),
            injector: v.injector.push(v.parked[id]),
            ..v
        };
        law_a_notification_calls_one_sleeper(queued);
        assert(v.woken(id).injector.drop_last() =~= v.injector);
    }
}

/// A shutdown reaches everybody: no agent sleeps through it, whatever its slot held.
/// Nobody is held at the barrier any more, and what is queued or waits stays.
pub proof fn law_a_shutdown_calls_everybody<T>(v: ClusterView<T>)
    ensures
        v.shut().slots.len() == v.slots.len(),
        forall|i: int| 0 <= i < v.slots.len() ==> #[trigger] v.shut().slots[i] == NOTIFIED,
        !someone_sleeps(v.shut().slots),
        v.shut().stopping,
        v.shut().word % 2 == 0,
        v.word % 2 == 0 ==> v.shut().word == v.word,
        v.word % 2 == 1 ==> v.shut().word != v.word,
        v.shut().deques == v.deques,
        v.shut().injector == v.injector,
        v.shut().parked == v.parked,
        v.shut().early == v.early,
        v.shut().waiting == v.waiting,
        v.shut().rooms == v.rooms,
        v.shut().rotor == v.rotor,
        v.shut().next_id == v.next_id,
        v.shut().frame_ms == v.frame_ms,
{
}

/// A worker that sleeps through nothing: after a shutdown every worker that comes
/// back from parking, or looks after a pass, finds a reason not to park, and at its
/// next look it leaves.
pub proof fn law_nobody_parks_after_shutdown<T>(v: ClusterView<T>, i: int, d: Drive)
    requires
        0 <= i < v.slots.len(),
        v.stopping,
    ensures
        v.run_step(i, d) != RunStep::Park,
        v.after_run_step(i, d).slots[i] == PARKED ==> v.slots[i] == PARKED && d != Drive::Idle,
        d == Drive::Idle ==> v.after_run_step(i, d).run_step(i, d) == RunStep::Leave,
{
}

/// A worker parks only after a pass that found nothing, with no notification in its
/// slot, no work anywhere and no shutdown; then its slot says so. Otherwise it is
/// not left parked, and a notification is used up by one idle pass. Nobody else's
/// slot is touched.
pub proof fn law_a_worker_parks_only_for_want_of_work<T>(v: ClusterView<T>, i: int, d: Drive)
    requires
        0 <= i < v.slots.len(),
    ensures
        v.run_step(i, d) == RunStep::Park <==> {
            &&& d == Drive::Idle
            &&& v.slots[i] == RUNNING
            &&& !v.stopping
            &&& v.injector.len() == 0
            &&& forall|j: int| 0 <= j < v.deques.len() ==> (#[trigger] v.deques[j]).len() == 0
        },
        v.run_step(i, d) == RunStep::Leave ==> v.stopping || d == Drive::ShuttingDown,
        d is Ran ==> v.run_step(i, d) == RunStep::Again,
        d == Drive::ShuttingDown ==> v.run_step(i, d) == RunStep::Leave,
        d != Drive::Idle ==> v.after_run_step(i, d) == v,
        d == Drive::Idle ==> v.after_run_step(i, d).slots[i] == if v.run_step(i, d)
            == RunStep::Park {
            PARKED
        } else {
            RUNNING
        },
        v.after_run_step(i, d).slots.len() == v.slots.len(),
        forall|j: int|
            0 <= j < v.slots.len() && j != i ==> #[trigger] v.after_run_step(i, d).slots[j]
                == v.slots[j],
        v.after_run_step(i, d).deques == v.deques,
        v.after_run_step(i, d).injector == v.injector,
        v.after_run_step(i, d).parked == v.parked,
        v.after_run_step(i, d).early == v.early,
        v.after_run_step(i, d).rotor == v.rotor,
        same_frame(v, v.after_run_step(i, d)),
{
    if v.busy() && v.injector.len() == 0 {
        let j = choose|j: int| 0 <= j < v.deques.len() && (#[trigger] v.deques[j]).len() > 0;
        assert(v.deques[j].len() != 0);
    }
}

/// A job that is deposited is the newest of its agent's own queue, or, where that is
/// full, the last of the shared one. No other queue changes.
pub proof fn law_a_deposit_stays_close<T>(v: ClusterView<T>, i: int, job: Job<T>)
    requires
        0 <= i < v.deques.len(),
    ensures
        ({
            let after = v.deposited(i, job);
            &&& v.deques[i].len() < v.rooms[i] ==> {
                &&& after.deques[i].len() == v.deques[i].len() + 1
                &&& after.deques[i].last() == job
                &&& after.deques[i].drop_last() == v.deques[i]
                &&& after.injector == v.injector
            }
            &&& v.deques[i].len() >= v.rooms[i] ==> {
                &&& after.deques[i] == v.deques[i]
                &&& after.injector.len() == v.injector.len() + 1
                &&& after.injector.last() == job
                &&& after.injector.drop_last() == v.injector
            }
            &&& forall|j: int|
                0 <= j < v.deques.len() && j != i ==> #[trigger] after.deques[j] == v.deques[j]
            &&& after.slots == v.slots
            &&& after.parked == v.parked
            &&& after.early == v.early
            &&& after.rotor == v.rotor
            &&& same_frame(v, after)
        }),
{
    let after = v.deposited(i, job);
    if v.deques[i].len() < v.rooms[i] {
        assert(after.deques[i].drop_last() =~= v.deques[i]);
    } else {
        assert(after.injector.drop_last() =~= v.injector);
    }
}

/// Where a step's report puts the job. One that is done is nowhere. One that waits is
/// set aside under its id, unless its wake came first: then it goes on, and that wake
/// is used up. One that yields goes back to its agent's queue, and where that leaves
/// more than one there, a sleeping agent is called to share it. Nobody is called
/// otherwise.
pub proof fn law_a_report_is_obeyed<T>(v: ClusterView<T>, i: int, job: Job<T>, s: Suspension)
    requires
        0 <= i < v.deques.len(),
    ensures
        ({
            let after = v.settled(i, job, s);
            let back = v.deposited(i, job);
            &&& s == Suspension::Completed ==> after == v
            &&& s == Suspension::Pending ==> {
                &&& after.slots == v.slots
                &&& !after.early.contains(job.id.0)
                &&& forall|x: u64|
                    x != job.id.0 ==> #[trigger] after.early.contains(x) == v.early.contains(x)
                &&& if v.early.contains(job.id.0) {
                    &&& after.deques == back.deques
                    &&& after.injector == back.injector
                    &&& after.parked == v.parked
                } else {
                    &&& after.deques == v.deques
                    &&& after.injector == v.injector
                    &&& after.parked.contains_key(job.id.0)
                    &&& after.parked[job.id.0] == job
                    &&& after.parked.remove(job.id.0) == v.parked.remove(job.id.0)
                }
            }
            &&& s == Suspension::Yielded ==> {
                &&& after.deques == back.deques
                &&& after.injector == back.injector
                &&& after.parked == v.parked
                &&& after.early == v.early
                &&& if back.deques[i].len() >= 2 && someone_sleeps(v.slots) {
                    one_sleeper_called(v.slots, after.slots)
                } else {
                    after.slots == v.slots
                }
            }
            &&& after.rotor == v.rotor
            &&& same_frame(v, after)
        }),
{
    let after = v.settled(i, job, s);
    law_a_deposit_stays_close(v, i, job);
    law_a_notification_calls_one_sleeper(v.deposited(i, job));
    if s == Suspension::Pending && !v.early.contains(job.id.0) {
        assert(after.parked.remove(job.id.0) =~= v.parked.remove(job.id.0));
    }
}

/// The agent that lies `j` places after place `start`, going round `n` of them.
pub open spec fn going_round(start: int, j: int, n: int) -> int {
    (start + j) % n
}

/// The order in which an agent looks for work: its own newest job, else the oldest of
/// the shared queue, else the oldest of another agent's, going round from where the
/// rotor points and taking the first that has any. The job that is taken leaves its
/// queue, every other queue is as it was, and nobody is called.
pub proof fn law_an_agent_looks_at_home_first<T>(v: ClusterView<T>, i: int)
    requires
        0 <= i < v.deques.len() <= u32::MAX,
    ensures
        ({
            let n = v.deques.len() as int;
            let after = v.after_pick(i);
            &&& v.deques[i].len() > 0 ==> {
                &&& v.picked(i) == Some((v.deques[i].last(), None::<AgentId>))
                &&& after == (ClusterView {
                    deques: v.deques.update(i, v.deques[i].drop_last()),
                    ..v
                })
            }
            &&& v.deques[i].len() == 0 && v.injector.len() > 0 ==> {
                &&& v.picked(i) == Some((v.injector.first(), None::<AgentId>))
                &&& after == (ClusterView { injector: v.injector.drop_first(), ..v })
            }
            &&& v.deques[i].len() == 0 && v.injector.len() == 0 ==> {
                match v.picked(i) {
                    Some((job, from)) => {
                        &&& from is Some
                        &&& exists|j: int|
                            {
                                let w = #[trigger] going_round(v.rotor as int % n, j, n);
                                &&& 0 <= j < n
                                &&& w != i
                                &&& v.deques[w].len() > 0
                                &&& from == Some(AgentId(w as u32))
                                &&& job == v.deques[w].first()
                                &&& after.deques == v.deques.update(w, v.deques[w].drop_first())
                                &&& forall|x: int|
                                    0 <= x < j ==> {
                                        let u = #[trigger] going_round(v.rotor as int % n, x, n);
                                        u == i || v.deques[u].len() == 0
                                    }
                            }
                        &&& after.rotor != v.rotor
                    },
                    None => {
                        &&& after.deques == v.deques
                        &&& forall|w: int|
                            0 <= w < n ==> (#[trigger] v.deques[w]).len() == 0
                    },
                }
            }
            &&& after.slots == v.slots
            &&& after.parked == v.parked
            &&& after.early == v.early
            &&& v.deques[i].len() > 0 || after.injector.len() == 0 || v.injector.len() > 0
            &&& same_frame(v, after)
        }),
{
    let n = v.deques.len() as int;
    lemma_victim(v, i, 0);
    lemma_pick_keeps(v, i);
    law_work_is_found(v, i);
    if v.deques[i].len() == 0 && v.injector.len() == 0 {
        match v.picked(i) {
            Some((job, from)) => {
                let j = lemma_first_victim(v, i, 0);
                let w = going_round(v.rotor as int % n, j, n);
                assert(from == Some(AgentId(w as u32)));
            },
            None => {
                assert(!v.busy());
                assert forall|w: int| 0 <= w < n implies (#[trigger] v.deques[w]).len() == 0 by {
                    if v.deques[w].len() > 0 {
                        assert(v.busy());
                    }
                }
                assert(v.after_pick(i).deques == v.deques);
            },
        }
    }
}

/// The victim is the first that has anything, from place `k` on.
proof fn lemma_first_victim<T>(v: ClusterView<T>, thief: int, k: nat) -> (j: int)
    requires
        v.victim(thief, k) is Some,
        k < v.deques.len(),
    ensures
        k <= j < v.deques.len(),
        ({
            let n = v.deques.len() as int;
            let start = v.rotor as int % n;
            let w = going_round(start, j, n);
            &&& v.victim(thief, k) == Some(w)
            &&& w != thief
            &&& 0 <= w < n
            &&& v.deques[w].len() > 0
            &&& forall|x: int|
                k <= x < j ==> {
                    let u = #[trigger] going_round(start, x, n);
                    u == thief || v.deques[u].len() == 0
                }
        }),
    decreases v.deques.len() - k,
{
    let n = v.deques.len() as int;
    let start = v.rotor as int % n;
    let here = going_round(start, k as int, n);
    assert(here == ring_index(start, k as int, n)) by {
        if start + k < n {
            vstd::arithmetic::div_mod::lemma_small_mod((start + k) as nat, n as nat);
        } else {
            vstd::arithmetic::div_mod::lemma_small_mod((start + k - n) as nat, n as nat);
            vstd::arithmetic::div_mod::lemma_mod_add_multiples_vanish(start + k - n, n);
        }
    }
    if here != thief && v.deques[here].len() > 0 {
        k as int
    } else {
        let j = lemma_first_victim(v, thief, k + 1);
        j
    }
}

/// A step of a pass takes one runnable job, steps it once, and puts it where its
/// report says; every other job is as it was.
pub proof fn law_a_step_steps_one_job<T: Task>(
    v: ClusterView<T>,
    after: ClusterView<T>,
    i: int,
)
    requires
        0 <= i < v.deques.len(),
        ids_ok(v),
        one_step(v, after, i),
    ensures
        exists|job: Job<T>, next: T, s: Suspension|
            {
                let others = runnable(v).remove(job);
                let moved = Job { id: job.id, task: next };
                &&& runnable(v).contains(job)
                &&& #[trigger] stepped(&job.task, &next, s)
                &&& match s {
                    Suspension::Completed => runnable(after) == others && after.parked == v.parked,
                    Suspension::Yielded => runnable(after) == others.insert(moved)
                        && after.parked == v.parked,
                    Suspension::Pending => {
                        ||| v.early.contains(job.id.0) && runnable(after) == others.insert(moved)
                            && after.parked == v.parked
                        ||| !v.early.contains(job.id.0) && runnable(after) == others
                            && after.parked == v.parked.insert(job.id.0, moved)
                    },
                }
                &&& #[trigger] job_is(v.picked(i), job)
            },
{
    let (job, from) = v.picked(i)->0;
    let mid = v.after_pick(i);
    let (next, s) = choose|next: T, s: Suspension| #[trigger]
        stepped(&job.task, &next, s) && after == mid.settled(i, Job { id: job.id, task: next }, s);
    let moved = Job { id: job.id, task: next };
    law_pick_takes_one(v, i);
    lemma_pick_keeps(v, i);
    assert(runnable(v) == runnable(mid).insert(job));
    assert(runnable(v).contains(job));
    assert(runnable(v).remove(job) =~= runnable(mid));
    assert(!mid.parked.contains_key(job.id.0));
    law_settle_loses_nothing(mid, i, moved, s);
    if s == Suspension::Pending && !v.early.contains(job.id.0) {
        assert(after.deques == mid.deques && after.injector == mid.injector);
    }
    if s == Suspension::Pending && v.early.contains(job.id.0) {
        let claimed = ClusterView { early: mid.early.remove(moved.id.0), ..mid };
        law_deposit_loses_nothing(claimed, i, moved);
        assert(runnable(claimed) == runnable(mid));
    }
    assert(job_is(v.picked(i), job));
}

/// `job` is the one that was picked.
pub open spec fn job_is<T>(picked: Option<(Job<T>, Option<AgentId>)>, job: Job<T>) -> bool {
    picked matches Some((taken, from)) && taken == job
}

/// A worker's pass with no stop pending and no shutdown goes on until there is no
/// work left anywhere, or the count of its steps is used up, and says how many jobs
/// it stepped; it says that it found nothing exactly when there was nothing.
pub proof fn law_a_worker_pass_runs_dry<T: Task, C: Clock>(
    clock: &C,
    v: ClusterView<T>,
    after: ClusterView<T>,
    i: int,
    d: Drive,
)
    requires
        0 <= i < v.deques.len(),
        !v.stopping,
        v.word % 2 == 0,
        driven(clock, v, after, i, AgentRole::Worker, d),
    ensures
        d != Drive::ShuttingDown,
        d != Drive::Ran(usize::MAX) ==> runnable(after) == Multiset::<Job<T>>::empty(),
        d == Drive::Idle <==> !v.busy(),
        d matches Drive::Ran(n) ==> n > 0,
{
    law_work_is_found(v, i);
    if exists|n: nat|
        n <= usize::MAX && #[trigger] ran_dry(clock, v, after, i, AgentRole::Worker, d, n) {
        let n = choose|n: nat|
            n <= usize::MAX && #[trigger] ran_dry(clock, v, after, i, AgentRole::Worker, d, n);
        let mid = choose|mid: ClusterView<T>| #[trigger]
            steps(v, mid, i, n) && mid.picked(i) is None && after == mid.after_pick(i) && d == (
            if n == 0 {
                Drive::Idle
            } else {
                Drive::Ran(n as usize)
            });
        law_work_ends_no_stop(v, mid, i, n);
        law_work_is_found(mid, i);
        assert(after.deques == mid.deques && after.injector == mid.injector);
        assert(runnable(after) == runnable(mid));
        if n > 0 {
            lemma_first_step(v, mid, i, n);
        }
    } else {
        let n = choose|n: nat|
            n <= usize::MAX && #[trigger] cut_short(clock, v, after, i, AgentRole::Worker, d, n);
        lemma_first_step(v, after, i, n);
    }
}

/// Whoever makes a step has found a job.
proof fn lemma_first_step<T: Task>(v: ClusterView<T>, after: ClusterView<T>, i: int, n: nat)
    requires
        n > 0,
        steps(v, after, i, n),
    ensures
        v.picked(i) is Some,
    decreases n,
{
    let mid = choose|mid: ClusterView<T>|
        steps(v, mid, i, (n - 1) as nat) && #[trigger] one_step(mid, after, i);
    if n > 1 {
        lemma_first_step(v, mid, i, (n - 1) as nat);
    }
}

/// A pass with a stop pending steps one job at most.
pub proof fn law_a_pass_gives_way_to_a_stop<T: Task, C: Clock>(
    clock: &C,
    v: ClusterView<T>,
    after: ClusterView<T>,
    i: int,
    role: AgentRole,
    d: Drive,
)
    requires
        0 <= i < v.deques.len(),
        !v.stopping,
        v.word % 2 == 1,
        driven(clock, v, after, i, role, d),
    ensures
        d == Drive::Idle || d == Drive::Ran(1),
        d == Drive::Ran(1) ==> one_step(v, after, i),
        d == Drive::Idle ==> !v.busy() && !after.busy(),
{
    law_work_is_found(v, i);
    if exists|n: nat| n <= usize::MAX && #[trigger] ran_dry(clock, v, after, i, role, d, n) {
        let n = choose|n: nat|
            n <= usize::MAX && #[trigger] ran_dry(clock, v, after, i, role, d, n);
        let mid = choose|mid: ClusterView<T>| #[trigger]
            steps(v, mid, i, n) && mid.picked(i) is None && after == mid.after_pick(i);
        assert(mid == v);
        lemma_pick_keeps(v, i);
        assert(after.deques == v.deques && after.injector == v.injector);
        assert(after.busy() == v.busy());
    } else {
        let n = choose|n: nat|
            n <= usize::MAX && #[trigger] cut_short(clock, v, after, i, role, d, n);
        assert(n == 1);
        let mid = choose|mid: ClusterView<T>|
            steps(v, mid, i, 0) && #[trigger] one_step(mid, after, i);
    }
}

/// A main agent's pass is held to its budget: the clock is read at the start and
/// after each step, and no step begins once a reading has come to the start plus the
/// budget. It ends for want of work, or because the last reading has come to that.
pub proof fn law_a_main_pass_keeps_to_its_budget<T: Task, C: Clock>(
    clock: &C,
    v: ClusterView<T>,
    after: ClusterView<T>,
    i: int,
    d: Drive,
)
    requires
        0 <= i < v.deques.len(),
        !v.stopping,
        v.word % 2 == 0,
        driven(clock, v, after, i, AgentRole::Main, d),
    ensures
        exists|start: u64, readings: Seq<u64>|
            {
                &&& clock.may_read(start)
                &&& #[trigger] all_read(clock, start, readings)
                &&& forall|k: int|
                    0 <= k < readings.len() - 1 ==> (#[trigger] readings[k]) < start + v.frame_ms
                &&& d == Drive::Idle ==> readings.len() == 0
                &&& d matches Drive::Ran(n) ==> readings.len() == n && n > 0
                &&& d != Drive::ShuttingDown
                &&& after.busy() && d != Drive::Ran(usize::MAX) ==> readings.len() > 0 && (
                readings.last() >= start + v.frame_ms || readings.last() == u64::MAX)
            },
{
    if exists|n: nat|
        n <= usize::MAX && #[trigger] ran_dry(clock, v, after, i, AgentRole::Main, d, n) {
        let n = choose|n: nat|
            n <= usize::MAX && #[trigger] ran_dry(clock, v, after, i, AgentRole::Main, d, n);
        let mid = choose|mid: ClusterView<T>| #[trigger]
            steps(v, mid, i, n) && mid.picked(i) is None && after == mid.after_pick(i);
        law_work_ends_no_stop(v, mid, i, n);
        law_work_is_found(mid, i);
        assert(after.deques == mid.deques && after.injector == mid.injector);
        assert(after.busy() == mid.busy());
        let (start, readings) = choose|start: u64, readings: Seq<u64>|
            readings.len() == n && #[trigger] timed(clock, start, readings, v.frame_ms, false);
        assert(all_read(clock, start, readings));
    } else {
        let n = choose|n: nat|
            n <= usize::MAX && #[trigger] cut_short(clock, v, after, i, AgentRole::Main, d, n);
        let used_up = in_budget(clock, AgentRole::Main, v.frame_ms, n, true);
        let (start, readings) = choose|start: u64, readings: Seq<u64>|
            readings.len() == n && #[trigger] timed(clock, start, readings, v.frame_ms, used_up);
        assert(all_read(clock, start, readings));
    }
}

/// The clock may have read these.
pub open spec fn all_read<C: Clock>(clock: &C, start: u64, readings: Seq<u64>) -> bool {
    forall|k: int| 0 <= k < readings.len() ==> clock.may_read(#[trigger] readings[k])
}

/// Steps of a pass follow one another: some and then some more are as many together,
/// and one is one step.
pub proof fn law_steps_add_up<T: Task>(
    a: ClusterView<T>,
    b: ClusterView<T>,
    c: ClusterView<T>,
    i: int,
    n: nat,
    m: nat,
)
    ensures
        steps(a, b, i, n) && steps(b, c, i, m) ==> steps(a, c, i, n + m),
        steps(a, b, i, 0) <==> a == b,
        steps(a, b, i, 1) <==> one_step(a, b, i),
        steps(a, c, i, m + 1) ==> exists|x: ClusterView<T>| #[trigger]
            one_step(a, x, i) && steps(x, c, i, m),
    decreases m,
{
    if steps(a, b, i, 1) {
        let mid = choose|mid: ClusterView<T>|
            steps(a, mid, i, 0) && #[trigger] one_step(mid, b, i);
    }
    if one_step(a, b, i) {
        assert(steps(a, a, i, 0) && one_step(a, b, i));
    }
    if m > 0 {
        if steps(a, b, i, n) && steps(b, c, i, m) {
            let mid = choose|mid: ClusterView<T>|
                steps(b, mid, i, (m - 1) as nat) && #[trigger] one_step(mid, c, i);
            law_steps_add_up(a, b, mid, i, n, (m - 1) as nat);
        }
        if steps(a, c, i, m + 1) {
            let last = choose|mid: ClusterView<T>|
                steps(a, mid, i, m) && #[trigger] one_step(mid, c, i);
            law_steps_add_up(a, b, last, i, n, (m - 1) as nat);
            let x = choose|x: ClusterView<T>| #[trigger]
                one_step(a, x, i) && steps(x, last, i, (m - 1) as nat);
            assert(steps(x, c, i, m));
        }
    } else if steps(a, c, i, 1) {
        let mid = choose|mid: ClusterView<T>|
            steps(a, mid, i, 0) && #[trigger] one_step(mid, c, i);
        assert(one_step(a, c, i) && steps(c, c, i, 0));
    }
}

/// One id has been handed out, a sleeping agent called where one sleeps, and nothing
/// changed but the queues.
pub open spec fn called_for_one_more<T>(v: ClusterView<T>, w: ClusterView<T>) -> bool {
    &&& someone_sleeps(v.slots) ==> one_sleeper_called(v.slots, w.slots)
    &&& !someone_sleeps(v.slots) ==> w.slots == v.slots
    &&& w.next_id == v.next_id + 1
    &&& w.parked == v.parked
    &&& w.early == v.early
    &&& w.word == v.word
    &&& w.waiting == v.waiting
    &&& w.stopping == v.stopping
    &&& w.rotor == v.rotor
    &&& w.rooms == v.rooms
    &&& w.frame_ms == v.frame_ms
}

/// A task that is submitted becomes one runnable job more, under an id that nobody
/// had, and a sleeping agent is called to it where one sleeps. It is the last of the
/// shared queue, or the newest of the agent's own where that has room.
pub proof fn law_a_spawn_calls_a_sleeper<T>(v: ClusterView<T>, i: int, task: T)
    requires
        0 <= i < v.deques.len(),
        v.next_id < u64::MAX,
    ensures
        ({
            let job = Job { id: TaskId(v.next_id), task };
            &&& v.spawned(task).injector.len() == v.injector.len() + 1
            &&& v.spawned(task).injector.last() == job
            &&& v.spawned(task).injector.drop_last() == v.injector
            &&& v.spawned(task).deques == v.deques
            &&& runnable(v.spawned(task)) == runnable(v).insert(job)
            &&& runnable(v.spawned_on(i, task)) == runnable(v).insert(job)
            &&& v.deques[i].len() < v.rooms[i] ==> {
                &&& v.spawned_on(i, task).deques[i].len() == v.deques[i].len() + 1
                &&& v.spawned_on(i, task).deques[i].last() == job
                &&& v.spawned_on(i, task).injector == v.injector
            }
            &&& forall|j: int|
                0 <= j < v.deques.len() && j != i ==> #[trigger] v.spawned_on(i, task).deques[j]
                    == v.deques[j]
        }),
        called_for_one_more(v, v.spawned(task)),
        called_for_one_more(v, v.spawned_on(i, task)),
{
    broadcast use group_to_multiset_ensures;

    let job = Job { id: TaskId(v.next_id), task };
    let minted = ClusterView { next_id: (v.next_id + 1) as u64, ..v };
    let shared = ClusterView { injector: v.injector.push(job), ..minted };
    law_a_notification_calls_one_sleeper(shared);
    assert(shared.injector.drop_last() =~= v.injector);
    assert(runnable(v.spawned(task)) =~= runnable(v).insert(job));
    assert(runnable(minted) == runnable(v));
    law_deposit_loses_nothing(minted, i, job);
    law_a_deposit_stays_close(minted, i, job);
    law_a_notification_calls_one_sleeper(minted.deposited(i, job));
    assert(runnable(v.spawned_on(i, task)) == runnable(minted.deposited(i, job)));
}

/// A new cluster has nothing to do and nobody asleep: no job is anywhere in it, none is
/// stopped or to stop, and no wake is remembered.
pub proof fn law_a_new_cluster_is_awake_and_idle<T>(v: ClusterView<T>, n: nat, capacity: nat)
    requires
        fresh(v, n, capacity),
    ensures
        !v.busy(),
        !someone_sleeps(v.slots),
        forall|i: int| 0 <= i < n ==> (#[trigger] v.picked(i)) is None,
        forall|i: int| 0 <= i < n ==> #[trigger] v.run_step(i, Drive::Idle) == RunStep::Park,
        forall|i: int| 0 <= i < n ==> (#[trigger] v.rooms[i]) >= capacity,
        forall|id: u64| !(#[trigger] v.parked.contains_key(id)) && !v.early.contains(id),
        !pending(v.word),
        v.waiting == 0,
        !v.stopping,
{
    assert(!v.busy());
    assert forall|i: int| 0 <= i < n implies (#[trigger] v.picked(i)) is None by {
        if v.picked(i) is Some && v.deques.len() > 1 {
            lemma_victim(v, i, 0);
        }
        assert(v.deques[i].len() == 0);
    }
    assert forall|i: int| 0 <= i < n implies (#[trigger] v.rooms[i]) >= capacity by {
        assert(v.deques[i].len() == 0);
    }
    assert forall|i: int| 0 <= i < n implies #[trigger] v.run_step(i, Drive::Idle)
        == RunStep::Park by {
        assert(v.deques[i].len() == 0);
    }
    assert(!someone_sleeps(v.slots)) by {
        assert forall|i: int| 0 <= i < n implies #[trigger] v.slots[i] == RUNNING by {
            assert(v.deques[i].len() == 0);
        }
    }
}

} // verus!
