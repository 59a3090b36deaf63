//! Where the markers go that the transform erases: those that delimit regions and
//! coroutines, and yields.
use vstd::prelude::*;

use crate::stackless::cfg::mark_of;
use crate::stackless::executor::{
    cooperative_loop, coroutines_erased, machine_polled, machines_polled, pass_opened,
    region_closed, region_erased, region_ready, states_zeroed, waker_pass, Pass, RegionExits,
};
use crate::stackless::machine::{
    arms, lemma_suspended_all_keeps, machine_built, machine_opened, plain_machine, points_apart,
    suspended, suspended_all, switch_machine, Machine, DONE_STATE,
};
use crate::stackless::keep::{lemma_opened_tally, lemma_pass_tally, lemma_walk};
use crate::stackless::model::{
    lemma_add_block_wf, lemma_set_block_wf, Block, Body, LocalKind, Stmt, Term,
};
use crate::stackless::placement::{is_stop, tidy, tidy_stmts};
use crate::stackless::scan::{kind_of, Coroutine, Reading, RegionView, SuspKind};
use crate::stackless::shed::hostless;
use crate::stackless::tally::any_tag;
use crate::vocab::{CfgId, Marker};

verus! {

/// A marker that is gone once its region has been rewritten.
pub open spec fn is_fence(mark: Option<Marker>) -> bool {
    match mark {
        None => false,
        Some(Marker::GuardedRecv) => false,
        Some(Marker::ProducingSend) => false,
        Some(_) => true,
    }
}

/// The statement at a place.
pub open spec fn nth<B, L>(body: Body<B, L>, pos: (B, int)) -> Stmt<L> {
    body.blocks[pos.0].stmts[pos.1]
}

/// A place, with its index as a mathematical integer.
pub open spec fn spot<B>(at: (B, usize)) -> (B, int) {
    (at.0, at.1 as int)
}

/// Such a marker stands at `pos`.
pub open spec fn fenced<B, L>(reading: Reading, body: Body<B, L>, pos: (B, int)) -> bool {
    &&& body.has(pos.0)
    &&& 0 <= pos.1 < body.blocks[pos.0].stmts.len()
    &&& is_fence(mark_of(reading, nth(body, pos)))
}

/// A choice of places.
pub type Places<B> = spec_fn((B, int)) -> bool;

pub open spec fn nowhere<B>() -> Places<B> {
    |pos: (B, int)| false
}

/// Every block listed is still listed where it was.
pub open spec fn extends<B>(order: Seq<B>, more: Seq<B>) -> bool {
    &&& order.len() <= more.len()
    &&& forall|i: int| 0 <= i < order.len() ==> #[trigger] more[i] == order[i]
}

/// Those of the markers that stood in one of the places are gone, and the others
/// are where they were.
pub open spec fn fences_left<B, L>(
    reading: Reading,
    before: Body<B, L>,
    after: Body<B, L>,
    gone: Places<B>,
) -> bool {
    &&& extends(before.order, after.order)
    &&& forall|pos: (B, int)| #[trigger]
        fenced(reading, after, pos) ==> fenced(reading, before, pos) && !gone(pos) && nth(after, pos)
            == nth(before, pos)
    &&& forall|pos: (B, int)|
        fenced(reading, before, pos) && !gone(pos) ==> #[trigger] fenced(reading, after, pos)
}

/// A marker of the region's own, a yield aside.
pub open spec fn region_place<B: CfgId>(r: RegionView<B>) -> Places<B> {
    |pos: (B, int)|
        pos == spot(r.region_begin) || pos == spot(r.region_end) || exists|j: int|
            0 <= j < r.coroutines.len() && (spot((#[trigger] r.coroutines[j]).begin) == pos
                || spot(r.coroutines[j].end) == pos)
}

/// What follows the opening marker in its block is the region's own.
pub open spec fn clear_tail<B: CfgId, L>(
    reading: Reading,
    body: Body<B, L>,
    r: RegionView<B>,
) -> bool {
    forall|pos: (B, int)| #[trigger]
        fenced(reading, body, pos) && pos.0 == r.region_begin.0 && pos.1 > r.region_begin.1
            ==> region_place(r)(pos)
}

pub proof fn lemma_left_compose<B, L>(
    reading: Reading,
    a: Body<B, L>,
    b: Body<B, L>,
    c: Body<B, L>,
    first: Places<B>,
    second: Places<B>,
    both: Places<B>,
)
    requires
        fences_left(reading, a, b, first),
        fences_left(reading, b, c, second),
        forall|pos: (B, int)|
            fenced(reading, a, pos) ==> #[trigger] both(pos) == (first(pos) || second(pos)),
    ensures
        fences_left(reading, a, c, both),
{
    assert forall|i: int| 0 <= i < a.order.len() implies #[trigger] c.order[i] == a.order[i] by {
        assert(b.order[i] == a.order[i]);
    }
    assert forall|pos: (B, int)| #[trigger] fenced(reading, c, pos) implies fenced(
        reading,
        a,
        pos,
    ) && !both(pos) && nth(c, pos) == nth(a, pos) by {
        assert(fenced(reading, b, pos));
    }
    assert forall|pos: (B, int)| fenced(reading, a, pos) && !both(pos) implies #[trigger] fenced(
        reading,
        c,
        pos,
    ) by {
        assert(fenced(reading, b, pos));
    }
}

/// Nothing of the host's has been added, and nothing has been moved.
pub open spec fn padded<B, L>(before: Body<B, L>, after: Body<B, L>) -> bool {
    &&& extends(before.order, after.order)
    &&& forall|b: B| #[trigger]
        before.has(b) ==> after.has(b) && after.blocks[b].stmts.len() >= before.blocks[b].stmts.len()
    &&& forall|b: B, i: int|
        before.has(b) && 0 <= i < before.blocks[b].stmts.len() ==> (
        #[trigger] after.blocks[b].stmts[i]) == before.blocks[b].stmts[i]
    &&& forall|b: B, i: int|
        after.has(b) && 0 <= i < after.blocks[b].stmts.len() && (
        #[trigger] after.blocks[b].stmts[i]) is Host ==> before.has(b) && i
            < before.blocks[b].stmts.len()
}

pub proof fn lemma_padded_left<B, L>(reading: Reading, before: Body<B, L>, after: Body<B, L>)
    requires
        padded(before, after),
    ensures
        fences_left(reading, before, after, nowhere()),
{
    assert forall|pos: (B, int)| #[trigger] fenced(reading, after, pos) implies fenced(
        reading,
        before,
        pos,
    ) && nth(after, pos) == nth(before, pos) by {
        assert(after.blocks[pos.0].stmts[pos.1] is Host);
    }
    assert forall|pos: (B, int)| fenced(reading, before, pos) implies #[trigger] fenced(
        reading,
        after,
        pos,
    ) by {
        assert(before.has(pos.0));
        assert(after.blocks[pos.0].stmts[pos.1] == nth(before, pos));
    }
}

proof fn lemma_padded_compose<B, L>(a: Body<B, L>, b: Body<B, L>, c: Body<B, L>)
    requires
        padded(a, b),
        padded(b, c),
    ensures
        padded(a, c),
{
    assert forall|i: int| 0 <= i < a.order.len() implies #[trigger] c.order[i] == a.order[i] by {
        assert(b.order[i] == a.order[i]);
    }
    assert forall|x: B| #[trigger] a.has(x) implies c.has(x) && c.blocks[x].stmts.len()
        >= a.blocks[x].stmts.len() by {
        assert(b.has(x));
    }
    assert forall|x: B, i: int| a.has(x) && 0 <= i < a.blocks[x].stmts.len() implies (
    #[trigger] c.blocks[x].stmts[i]) == a.blocks[x].stmts[i] by {
        assert(b.has(x));
        assert(b.blocks[x].stmts[i] == a.blocks[x].stmts[i]);
    }
    assert forall|x: B, i: int|
        c.has(x) && 0 <= i < c.blocks[x].stmts.len() && (
        #[trigger] c.blocks[x].stmts[i]) is Host implies a.has(x) && i
        < a.blocks[x].stmts.len() by {
        assert(c.blocks[x].stmts[i] == b.blocks[x].stmts[i]);
        assert(b.blocks[x].stmts[i] is Host);
    }
}

proof fn lemma_padded_add<B, L>(body: Body<B, L>, b: B, block: Block<B, L>)
    requires
        !body.has(b),
        hostless(block.stmts),
    ensures
        padded(body, body.add_block(b, block)),
{
}

proof fn lemma_padded_end<B, L>(body: Body<B, L>, b: B, term: Term<B, L>)
    requires
        body.has(b),
    ensures
        padded(body, body.end_with(b, term)),
{
}

proof fn lemma_padded_append<B, L>(body: Body<B, L>, b: B, s: Stmt<L>)
    requires
        body.has(b),
        !(s is Host),
    ensures
        padded(body, body.append(b, s)),
{
}

proof fn lemma_erase_left<B, L>(reading: Reading, body: Body<B, L>, place: (B, usize))
    requires
        body.at(place),
    ensures
        fences_left(reading, body, body.erase(place), |pos: (B, int)| pos == spot(place)),
{
    let after = body.erase(place);
    assert forall|pos: (B, int)| #[trigger] fenced(reading, after, pos) implies fenced(
        reading,
        body,
        pos,
    ) && pos != spot(place) && nth(after, pos) == nth(body, pos) by {
    }
    assert forall|pos: (B, int)| fenced(reading, body, pos) && pos != spot(place) implies #[trigger] fenced(
        reading,
        after,
        pos,
    ) by {
    }
}

/// Ending a turn at a suspension point erases a yield, and moves nothing else that
/// is to be erased.
proof fn lemma_suspended_left<B: CfgId, L: CfgId>(
    reading: Reading,
    before: Body<B, L>,
    after: Body<B, L>,
    point: (B, usize, SuspKind),
    state: i64,
    m: Machine<B, L>,
    entry: B,
)
    requires
        before.at((point.0, point.1)),
        suspended(before, after, point, state, m, entry),
        kind_of(mark_of(reading, before.stmt((point.0, point.1)))) == Some(point.2),
        tidy_stmts(reading, before.blocks[point.0].stmts),
    ensures
        fences_left(
            reading,
            before,
            after,
            |pos: (B, int)| point.2 == SuspKind::Yield && pos == (point.0, point.1 as int),
        ),
{
    let b = point.0;
    let i = point.1 as int;
    let whole = before.blocks[b];
    let y = after.order[before.order.len() as int];
    let gone = |pos: (B, int)| point.2 == SuspKind::Yield && pos == (point.0, point.1 as int);
    assert(is_stop(mark_of(reading, whole.stmts[i])));
    assert forall|j: int| i < j < whole.stmts.len() implies mark_of(
        reading,
        #[trigger] whole.stmts[j],
    ) is None by {
    }
    assert forall|pos: (B, int)| #[trigger] fenced(reading, after, pos) implies fenced(
        reading,
        before,
        pos,
    ) && !gone(pos) && nth(after, pos) == nth(before, pos) by {
        assert(after.has(pos.0));
        if pos.0 == b {
            assert(pos.1 < i + 1);
            assert(pos.1 < i);
        } else if !before.has(pos.0) {
            if pos.0 == y {
                assert(!(nth(after, pos) is Host));
            } else {
                // A block that took over the rest, or the peek.
                let s = nth(after, pos);
                if s is Host {
                    if point.2 == SuspKind::GuardedRecv {
                        assert(s == whole.stmts[i + pos.1]);
                    } else {
                        assert(s == whole.stmts[i + 1 + pos.1]);
                    }
                }
                assert(false);
            }
        }
    }
    assert forall|pos: (B, int)| fenced(reading, before, pos) && !gone(pos) implies #[trigger] fenced(
        reading,
        after,
        pos,
    ) by {
        assert(before.has(pos.0));
        if pos.0 == b {
            assert(pos.1 <= i);
            assert(pos.1 != i);
        }
    }
}

/// The first `n` of the points, as far as they are yields.
pub open spec fn yields_at<B>(points: Seq<(B, usize, SuspKind)>, n: int) -> Places<B> {
    |pos: (B, int)|
        exists|k: int|
            0 <= k < n && (#[trigger] points[k]).2 == SuspKind::Yield && pos == (
                points[k].0,
                points[k].1 as int,
            )
}

proof fn lemma_suspended_all_left<B: CfgId, L: CfgId>(
    reading: Reading,
    before: Body<B, L>,
    after: Body<B, L>,
    points: Seq<(B, usize, SuspKind)>,
    n: nat,
    m: Machine<B, L>,
    entries: Seq<B>,
)
    requires
        suspended_all(before, after, points, n, m, entries),
        n <= points.len(),
        points_apart(reading, before, points),
        tidy(reading, before),
    ensures
        fences_left(reading, before, after, yields_at(points, n as int)),
    decreases n,
{
    if n > 0 {
        let mid = choose|mid: Body<B, L>|
            suspended_all(before, mid, points, (n - 1) as nat, m, entries) && #[trigger] suspended(
                mid,
                after,
                points[n - 1],
                n as i64,
                m,
                entries[n as int],
            );
        lemma_suspended_all_left(reading, before, mid, points, (n - 1) as nat, m, entries);
        assert forall|k: int| 0 <= k < points.len() implies before.has((#[trigger] points[k]).0) by {
            assert(before.at((points[k].0, points[k].1)));
        }
        lemma_suspended_all_keeps(before, mid, points, (n - 1) as nat, m, entries);
        let q = points[n - 1];
        assert(before.at((q.0, q.1)));
        assert(before.has(q.0));
        assert(mid.blocks[q.0] == before.blocks[q.0]);
        lemma_suspended_left(reading, mid, after, q, n as i64, m, entries[n as int]);
        let first = yields_at(points, n - 1);
        let second = |pos: (B, int)| q.2 == SuspKind::Yield && pos == (q.0, q.1 as int);
        let both = yields_at(points, n as int);
        assert forall|pos: (B, int)| #[trigger] both(pos) == (first(pos) || second(pos)) by {
            if second(pos) {
                assert(points[n - 1].2 == SuspKind::Yield);
            }
        }
        lemma_left_compose(reading, before, mid, after, first, second, both);
    }
}

/// Rewriting a coroutine erases its yields, and nothing else that is to be erased.
pub proof fn lemma_machine_left<B: CfgId, L: CfgId>(
    reading: Reading,
    before: Body<B, L>,
    after: Body<B, L>,
    c: Coroutine<B>,
    points: Seq<(B, usize, SuspKind)>,
    m: Machine<B, L>,
)
    requires
        before.has(c.end.0),
        machine_built(before, after, c, points, m),
        points_apart(reading, before, points),
        tidy(reading, before),
    ensures
        fences_left(reading, before, after, yields_at(points, points.len() as int)),
{
    let opened = choose|mid: Body<B, L>| #[trigger]
        machine_opened(before, mid, m) && if points.len() == 0 {
            plain_machine(mid, after, c, m)
        } else {
            switch_machine(mid, after, c, points, m)
        };
    let d = after.order.last();
    let gone = yields_at(points, points.len() as int);
    assert(padded(before, opened));
    lemma_padded_left(reading, before, opened);
    if points.len() == 0 {
        let is_done = after.locals.last().0;
        let check = Stmt::EqCheckI64 { dest: is_done, lhs: m.state_local, rhs: DONE_STATE };
        let a1 = opened.add_block(d, m.done_block()).with_local(is_done, LocalKind::Bool);
        assert(padded(opened, a1));
        let a2 = a1.append(m.dispatch_bb, check);
        lemma_padded_append(a1, m.dispatch_bb, check);
        let branch = Term::Branch { cond: is_done, yes: m.exit_bb, no: c.begin.0 };
        let a3 = a2.end_with(m.dispatch_bb, branch);
        lemma_padded_end(a2, m.dispatch_bb, branch);
        lemma_padded_end(a3, c.end.0, Term::Goto(d));
        lemma_padded_compose(opened, a1, a2);
        lemma_padded_compose(opened, a2, a3);
        lemma_padded_compose(opened, a3, after);
        lemma_padded_left(reading, opened, after);
        lemma_left_compose(reading, before, opened, after, nowhere(), nowhere(), gone);
    } else {
        let (mid, entries) = choose|mid: Body<B, L>, entries: Seq<B>|
            #![trigger suspended_all(opened, mid, points, points.len(), m, entries)]
            {
                &&& entries.len() == points.len() + 1
                &&& entries[0] == c.begin.0
                &&& suspended_all(opened, mid, points, points.len(), m, entries)
                &&& !mid.has(d)
                &&& after == mid.add_block(d, m.done_block()).end_with(
                    c.end.0,
                    Term::Goto(d),
                ).end_with(
                    m.dispatch_bb,
                    Term::Switch {
                        discr: m.state_local,
                        targets: arms(entries),
                        otherwise: m.exit_bb,
                    },
                )
            };
        assert forall|k: int| 0 <= k < points.len() implies opened.at(
            ((#[trigger] points[k]).0, points[k].1),
        ) && opened.has(points[k].0) && opened.stmt((points[k].0, points[k].1)) == before.stmt(
            (points[k].0, points[k].1),
        ) by {
            assert(before.at((points[k].0, points[k].1)));
        }
        assert(points_apart(reading, opened, points));
        assert(tidy(reading, opened)) by {
            assert forall|b: B| #[trigger] opened.has(b) implies tidy_stmts(
                reading,
                opened.blocks[b].stmts,
            ) by {
                if before.has(b) {
                    assert(opened.blocks[b] == before.blocks[b]);
                }
            }
        }
        lemma_suspended_all_left(reading, opened, mid, points, points.len(), m, entries);
        lemma_suspended_all_keeps(opened, mid, points, points.len(), m, entries);
        assert(opened.has(m.dispatch_bb) && opened.has(c.end.0));
        assert(mid.has(c.end.0) && mid.has(m.dispatch_bb));
        let a1 = mid.add_block(d, m.done_block());
        lemma_padded_add(mid, d, m.done_block());
        let a2 = a1.end_with(c.end.0, Term::Goto(d));
        lemma_padded_end(a1, c.end.0, Term::Goto(d));
        lemma_padded_end(a2, m.dispatch_bb, after.blocks[m.dispatch_bb].term);
        lemma_padded_compose(mid, a1, a2);
        lemma_padded_compose(mid, a2, after);
        lemma_padded_left(reading, mid, after);
        lemma_left_compose(reading, before, opened, mid, nowhere(), gone, gone);
        lemma_left_compose(reading, before, mid, after, gone, nowhere(), gone);
    }
}

proof fn lemma_opened_padded<B: CfgId, L: CfgId>(
    before: Body<B, L>,
    opened: Body<B, L>,
    r: RegionView<B>,
    pass: Pass<B, L>,
)
    requires
        before.has(r.region_end.0),
        pass_opened(before, opened, r, pass),
    ensures
        padded(before, opened),
        opened.has(pass.top),
        forall|b: B| #[trigger] before.has(b) ==> opened.has(b),
{
    let end = r.region_end.0;
    let top = Block {
        stmts: seq![Stmt::AssignBool { local: pass.all_done, flag: true }],
        term: Term::Unset,
    };
    let exit = Block::<B, L>::bare(Term::Goto(pass.post));
    let post = Block::<B, L>::bare(before.blocks[end].term);
    let b1 = before.add_block(pass.top, top);
    let b2 = b1.add_block(pass.exit, exit);
    let b3 = b2.add_block(pass.post, post);
    lemma_padded_add(before, pass.top, top);
    lemma_padded_add(b1, pass.exit, exit);
    lemma_padded_add(b2, pass.post, post);
    lemma_padded_compose(before, b1, b2);
    lemma_padded_compose(before, b2, b3);
    assert(padded(b3, opened));
    lemma_padded_compose(before, b3, opened);
}

proof fn lemma_polled_padded<B: CfgId, L: CfgId>(
    before: Body<B, L>,
    after: Body<B, L>,
    m: Machine<B, L>,
    check: B,
    next: B,
    all_done: L,
)
    requires
        before.wf(),
        before.has(check),
        before.has(m.exit_bb),
        machine_polled(before, after, m, check, next, all_done),
    ensures
        padded(before, after),
{
    let n = before.order.len() as int;
    let polled = after.order[n];
    let done = after.order[n + 1];
    let pending = after.order[n + 2];
    assert(after.order[n + 3] == next);
    assert forall|b: B| #[trigger] before.has(b) implies b != polled && b != done && b != pending
        && b != next by {
        assert(before.order.contains(b));
        let k = before.order.index_of(b);
        assert(after.order[k] == b);
    }
}

proof fn lemma_pass_padded<B: CfgId, L: CfgId>(
    before: Body<B, L>,
    after: Body<B, L>,
    machines: Seq<Machine<B, L>>,
    n: nat,
    top: B,
    last: B,
    all_done: L,
)
    requires
        before.wf(),
        before.has(top),
        n <= machines.len(),
        forall|k: int| 0 <= k < machines.len() ==> before.has((#[trigger] machines[k]).exit_bb),
        machines_polled(before, after, machines, n, top, last, all_done),
    ensures
        padded(before, after),
    decreases n,
{
    if n == 1 {
        assert(before.has(machines[0].exit_bb));
        lemma_polled_padded(before, after, machines[0], top, last, all_done);
    } else if n > 1 {
        let (mid, prev, check) = choose|mid: Body<B, L>, prev: B, check: B|
            {
                &&& machines_polled(before, mid, machines, (n - 1) as nat, top, prev, all_done)
                &&& !mid.has(check)
                &&& #[trigger] machine_polled(
                    mid.with_block(check).end_with(prev, Term::Goto(check)),
                    after,
                    machines[n - 1],
                    check,
                    last,
                    all_done,
                )
            };
        lemma_pass_padded(before, mid, machines, (n - 1) as nat, top, prev, all_done);
        lemma_pass_tally(any_tag(), before, mid, machines, (n - 1) as nat, top, prev, all_done);
        let open = mid.with_block(check);
        let linked = open.end_with(prev, Term::Goto(check));
        lemma_add_block_wf(mid, check, Block::blank());
        lemma_set_block_wf(open, prev, open.blocks[prev].ending(Term::Goto(check)));
        lemma_padded_add(mid, check, Block::blank());
        lemma_padded_end(open, prev, Term::Goto(check));
        assert(before.has(machines[n - 1].exit_bb));
        assert(mid.has(machines[n - 1].exit_bb));
        lemma_polled_padded(linked, after, machines[n - 1], check, last, all_done);
        lemma_padded_compose(before, mid, open);
        lemma_padded_compose(before, open, linked);
        lemma_padded_compose(before, linked, after);
    }
}

proof fn lemma_coroutines_left<B: CfgId, L: CfgId>(
    reading: Reading,
    body: Body<B, L>,
    cs: Seq<Coroutine<B>>,
    n: nat,
)
    requires
        n <= cs.len(),
        forall|j: int|
            0 <= j < cs.len() ==> body.at((#[trigger] cs[j]).begin) && body.at(cs[j].end),
    ensures
        fences_left(
            reading,
            body,
            coroutines_erased(body, cs, n),
            |pos: (B, int)|
                exists|j: int|
                    0 <= j < n && (spot((#[trigger] cs[j]).begin) == pos || spot(cs[j].end) == pos),
        ),
        forall|at: (B, usize)| #[trigger] body.at(at) ==> coroutines_erased(body, cs, n).at(at),
        forall|b: B| #[trigger] body.has(b) <==> coroutines_erased(body, cs, n).has(b),
        forall|b: B| #[trigger]
            body.has(b) ==> coroutines_erased(body, cs, n).blocks[b].stmts.len()
                == body.blocks[b].stmts.len(),
    decreases n,
{
    let gone = |pos: (B, int)|
        exists|j: int| 0 <= j < n && (spot((#[trigger] cs[j]).begin) == pos || spot(cs[j].end) == pos);
    if n == 0 {
        assert(padded(body, body));
        lemma_padded_left(reading, body, body);
        lemma_left_compose(reading, body, body, body, nowhere(), nowhere(), gone);
    } else {
        lemma_coroutines_left(reading, body, cs, (n - 1) as nat);
        let prev = coroutines_erased(body, cs, (n - 1) as nat);
        let fewer = |pos: (B, int)|
            exists|j: int| 0 <= j < n - 1 && (spot((#[trigger] cs[j]).begin) == pos || spot(cs[j].end) == pos);
        let c = cs[n - 1];
        assert(body.at(c.begin) && body.at(c.end));
        let mid = prev.erase(c.begin);
        let after = mid.erase(c.end);
        let at_begin = |pos: (B, int)| pos == spot(c.begin);
        let at_end = |pos: (B, int)| pos == spot(c.end);
        let either = |pos: (B, int)| pos == spot(c.begin) || pos == spot(c.end);
        lemma_erase_left(reading, prev, c.begin);
        assert(mid.at(c.end));
        lemma_erase_left(reading, mid, c.end);
        lemma_left_compose(reading, prev, mid, after, at_begin, at_end, either);
        assert forall|pos: (B, int)| #[trigger] gone(pos) == (fewer(pos) || either(pos)) by {
            if either(pos) {
                assert(spot(cs[n - 1].begin) == pos || spot(cs[n - 1].end) == pos);
            }
        }
        lemma_left_compose(reading, body, prev, after, fewer, either, gone);
        assert forall|at: (B, usize)| #[trigger] body.at(at) implies after.at(at) by {
            assert(prev.at(at));
        }
        assert forall|b: B| #[trigger] body.has(b) <==> after.has(b) by {
            assert(body.has(b) <==> prev.has(b));
        }
        assert forall|b: B| #[trigger] body.has(b) implies after.blocks[b].stmts.len()
            == body.blocks[b].stmts.len() by {
            assert(prev.has(b));
        }
    }
}

proof fn lemma_zeroed_padded<B: CfgId, L: CfgId>(
    body: Body<B, L>,
    machines: Seq<Machine<B, L>>,
    n: nat,
    b: B,
)
    requires
        body.has(b),
    ensures
        padded(body, states_zeroed(body, machines, n, b)),
        states_zeroed(body, machines, n, b).has(b),
    decreases n,
{
    if n > 0 {
        lemma_zeroed_padded(body, machines, (n - 1) as nat, b);
        let prev = states_zeroed(body, machines, (n - 1) as nat, b);
        let s = Stmt::AssignI64 { local: machines[n - 1].state_local, value: 0 };
        lemma_padded_append(prev, b, s);
        lemma_padded_compose(body, prev, prev.append(b, s));
    }
}

/// Closing a region erases its own markers. What it moves is clear of others.
proof fn lemma_closed_left<B: CfgId, L: CfgId>(
    reading: Reading,
    body: Body<B, L>,
    r: RegionView<B>,
    machines: Seq<Machine<B, L>>,
    top: B,
    entry: B,
)
    requires
        !body.has(entry),
        body.at(r.region_begin),
        body.at(r.region_end),
        forall|j: int|
            0 <= j < r.coroutines.len() ==> body.at((#[trigger] r.coroutines[j]).begin) && body.at(
                r.coroutines[j].end,
            ),
        machines.len() > 0 ==> body.has(machines[0].dispatch_bb),
        clear_tail(reading, body, r),
    ensures
        fences_left(
            reading,
            body,
            region_closed(body, r, machines, top, entry),
            region_place(r),
        ),
{
    let open_bb = r.region_begin.0;
    let c = coroutines_erased(body, r.coroutines, r.coroutines.len());
    lemma_coroutines_left(reading, body, r.coroutines, r.coroutines.len());
    let inner = |pos: (B, int)|
        exists|j: int|
            0 <= j < r.coroutines.len() && (spot((#[trigger] r.coroutines[j]).begin) == pos
                || spot(r.coroutines[j].end) == pos);
    assert(c.at(r.region_begin) && c.at(r.region_end));
    let d = c.erase(r.region_begin);
    lemma_erase_left(reading, c, r.region_begin);
    assert(d.at(r.region_end));
    let erased = d.erase(r.region_end);
    lemma_erase_left(reading, d, r.region_end);
    assert(erased == region_erased(body, r));
    let at_begin = |pos: (B, int)| pos == spot(r.region_begin);
    let at_end = |pos: (B, int)| pos == spot(r.region_end);
    let so_far = |pos: (B, int)| inner(pos) || pos == spot(r.region_begin);
    lemma_left_compose(reading, body, c, d, inner, at_begin, so_far);
    lemma_left_compose(reading, body, d, erased, so_far, at_end, region_place(r));

    let i = r.region_begin.1 as int;
    let whole = erased.blocks[open_bb].stmts;
    let split = erased.split(open_bb, i, entry);
    assert(body.has(entry) <==> c.has(entry));
    assert(erased.at(r.region_begin));
    assert(body.has(open_bb));
    assert forall|k: int| i < k < whole.len() implies !is_fence(
        mark_of(reading, #[trigger] whole[k]),
    ) by {
        let pos = (open_bb, k);
        if is_fence(mark_of(reading, whole[k])) {
            assert(fenced(reading, erased, pos));
            assert(fenced(reading, body, pos));
        }
    }
    assert(fences_left(reading, erased, split, nowhere())) by {
        assert forall|pos: (B, int)| #[trigger] fenced(reading, split, pos) implies fenced(
            reading,
            erased,
            pos,
        ) && nth(split, pos) == nth(erased, pos) by {
            if pos.0 == entry {
                assert(nth(split, pos) == whole[i + 1 + pos.1]);
            }
        }
        assert forall|pos: (B, int)| fenced(reading, erased, pos) implies #[trigger] fenced(
            reading,
            split,
            pos,
        ) by {
            assert(pos.0 != entry);
            if pos.0 == open_bb {
                assert(nth(erased, pos) == whole[pos.1]);
                assert(pos.1 <= i);
            }
        }
    }
    let retargeted = if machines.len() > 0 && r.coroutines.len() > 0
        && r.coroutines[0].begin.0 == open_bb {
        let dispatch = machines[0].dispatch_bb;
        split.end_with(dispatch, split.blocks[dispatch].term.redirected(open_bb, entry))
    } else {
        split
    };
    assert(padded(split, retargeted)) by {
        if machines.len() > 0 && r.coroutines.len() > 0 && r.coroutines[0].begin.0 == open_bb {
            let dispatch = machines[0].dispatch_bb;
            assert(body.has(dispatch) <==> c.has(dispatch));
            assert(split.has(dispatch));
            lemma_padded_end(
                split,
                dispatch,
                split.blocks[dispatch].term.redirected(open_bb, entry),
            );
        }
    }
    assert(retargeted.has(open_bb));
    lemma_zeroed_padded(retargeted, machines, machines.len(), open_bb);
    let zeroed = states_zeroed(retargeted, machines, machines.len(), open_bb);
    let after = zeroed.end_with(open_bb, Term::Goto(top));
    lemma_padded_end(zeroed, open_bb, Term::Goto(top));
    lemma_padded_compose(split, retargeted, zeroed);
    lemma_padded_compose(split, zeroed, after);
    lemma_padded_left(reading, split, after);
    lemma_left_compose(reading, body, erased, split, region_place(r), nowhere(), region_place(r));
    lemma_left_compose(reading, body, split, after, region_place(r), nowhere(), region_place(r));
}

/// The pass opened and walked, up to its last check.
proof fn lemma_walk_padded<B: CfgId, L: CfgId>(
    before: Body<B, L>,
    opened: Body<B, L>,
    polled: Body<B, L>,
    r: RegionView<B>,
    machines: Seq<Machine<B, L>>,
    pass: Pass<B, L>,
    last: B,
)
    requires
        region_ready(before, r, machines),
        pass_opened(before, opened, r, pass),
        machines_polled(opened, polled, machines, machines.len(), pass.top, last, pass.all_done),
    ensures
        padded(before, polled),
{
    assert(before.at(r.region_end));
    lemma_opened_padded(before, opened, r, pass);
    lemma_opened_tally(any_tag(), before, opened, r, pass);
    assert forall|k: int| 0 <= k < machines.len() implies opened.has(
        (#[trigger] machines[k]).exit_bb,
    ) by {
        assert(before.has(machines[k].exit_bb));
    }
    lemma_pass_padded(opened, polled, machines, machines.len(), pass.top, last, pass.all_done);
    lemma_padded_compose(before, opened, polled);
}

/// What closes a region that has been padded closes it as it was.
proof fn lemma_close_padded<B: CfgId, L: CfgId>(
    reading: Reading,
    before: Body<B, L>,
    looped: Body<B, L>,
    r: RegionView<B>,
    machines: Seq<Machine<B, L>>,
    top: B,
    entry: B,
)
    requires
        region_ready(before, r, machines),
        padded(before, looped),
        !looped.has(entry),
        machines.len() > 0 ==> looped.has(machines[0].dispatch_bb),
        clear_tail(reading, before, r),
    ensures
        fences_left(
            reading,
            before,
            region_closed(looped, r, machines, top, entry),
            region_place(r),
        ),
{
    let after = region_closed(looped, r, machines, top, entry);
    lemma_padded_left(reading, before, looped);
    assert(before.at(r.region_begin) && before.at(r.region_end));
    assert(before.has(r.region_begin.0) && before.has(r.region_end.0));
    assert forall|j: int| 0 <= j < r.coroutines.len() implies looped.at(
        (#[trigger] r.coroutines[j]).begin,
    ) && looped.at(r.coroutines[j].end) by {
        assert(before.at(r.coroutines[j].begin) && before.at(r.coroutines[j].end));
        assert(before.has(r.coroutines[j].begin.0) && before.has(r.coroutines[j].end.0));
    }
    assert(clear_tail(reading, looped, r)) by {
        assert forall|pos: (B, int)| #[trigger]
            fenced(reading, looped, pos) && pos.0 == r.region_begin.0 && pos.1
                > r.region_begin.1 implies region_place(r)(pos) by {
            assert(fenced(reading, before, pos));
        }
    }
    lemma_closed_left(reading, looped, r, machines, top, entry);
    lemma_left_compose(reading, before, looped, after, nowhere(), region_place(r), region_place(r));
}

/// The cooperative loop erases the region's own markers, and leaves the others.
pub proof fn lemma_cooperative_left<B: CfgId, L: CfgId>(
    reading: Reading,
    before: Body<B, L>,
    after: Body<B, L>,
    r: RegionView<B>,
    machines: Seq<Machine<B, L>>,
)
    requires
        region_ready(before, r, machines),
        cooperative_loop(before, after, r, machines),
        clear_tail(reading, before, r),
    ensures
        fences_left(reading, before, after, region_place(r)),
{
    let (pass, opened, polled, last) = choose|
        pass: Pass<B, L>,
        opened: Body<B, L>,
        polled: Body<B, L>,
        last: B,
    |
        {
            &&& #[trigger] pass_opened(before, opened, r, pass)
            &&& #[trigger] machines_polled(
                opened,
                polled,
                machines,
                machines.len(),
                pass.top,
                last,
                pass.all_done,
            )
            &&& !polled.has(after.order.last())
            &&& after == region_closed(
                polled.end_with(
                    last,
                    Term::Branch { cond: pass.all_done, yes: pass.exit, no: pass.top },
                ),
                r,
                machines,
                pass.top,
                after.order.last(),
            )
        };
    lemma_walk(any_tag(), before, opened, polled, r, machines, pass, last);
    lemma_walk_padded(before, opened, polled, r, machines, pass, last);
    let branch = Term::Branch { cond: pass.all_done, yes: pass.exit, no: pass.top };
    let looped = polled.end_with(last, branch);
    lemma_padded_end(polled, last, branch);
    lemma_padded_compose(before, polled, looped);
    lemma_close_padded(reading, before, looped, r, machines, pass.top, after.order.last());
}

/// The waker pass erases the region's own markers, and leaves the others.
pub proof fn lemma_waker_left<B: CfgId, L: CfgId>(
    reading: Reading,
    before: Body<B, L>,
    after: Body<B, L>,
    r: RegionView<B>,
    machines: Seq<Machine<B, L>>,
    exits: RegionExits<B>,
)
    requires
        region_ready(before, r, machines),
        waker_pass(before, after, r, machines, exits),
        clear_tail(reading, before, r),
    ensures
        fences_left(reading, before, after, region_place(r)),
{
    let (pass, opened, polled, last) = choose|
        pass: Pass<B, L>,
        opened: Body<B, L>,
        polled: Body<B, L>,
        last: B,
    |
        {
            &&& #[trigger] pass_opened(before, opened, r, pass)
            &&& #[trigger] machines_polled(
                opened,
                polled,
                machines,
                machines.len(),
                pass.top,
                last,
                pass.all_done,
            )
            &&& exits.done == pass.exit
            &&& !polled.has(exits.pending)
            &&& !polled.with_block(exits.pending).has(after.order.last())
            &&& after == region_closed(
                polled.with_block(exits.pending).end_with(
                    last,
                    Term::Branch { cond: pass.all_done, yes: pass.exit, no: exits.pending },
                ),
                r,
                machines,
                pass.top,
                after.order.last(),
            )
        };
    lemma_walk(any_tag(), before, opened, polled, r, machines, pass, last);
    lemma_walk_padded(before, opened, polled, r, machines, pass, last);
    let branch = Term::Branch { cond: pass.all_done, yes: pass.exit, no: exits.pending };
    let waiting = polled.with_block(exits.pending);
    lemma_padded_add(polled, exits.pending, Block::blank());
    let looped = waiting.end_with(last, branch);
    lemma_padded_end(waiting, last, branch);
    lemma_padded_compose(before, polled, waiting);
    lemma_padded_compose(before, waiting, looped);
    lemma_close_padded(reading, before, looped, r, machines, pass.top, after.order.last());
}

} // verus!
