//! What a rewrite keeps: a statement of the host's that is not erased is still
//! there, as often as it was.
use vstd::prelude::*;

use crate::stackless::executor::{
    cooperative_loop, coroutines_erased, machine_polled, machines_polled, pass_opened,
    region_closed, region_erased, region_ready, states_zeroed, waker_pass, Pass, RegionExits,
};
use crate::stackless::machine::{
    lemma_suspended_all_keeps, machine_built, machine_opened, plain_machine, points_apart,
    suspended, suspended_all, switch_machine, Machine, DONE_STATE,
};
use crate::stackless::model::{
    lemma_add_block_wf, lemma_set_block_wf, Block, Body, LocalKind, Stmt, Term,
};
use crate::stackless::scan::{Coroutine, Reading, RegionView, SuspKind};
use crate::stackless::shed::hostless;
use crate::stackless::tally::{
    counts, lemma_tally_cut, lemma_tally_push, lemma_tally_update, lemma_total_add,
    lemma_total_set, tally, tally_body, Tags,
};
use crate::vocab::{CfgId, Marker};

verus! {

/// The host's statements that the transform is not to erase: all but yields and
/// the markers that delimit regions and coroutines.
pub open spec fn user_tags(reading: Reading) -> Tags {
    |tag: int|
        match reading(tag) {
            None => true,
            Some(Marker::GuardedRecv) => true,
            Some(Marker::ProducingSend) => true,
            _ => false,
        }
}

/// None of the chosen statements is a marker of the region.
pub open spec fn spared<B: CfgId, L: CfgId>(p: Tags, body: Body<B, L>, r: RegionView<B>) -> bool {
    &&& !counts(p, body.stmt(r.region_begin))
    &&& !counts(p, body.stmt(r.region_end))
    &&& forall|j: int|
        0 <= j < r.coroutines.len() ==> !counts(p, body.stmt((#[trigger] r.coroutines[j]).begin))
            && !counts(p, body.stmt(r.coroutines[j].end))
}

pub proof fn lemma_none<L>(p: Tags, stmts: Seq<Stmt<L>>)
    requires
        hostless(stmts),
    ensures
        tally(p, stmts) == 0,
    decreases stmts.len(),
{
    if stmts.len() > 0 {
        lemma_none(p, stmts.drop_last());
    }
}

proof fn lemma_keep_add<B, L>(p: Tags, body: Body<B, L>, b: B, block: Block<B, L>)
    requires
        body.wf(),
        !body.has(b),
        hostless(block.stmts),
    ensures
        body.add_block(b, block).wf(),
        tally_body(p, body.add_block(b, block)) == tally_body(p, body),
{
    lemma_none(p, block.stmts);
    lemma_add_block_wf(body, b, block);
    lemma_total_add(p, body, b, block);
}

proof fn lemma_keep_set<B, L>(p: Tags, body: Body<B, L>, b: B, block: Block<B, L>)
    requires
        body.wf(),
        body.has(b),
        tally(p, block.stmts) == tally(p, body.blocks[b].stmts),
    ensures
        body.set_block(b, block).wf(),
        tally_body(p, body.set_block(b, block)) == tally_body(p, body),
{
    lemma_set_block_wf(body, b, block);
    lemma_total_set(p, body, b, block);
}

proof fn lemma_keep_end<B, L>(p: Tags, body: Body<B, L>, b: B, term: Term<B, L>)
    requires
        body.wf(),
        body.has(b),
    ensures
        body.end_with(b, term).wf(),
        tally_body(p, body.end_with(b, term)) == tally_body(p, body),
{
    lemma_keep_set(p, body, b, body.blocks[b].ending(term));
}

proof fn lemma_keep_append<B, L>(p: Tags, body: Body<B, L>, b: B, s: Stmt<L>)
    requires
        body.wf(),
        body.has(b),
        !(s is Host),
    ensures
        body.append(b, s).wf(),
        tally_body(p, body.append(b, s)) == tally_body(p, body),
{
    lemma_tally_push(p, body.blocks[b].stmts, s);
    lemma_keep_set(p, body, b, body.append(b, s).blocks[b]);
}

proof fn lemma_keep_erase<B, L>(p: Tags, body: Body<B, L>, pos: (B, usize))
    requires
        body.wf(),
        body.at(pos),
        !counts(p, body.stmt(pos)),
    ensures
        body.erase(pos).wf(),
        tally_body(p, body.erase(pos)) == tally_body(p, body),
{
    lemma_tally_update(p, body.blocks[pos.0].stmts, pos.1 as int, Stmt::Nop);
    lemma_keep_set(p, body, pos.0, body.erase(pos).blocks[pos.0]);
}

/// A block's statements shared out between it and a new block.
proof fn lemma_keep_move<B, L>(
    p: Tags,
    body: Body<B, L>,
    b: B,
    kept_block: Block<B, L>,
    tail: B,
    tail_block: Block<B, L>,
)
    requires
        body.wf(),
        body.has(b),
        !body.has(tail),
        tally(p, kept_block.stmts) + tally(p, tail_block.stmts) == tally(
            p,
            body.blocks[b].stmts,
        ),
    ensures
        body.add_block(tail, tail_block).set_block(b, kept_block).wf(),
        tally_body(p, body.add_block(tail, tail_block).set_block(b, kept_block)) == tally_body(
            p,
            body,
        ),
{
    let mid = body.add_block(tail, tail_block);
    lemma_add_block_wf(body, tail, tail_block);
    lemma_total_add(p, body, tail, tail_block);
    lemma_set_block_wf(mid, b, kept_block);
    lemma_total_set(p, mid, b, kept_block);
}

proof fn lemma_keep_split<B, L>(p: Tags, body: Body<B, L>, b: B, i: int, tail: B)
    requires
        body.wf(),
        body.has(b),
        !body.has(tail),
        0 <= i < body.blocks[b].stmts.len(),
    ensures
        body.split(b, i, tail).wf(),
        tally_body(p, body.split(b, i, tail)) == tally_body(p, body),
{
    let whole = body.blocks[b];
    lemma_tally_cut(p, whole.stmts, i + 1);
    lemma_keep_move(
        p,
        body,
        b,
        Block { stmts: whole.stmts.take(i + 1), term: Term::Unset },
        tail,
        Block { stmts: whole.stmts.skip(i + 1), term: whole.term },
    );
}

/// Ending a turn at a suspension point erases a yield, and nothing else.
proof fn lemma_suspended_keeps<B: CfgId, L: CfgId>(
    p: Tags,
    before: Body<B, L>,
    after: Body<B, L>,
    point: (B, usize, SuspKind),
    state: i64,
    m: Machine<B, L>,
    entry: B,
)
    requires
        before.wf(),
        before.at((point.0, point.1)),
        suspended(before, after, point, state, m, entry),
        point.2 == SuspKind::Yield ==> !counts(p, before.stmt((point.0, point.1))),
    ensures
        after.wf(),
        tally_body(p, after) == tally_body(p, before),
{
    let b = point.0;
    let i = point.1 as int;
    let whole = before.blocks[b];
    let y = after.order[before.order.len() as int];
    let yielding = before.add_block(y, m.yield_block(state));
    lemma_keep_add(p, before, y, m.yield_block(state));
    lemma_tally_cut(p, whole.stmts, i);
    lemma_tally_cut(p, whole.stmts, i + 1);
    match point.2 {
        SuspKind::Yield => {
            let rest = Block { stmts: whole.stmts.skip(i + 1), term: whole.term };
            let head = Block {
                stmts: whole.stmts.take(i).push(Stmt::Nop),
                term: Term::Goto(y),
            };
            lemma_tally_push(p, whole.stmts.take(i), Stmt::Nop);
            assert(whole.stmts.take(i + 1) =~= whole.stmts.take(i).push(whole.stmts[i]));
            lemma_tally_push(p, whole.stmts.take(i), whole.stmts[i]);
            lemma_keep_move(p, yielding, b, head, entry, rest);
        },
        SuspKind::ProducingSend => {
            let rest = Block { stmts: whole.stmts.skip(i + 1), term: whole.term };
            let head = Block { stmts: whole.stmts.take(i + 1), term: Term::Goto(y) };
            lemma_keep_move(p, yielding, b, head, entry, rest);
        },
        SuspKind::GuardedRecv => {
            let r = after.order.last();
            let ready = after.blocks[entry].term->cond;
            let slot = Block {
                stmts: seq![Stmt::Peek { dest: ready }],
                term: Term::Branch { cond: ready, yes: r, no: y },
            };
            let rest = Block { stmts: whole.stmts.skip(i), term: whole.term };
            lemma_none(p, slot.stmts);
            let want = if i == 0 {
                assert(whole.stmts.take(0) =~= Seq::empty());
                lemma_keep_move(p, yielding, b, slot, r, rest);
                yielding.add_block(r, rest).set_block(b, slot)
            } else {
                let head = Block { stmts: whole.stmts.take(i), term: Term::Goto(entry) };
                let peeking = yielding.add_block(entry, slot);
                lemma_keep_add(p, yielding, entry, slot);
                lemma_keep_move(p, peeking, b, head, r, rest);
                peeking.add_block(r, rest).set_block(b, head)
            };
            assert(want.order == after.order && want.blocks == after.blocks);
            lemma_same_wf(want, after);
        },
    }
}

/// Only the blocks and the listing count.
proof fn lemma_same_wf<B, L>(a: Body<B, L>, b: Body<B, L>)
    requires
        a.wf(),
        a.order == b.order,
        a.blocks == b.blocks,
    ensures
        b.wf(),
{
    assert forall|x: B| #[trigger] b.order.contains(x) <==> b.has(x) by {
        assert(a.order.contains(x) <==> a.has(x));
    }
}

proof fn lemma_suspended_all_tally<B: CfgId, L: CfgId>(
    p: Tags,
    before: Body<B, L>,
    after: Body<B, L>,
    points: Seq<(B, usize, SuspKind)>,
    n: nat,
    m: Machine<B, L>,
    entries: Seq<B>,
)
    requires
        before.wf(),
        suspended_all(before, after, points, n, m, entries),
        n <= points.len(),
        forall|k: int|
            0 <= k < points.len() ==> before.at(((#[trigger] points[k]).0, points[k].1)),
        forall|j: int, k: int|
            0 <= j < k < points.len() ==> (#[trigger] points[j]).0 != (#[trigger] points[k]).0,
        forall|k: int|
            0 <= k < points.len() && (#[trigger] points[k]).2 == SuspKind::Yield ==> !counts(
                p,
                before.stmt((points[k].0, points[k].1)),
            ),
    ensures
        after.wf(),
        tally_body(p, after) == tally_body(p, before),
    decreases n,
{
    if n > 0 {
        let mid = choose|mid: Body<B, L>|
            suspended_all(before, mid, points, (n - 1) as nat, m, entries) && #[trigger] suspended(
                mid,
                after,
                points[n - 1],
                n as i64,
                m,
                entries[n as int],
            );
        lemma_suspended_all_tally(p, before, mid, points, (n - 1) as nat, m, entries);
        assert forall|k: int| 0 <= k < points.len() implies before.has((#[trigger] points[k]).0) by {
            assert(before.at((points[k].0, points[k].1)));
        }
        lemma_suspended_all_keeps(before, mid, points, (n - 1) as nat, m, entries);
        let q = points[n - 1];
        assert(before.at((q.0, q.1)));
        assert(before.has(q.0));
        assert(mid.blocks[q.0] == before.blocks[q.0]);
        lemma_suspended_keeps(p, mid, after, q, n as i64, m, entries[n as int]);
    }
}

/// Rewriting a coroutine erases its yields, and nothing else.
pub proof fn lemma_machine_keeps<B: CfgId, L: CfgId>(
    p: Tags,
    reading: Reading,
    before: Body<B, L>,
    after: Body<B, L>,
    c: Coroutine<B>,
    points: Seq<(B, usize, SuspKind)>,
    m: Machine<B, L>,
)
    requires
        before.wf(),
        before.has(c.end.0),
        machine_built(before, after, c, points, m),
        points_apart(reading, before, points),
        forall|k: int|
            0 <= k < points.len() && (#[trigger] points[k]).2 == SuspKind::Yield ==> !counts(
                p,
                before.stmt((points[k].0, points[k].1)),
            ),
    ensures
        tally_body(p, after) == tally_body(p, before),
{
    let opened = choose|mid: Body<B, L>| #[trigger]
        machine_opened(before, mid, m) && if points.len() == 0 {
            plain_machine(mid, after, c, m)
        } else {
            switch_machine(mid, after, c, points, m)
        };
    let one = before.with_block(m.dispatch_bb);
    lemma_keep_add(p, before, m.dispatch_bb, Block::blank());
    lemma_keep_add(p, one, m.exit_bb, Block::blank());
    let two = one.with_block(m.exit_bb);
    lemma_same_wf(two, opened);
    assert(opened.has(c.end.0));
    let d = after.order.last();
    if points.len() == 0 {
        let is_done = after.locals.last().0;
        let check = Stmt::EqCheckI64 { dest: is_done, lhs: m.state_local, rhs: DONE_STATE };
        let a1 = opened.add_block(d, m.done_block());
        lemma_keep_add(p, opened, d, m.done_block());
        let a2 = a1.with_local(is_done, LocalKind::Bool);
        lemma_same_wf(a1, a2);
        let a3 = a2.append(m.dispatch_bb, check);
        lemma_keep_append(p, a2, m.dispatch_bb, check);
        let branch = Term::Branch { cond: is_done, yes: m.exit_bb, no: c.begin.0 };
        let a4 = a3.end_with(m.dispatch_bb, branch);
        lemma_keep_end(p, a3, m.dispatch_bb, branch);
        lemma_keep_end(p, a4, c.end.0, Term::Goto(d));
    } else {
        let (mid, entries) = choose|mid: Body<B, L>, entries: Seq<B>|
            #![trigger suspended_all(opened, mid, points, points.len(), m, entries)]
            {
                &&& entries.len() == points.len() + 1
                &&& entries[0] == c.begin.0
                &&& suspended_all(opened, mid, points, points.len(), m, entries)
                &&& !mid.has(d)
                &&& after == mid.add_block(d, m.done_block()).end_with(
                    c.end.0,
                    Term::Goto(d),
                ).end_with(
                    m.dispatch_bb,
                    Term::Switch {
                        discr: m.state_local,
                        targets: crate::stackless::machine::arms(entries),
                        otherwise: m.exit_bb,
                    },
                )
            };
        assert forall|k: int| 0 <= k < points.len() implies opened.at(
            ((#[trigger] points[k]).0, points[k].1),
        ) && opened.has(points[k].0) && opened.stmt((points[k].0, points[k].1)) == before.stmt(
            (points[k].0, points[k].1),
        ) by {
            assert(before.at((points[k].0, points[k].1)));
        }
        lemma_suspended_all_tally(p, opened, mid, points, points.len(), m, entries);
        lemma_suspended_all_keeps(opened, mid, points, points.len(), m, entries);
        assert(opened.has(m.dispatch_bb));
        assert(mid.has(c.end.0) && mid.has(m.dispatch_bb));
        let a1 = mid.add_block(d, m.done_block());
        lemma_keep_add(p, mid, d, m.done_block());
        let a2 = a1.end_with(c.end.0, Term::Goto(d));
        lemma_keep_end(p, a1, c.end.0, Term::Goto(d));
        lemma_keep_end(p, a2, m.dispatch_bb, after.blocks[m.dispatch_bb].term);
    }
}

pub proof fn lemma_opened_tally<B: CfgId, L: CfgId>(
    p: Tags,
    before: Body<B, L>,
    opened: Body<B, L>,
    r: RegionView<B>,
    pass: Pass<B, L>,
)
    requires
        before.wf(),
        before.has(r.region_end.0),
        pass_opened(before, opened, r, pass),
    ensures
        opened.wf(),
        opened.has(pass.top),
        tally_body(p, opened) == tally_body(p, before),
        forall|b: B| #[trigger]
            before.has(b) ==> opened.has(b) && opened.blocks[b].stmts == before.blocks[b].stmts,
{
    let end = r.region_end.0;
    let top = Block {
        stmts: seq![Stmt::AssignBool { local: pass.all_done, flag: true }],
        term: Term::Unset,
    };
    let exit = Block::<B, L>::bare(Term::Goto(pass.post));
    let post = Block::<B, L>::bare(before.blocks[end].term);
    let b1 = before.add_block(pass.top, top);
    let b2 = b1.add_block(pass.exit, exit);
    let b3 = b2.add_block(pass.post, post);
    lemma_keep_add(p, before, pass.top, top);
    lemma_keep_add(p, b1, pass.exit, exit);
    lemma_keep_add(p, b2, pass.post, post);
    lemma_keep_set(p, b3, end, before.blocks[end].ending(Term::Unset));
    let b4 = b3.set_block(end, before.blocks[end].ending(Term::Unset));
    lemma_same_wf(b4, opened);
}

/// The statements that were there are still at their places.
pub open spec fn in_place<B, L>(before: Body<B, L>, after: Body<B, L>) -> bool {
    forall|pos: (B, usize)| #[trigger]
        before.at(pos) ==> after.at(pos) && after.stmt(pos) == before.stmt(pos)
}

proof fn lemma_polled_tally<B: CfgId, L: CfgId>(
    p: Tags,
    before: Body<B, L>,
    after: Body<B, L>,
    m: Machine<B, L>,
    check: B,
    next: B,
    all_done: L,
)
    requires
        before.wf(),
        before.has(check),
        before.has(m.exit_bb),
        machine_polled(before, after, m, check, next, all_done),
    ensures
        after.wf(),
        after.has(next),
        forall|b: B| #[trigger] before.has(b) ==> after.has(b),
        in_place(before, after),
        tally_body(p, after) == tally_body(p, before),
{
    let n = before.order.len() as int;
    let l = before.locals.len() as int;
    let polled = after.order[n];
    let done = after.order[n + 1];
    let pending = after.order[n + 2];
    let is_done = after.locals[l].0;
    let is_ready = after.locals[l + 1].0;
    assert(after.order[n + 3] == next);
    assert forall|b: B| #[trigger] before.has(b) implies b != polled && b != done && b != pending
        && b != next by {
        assert(before.order.contains(b));
        let k = before.order.index_of(b);
        assert(after.order[k] == b);
    }
    let eq = Stmt::EqCheckI64 { dest: is_done, lhs: m.state_local, rhs: DONE_STATE };
    let branch = Term::Branch { cond: is_done, yes: polled, no: m.dispatch_bb };
    let a1 = before.append(check, eq);
    lemma_keep_append(p, before, check, eq);
    let a2 = a1.end_with(check, branch);
    lemma_keep_end(p, a1, check, branch);
    let a3 = a2.end_with(m.exit_bb, Term::Goto(polled));
    lemma_keep_end(p, a2, m.exit_bb, Term::Goto(polled));
    let polled_block = Block {
        stmts: seq![Stmt::EqCheckI64 { dest: is_ready, lhs: m.poll_result_local, rhs: 0 }],
        term: Term::Branch { cond: is_ready, yes: done, no: pending },
    };
    let done_block = Block {
        stmts: seq![Stmt::AssignI64 { local: m.state_local, value: DONE_STATE }],
        term: Term::Goto(next),
    };
    let pending_block = Block {
        stmts: seq![Stmt::AssignBool { local: all_done, flag: false }],
        term: Term::Goto(next),
    };
    assert(!before.has(polled) && !before.has(done) && !before.has(pending) && !before.has(next));
    assert(polled != done && polled != pending && polled != next && done != pending && done != next
        && pending != next);
    let a4 = a3.add_block(polled, polled_block);
    lemma_keep_add(p, a3, polled, polled_block);
    let a5 = a4.add_block(done, done_block);
    lemma_keep_add(p, a4, done, done_block);
    let a6 = a5.add_block(pending, pending_block);
    lemma_keep_add(p, a5, pending, pending_block);
    let a7 = a6.with_block(next);
    lemma_keep_add(p, a6, next, Block::blank());
    assert(a7.order =~= after.order);
    assert(a7.blocks =~= after.blocks);
    lemma_same_wf(a7, after);
}

pub proof fn lemma_pass_tally<B: CfgId, L: CfgId>(
    p: Tags,
    before: Body<B, L>,
    after: Body<B, L>,
    machines: Seq<Machine<B, L>>,
    n: nat,
    top: B,
    last: B,
    all_done: L,
)
    requires
        before.wf(),
        before.has(top),
        n <= machines.len(),
        forall|k: int| 0 <= k < machines.len() ==> before.has((#[trigger] machines[k]).exit_bb),
        machines_polled(before, after, machines, n, top, last, all_done),
    ensures
        after.wf(),
        after.has(last),
        forall|b: B| #[trigger] before.has(b) ==> after.has(b),
        in_place(before, after),
        tally_body(p, after) == tally_body(p, before),
    decreases n,
{
    if n == 1 {
        assert(before.has(machines[0].exit_bb));
        lemma_polled_tally(p, before, after, machines[0], top, last, all_done);
    } else if n > 1 {
        let (mid, prev, check) = choose|mid: Body<B, L>, prev: B, check: B|
            {
                &&& machines_polled(before, mid, machines, (n - 1) as nat, top, prev, all_done)
                &&& !mid.has(check)
                &&& #[trigger] machine_polled(
                    mid.with_block(check).end_with(prev, Term::Goto(check)),
                    after,
                    machines[n - 1],
                    check,
                    last,
                    all_done,
                )
            };
        lemma_pass_tally(p, before, mid, machines, (n - 1) as nat, top, prev, all_done);
        let linked = mid.with_block(check).end_with(prev, Term::Goto(check));
        lemma_keep_add(p, mid, check, Block::blank());
        lemma_keep_end(p, mid.with_block(check), prev, Term::Goto(check));
        assert(before.has(machines[n - 1].exit_bb));
        assert(mid.has(machines[n - 1].exit_bb));
        lemma_polled_tally(p, linked, after, machines[n - 1], check, last, all_done);
        assert forall|b: B| #[trigger] before.has(b) implies after.has(b) by {
            assert(mid.has(b));
            assert(linked.has(b));
        }
        assert forall|pos: (B, usize)| #[trigger] before.at(pos) implies after.at(pos)
            && after.stmt(pos) == before.stmt(pos) by {
            assert(mid.at(pos));
            assert(linked.at(pos));
        }
    }
}

pub proof fn lemma_erased_tally<B: CfgId, L: CfgId>(
    p: Tags,
    body: Body<B, L>,
    cs: Seq<Coroutine<B>>,
    n: nat,
)
    requires
        body.wf(),
        n <= cs.len(),
        forall|j: int|
            0 <= j < cs.len() ==> body.at((#[trigger] cs[j]).begin) && body.at(cs[j].end)
                && !counts(p, body.stmt(cs[j].begin)) && !counts(p, body.stmt(cs[j].end)),
    ensures
        coroutines_erased(body, cs, n).wf(),
        forall|b: B| #[trigger] body.has(b) <==> coroutines_erased(body, cs, n).has(b),
        forall|pos: (B, usize)| #[trigger]
            body.at(pos) ==> coroutines_erased(body, cs, n).at(pos) && (coroutines_erased(
                body,
                cs,
                n,
            ).stmt(pos) == body.stmt(pos) || coroutines_erased(body, cs, n).stmt(pos) is Nop),
        tally_body(p, coroutines_erased(body, cs, n)) == tally_body(p, body),
    decreases n,
{
    if n > 0 {
        lemma_erased_tally(p, body, cs, (n - 1) as nat);
        let prev = coroutines_erased(body, cs, (n - 1) as nat);
        let c = cs[n - 1];
        assert(body.at(c.begin) && body.at(c.end));
        lemma_keep_erase(p, prev, c.begin);
        let mid = prev.erase(c.begin);
        assert(mid.at(c.end));
        lemma_keep_erase(p, mid, c.end);
        let after = mid.erase(c.end);
        assert forall|b: B| #[trigger] body.has(b) <==> after.has(b) by {
            assert(body.has(b) <==> prev.has(b));
        }
        assert forall|pos: (B, usize)| #[trigger] body.at(pos) implies after.at(pos) && (after.stmt(
            pos,
        ) == body.stmt(pos) || after.stmt(pos) is Nop) by {
            assert(prev.at(pos));
        }
    }
}

proof fn lemma_zeroed_tally<B: CfgId, L: CfgId>(
    p: Tags,
    body: Body<B, L>,
    machines: Seq<Machine<B, L>>,
    n: nat,
    b: B,
)
    requires
        body.wf(),
        body.has(b),
    ensures
        states_zeroed(body, machines, n, b).wf(),
        states_zeroed(body, machines, n, b).has(b),
        tally_body(p, states_zeroed(body, machines, n, b)) == tally_body(p, body),
    decreases n,
{
    if n > 0 {
        lemma_zeroed_tally(p, body, machines, (n - 1) as nat, b);
        lemma_keep_append(
            p,
            states_zeroed(body, machines, (n - 1) as nat, b),
            b,
            Stmt::AssignI64 { local: machines[n - 1].state_local, value: 0 },
        );
    }
}

proof fn lemma_closed_tally<B: CfgId, L: CfgId>(
    p: Tags,
    body: Body<B, L>,
    r: RegionView<B>,
    machines: Seq<Machine<B, L>>,
    top: B,
    entry: B,
)
    requires
        body.wf(),
        !body.has(entry),
        body.at(r.region_begin),
        body.at(r.region_end),
        forall|j: int|
            0 <= j < r.coroutines.len() ==> body.at((#[trigger] r.coroutines[j]).begin) && body.at(
                r.coroutines[j].end,
            ),
        machines.len() > 0 ==> body.has(machines[0].dispatch_bb),
        spared(p, body, r),
    ensures
        tally_body(p, region_closed(body, r, machines, top, entry)) == tally_body(p, body),
{
    let open_bb = r.region_begin.0;
    let c = coroutines_erased(body, r.coroutines, r.coroutines.len());
    lemma_erased_tally(p, body, r.coroutines, r.coroutines.len());
    assert(c.at(r.region_begin) && c.at(r.region_end));
    lemma_keep_erase(p, c, r.region_begin);
    let d = c.erase(r.region_begin);
    assert(d.at(r.region_end));
    lemma_keep_erase(p, d, r.region_end);
    let erased = region_erased(body, r);
    assert(erased == d.erase(r.region_end));
    assert(body.has(entry) <==> c.has(entry));
    assert(erased.at(r.region_begin));
    lemma_keep_split(p, erased, open_bb, r.region_begin.1 as int, entry);
    let split = erased.split(open_bb, r.region_begin.1 as int, entry);
    let retargeted = if machines.len() > 0 && r.coroutines.len() > 0
        && r.coroutines[0].begin.0 == open_bb {
        let dispatch = machines[0].dispatch_bb;
        let term = split.blocks[dispatch].term.redirected(open_bb, entry);
        assert(body.has(dispatch) <==> c.has(dispatch));
        assert(split.has(dispatch));
        lemma_keep_end(p, split, dispatch, term);
        split.end_with(dispatch, term)
    } else {
        split
    };
    assert(retargeted.has(open_bb));
    lemma_zeroed_tally(p, retargeted, machines, machines.len(), open_bb);
    lemma_keep_end(
        p,
        states_zeroed(retargeted, machines, machines.len(), open_bb),
        open_bb,
        Term::Goto(top),
    );
}

/// What the chosen statements of a region are spared, they are spared while the
/// statements stay in place.
proof fn lemma_spared_in_place<B: CfgId, L: CfgId>(
    p: Tags,
    before: Body<B, L>,
    after: Body<B, L>,
    r: RegionView<B>,
    machines: Seq<Machine<B, L>>,
)
    requires
        region_ready(before, r, machines),
        spared(p, before, r),
        in_place(before, after),
    ensures
        spared(p, after, r),
        after.at(r.region_begin),
        after.at(r.region_end),
        forall|j: int|
            0 <= j < r.coroutines.len() ==> after.at((#[trigger] r.coroutines[j]).begin)
                && after.at(r.coroutines[j].end),
{
    assert(before.at(r.region_begin) && before.at(r.region_end));
    assert forall|j: int| 0 <= j < r.coroutines.len() implies after.at(
        (#[trigger] r.coroutines[j]).begin,
    ) && after.at(r.coroutines[j].end) && !counts(p, after.stmt(r.coroutines[j].begin))
        && !counts(p, after.stmt(r.coroutines[j].end)) by {
        assert(before.at(r.coroutines[j].begin) && before.at(r.coroutines[j].end));
    }
}

/// The cooperative loop erases the region's markers, and nothing else.
pub proof fn lemma_cooperative_keeps<B: CfgId, L: CfgId>(
    p: Tags,
    before: Body<B, L>,
    after: Body<B, L>,
    r: RegionView<B>,
    machines: Seq<Machine<B, L>>,
)
    requires
        region_ready(before, r, machines),
        cooperative_loop(before, after, r, machines),
        spared(p, before, r),
    ensures
        tally_body(p, after) == tally_body(p, before),
{
    let (pass, opened, polled, last) = choose|
        pass: Pass<B, L>,
        opened: Body<B, L>,
        polled: Body<B, L>,
        last: B,
    |
        {
            &&& #[trigger] pass_opened(before, opened, r, pass)
            &&& #[trigger] machines_polled(
                opened,
                polled,
                machines,
                machines.len(),
                pass.top,
                last,
                pass.all_done,
            )
            &&& !polled.has(after.order.last())
            &&& after == region_closed(
                polled.end_with(
                    last,
                    Term::Branch { cond: pass.all_done, yes: pass.exit, no: pass.top },
                ),
                r,
                machines,
                pass.top,
                after.order.last(),
            )
        };
    lemma_walk(p, before, opened, polled, r, machines, pass, last);
    let branch = Term::Branch { cond: pass.all_done, yes: pass.exit, no: pass.top };
    let looped = polled.end_with(last, branch);
    lemma_keep_end(p, polled, last, branch);
    assert(in_place(before, looped)) by {
        assert forall|pos: (B, usize)| #[trigger] before.at(pos) implies looped.at(pos)
            && looped.stmt(pos) == before.stmt(pos) by {
            assert(polled.at(pos));
        }
    }
    lemma_spared_in_place(p, before, looped, r, machines);
    lemma_closed_tally(p, looped, r, machines, pass.top, after.order.last());
}

/// Opening and walking a pass adds statements of its own, and moves none.
pub proof fn lemma_walk<B: CfgId, L: CfgId>(
    p: Tags,
    before: Body<B, L>,
    opened: Body<B, L>,
    polled: Body<B, L>,
    r: RegionView<B>,
    machines: Seq<Machine<B, L>>,
    pass: Pass<B, L>,
    last: B,
)
    requires
        region_ready(before, r, machines),
        pass_opened(before, opened, r, pass),
        machines_polled(opened, polled, machines, machines.len(), pass.top, last, pass.all_done),
    ensures
        polled.wf(),
        polled.has(last),
        machines.len() > 0 ==> polled.has(machines[0].dispatch_bb),
        in_place(before, polled),
        tally_body(p, polled) == tally_body(p, before),
{
    assert(before.at(r.region_end));
    lemma_opened_tally(p, before, opened, r, pass);
    assert forall|k: int| 0 <= k < machines.len() implies opened.has(
        (#[trigger] machines[k]).exit_bb,
    ) && opened.has(machines[k].dispatch_bb) by {
        assert(before.has(machines[k].exit_bb) && before.has(machines[k].dispatch_bb));
    }
    lemma_pass_tally(
        p,
        opened,
        polled,
        machines,
        machines.len(),
        pass.top,
        last,
        pass.all_done,
    );
    if machines.len() > 0 {
        assert(opened.has(machines[0].dispatch_bb));
    }
    assert forall|pos: (B, usize)| #[trigger] before.at(pos) implies polled.at(pos)
        && polled.stmt(pos) == before.stmt(pos) by {
        assert(before.has(pos.0));
        assert(opened.at(pos));
    }
}

/// The waker pass erases the region's markers, and nothing else.
pub proof fn lemma_waker_keeps<B: CfgId, L: CfgId>(
    p: Tags,
    before: Body<B, L>,
    after: Body<B, L>,
    r: RegionView<B>,
    machines: Seq<Machine<B, L>>,
    exits: RegionExits<B>,
)
    requires
        region_ready(before, r, machines),
        waker_pass(before, after, r, machines, exits),
        spared(p, before, r),
    ensures
        tally_body(p, after) == tally_body(p, before),
{
    let (pass, opened, polled, last) = choose|
        pass: Pass<B, L>,
        opened: Body<B, L>,
        polled: Body<B, L>,
        last: B,
    |
        {
            &&& #[trigger] pass_opened(before, opened, r, pass)
            &&& #[trigger] machines_polled(
                opened,
                polled,
                machines,
                machines.len(),
                pass.top,
                last,
                pass.all_done,
            )
            &&& exits.done == pass.exit
            &&& !polled.has(exits.pending)
            &&& !polled.with_block(exits.pending).has(after.order.last())
            &&& after == region_closed(
                polled.with_block(exits.pending).end_with(
                    last,
                    Term::Branch { cond: pass.all_done, yes: pass.exit, no: exits.pending },
                ),
                r,
                machines,
                pass.top,
                after.order.last(),
            )
        };
    lemma_walk(p, before, opened, polled, r, machines, pass, last);
    let branch = Term::Branch { cond: pass.all_done, yes: pass.exit, no: exits.pending };
    let waiting = polled.with_block(exits.pending);
    lemma_keep_add(p, polled, exits.pending, Block::blank());
    let looped = waiting.end_with(last, branch);
    lemma_keep_end(p, waiting, last, branch);
    assert(in_place(before, looped)) by {
        assert forall|pos: (B, usize)| #[trigger] before.at(pos) implies looped.at(pos)
            && looped.stmt(pos) == before.stmt(pos) by {
            assert(polled.at(pos));
        }
    }
    lemma_spared_in_place(p, before, looped, r, machines);
    lemma_closed_tally(p, looped, r, machines, pass.top, after.order.last());
}

} // verus!
