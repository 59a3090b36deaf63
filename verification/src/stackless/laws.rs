//! What holds of every rewritten coroutine and region.
use vstd::prelude::*;

use crate::stackless::executor::{
    cooperative_loop, coroutines_erased, machine_polled, machines_polled, pass_opened,
    region_closed, region_erased, region_ready, states_zeroed, waker_pass, Pass, RegionExits,
};
use crate::stackless::machine::{
    arms, lemma_suspended_all_keeps, suspended, suspended_all, switch_machine, Machine, DONE_STATE,
};
use crate::stackless::model::{
    lemma_add_block_wf, lemma_set_block_wf, Block, Body, Stmt, Term,
};
use crate::stackless::scan::{Coroutine, RegionView, SuspKind};
use crate::vocab::CfgId;

verus! {

/// The block is one that closing the region may change.
pub open spec fn region_touches<B: CfgId, L: CfgId>(
    r: RegionView<B>,
    machines: Seq<Machine<B, L>>,
    b: B,
) -> bool {
    ||| b == r.region_begin.0
    ||| b == r.region_end.0
    ||| exists|j: int|
        0 <= j < r.coroutines.len() && ((#[trigger] r.coroutines[j]).begin.0 == b
            || r.coroutines[j].end.0 == b)
    ||| machines.len() > 0 && b == machines[0].dispatch_bb
}

pub proof fn lemma_erased_keeps<B: CfgId, L: CfgId>(
    body: Body<B, L>,
    cs: Seq<Coroutine<B>>,
    n: nat,
    b: B,
)
    requires
        n <= cs.len(),
        forall|j: int| 0 <= j < n ==> (#[trigger] cs[j]).begin.0 != b && cs[j].end.0 != b,
    ensures
        coroutines_erased(body, cs, n).blocks[b] == body.blocks[b],
        coroutines_erased(body, cs, n).has(b) == body.has(b),
        coroutines_erased(body, cs, n).order == body.order,
    decreases n,
{
    if n > 0 {
        lemma_erased_keeps(body, cs, (n - 1) as nat, b);
        assert(cs[n - 1].begin.0 != b && cs[n - 1].end.0 != b);
    }
}

pub proof fn lemma_zeroed_keeps<B: CfgId, L: CfgId>(
    body: Body<B, L>,
    machines: Seq<Machine<B, L>>,
    n: nat,
    at: B,
    b: B,
)
    requires
        at != b,
    ensures
        states_zeroed(body, machines, n, at).blocks[b] == body.blocks[b],
        states_zeroed(body, machines, n, at).has(b) == body.has(b),
        states_zeroed(body, machines, n, at).order == body.order,
    decreases n,
{
    if n > 0 {
        lemma_zeroed_keeps(body, machines, (n - 1) as nat, at, b);
    }
}

/// Closing a region leaves other blocks alone.
pub proof fn lemma_closed_keeps<B: CfgId, L: CfgId>(
    body: Body<B, L>,
    r: RegionView<B>,
    machines: Seq<Machine<B, L>>,
    top: B,
    entry: B,
    b: B,
)
    requires
        !region_touches(r, machines, b),
        b != entry,
    ensures
        region_closed(body, r, machines, top, entry).blocks[b] == body.blocks[b],
        region_closed(body, r, machines, top, entry).has(b) == body.has(b),
{
    let open_bb = r.region_begin.0;
    lemma_erased_keeps(body, r.coroutines, r.coroutines.len(), b);
    let split = region_erased(body, r).split(open_bb, r.region_begin.1 as int, entry);
    let retargeted = if machines.len() > 0 && r.coroutines.len() > 0
        && r.coroutines[0].begin.0 == open_bb {
        let dispatch = machines[0].dispatch_bb;
        split.end_with(dispatch, split.blocks[dispatch].term.redirected(open_bb, entry))
    } else {
        split
    };
    lemma_zeroed_keeps(retargeted, machines, machines.len(), open_bb, b);
}

/// One machine's part of a pass keeps the body well formed, and changes only the
/// check block and the machine's exit among those that were there.
pub proof fn lemma_polled_keeps<B: CfgId, L: CfgId>(
    before: Body<B, L>,
    after: Body<B, L>,
    m: Machine<B, L>,
    check: B,
    next: B,
    all_done: L,
)
    requires
        before.wf(),
        before.has(check),
        before.has(m.exit_bb),
        machine_polled(before, after, m, check, next, all_done),
    ensures
        after.wf(),
        !before.has(next),
        after.has(next),
        forall|b: B| #[trigger]
            before.has(b) ==> after.has(b) && (b != check && b != m.exit_bb ==> after.blocks[b]
                == before.blocks[b]),
{
    let n = before.order.len() as int;
    let polled = after.order[n];
    let done = after.order[n + 1];
    let pending = after.order[n + 2];
    assert(after.order[n + 3] == next);
    assert forall|b: B| #[trigger] before.has(b) implies b != polled && b != done && b != pending
        && b != next by {
        assert(before.order.contains(b));
        let k = before.order.index_of(b);
        assert(after.order[k] == b);
    }
    assert forall|b: B| #[trigger] after.order.contains(b) <==> after.has(b) by {
        if after.order.contains(b) {
            let k = after.order.index_of(b);
            if k < n {
                assert(before.order[k] == b);
                assert(before.order.contains(b));
            }
        }
        if after.has(b) {
            if before.has(b) {
                assert(before.order.contains(b));
                let k = before.order.index_of(b);
                assert(after.order[k] == b);
            } else {
                assert(b == polled || b == done || b == pending || b == next);
            }
        }
    }
}

/// A pass changes only its top and the machines' exits among the blocks that
/// were there.
pub proof fn lemma_pass_keeps<B: CfgId, L: CfgId>(
    before: Body<B, L>,
    after: Body<B, L>,
    machines: Seq<Machine<B, L>>,
    n: nat,
    top: B,
    last: B,
    all_done: L,
)
    requires
        before.wf(),
        before.has(top),
        n <= machines.len(),
        forall|k: int| 0 <= k < machines.len() ==> before.has((#[trigger] machines[k]).exit_bb),
        machines_polled(before, after, machines, n, top, last, all_done),
    ensures
        after.wf(),
        after.has(last),
        n > 0 ==> !before.has(last),
        n == 0 ==> last == top,
        forall|b: B| #[trigger]
            before.has(b) ==> after.has(b) && (b != top && (forall|k: int|
                0 <= k < machines.len() ==> (#[trigger] machines[k]).exit_bb != b)
                ==> after.blocks[b] == before.blocks[b]),
    decreases n,
{
    if n == 1 {
        assert(before.has(machines[0].exit_bb));
        lemma_polled_keeps(before, after, machines[0], top, last, all_done);
    } else if n > 1 {
        let (mid, prev, check) = choose|mid: Body<B, L>, prev: B, check: B|
            {
                &&& machines_polled(before, mid, machines, (n - 1) as nat, top, prev, all_done)
                &&& !mid.has(check)
                &&& #[trigger] machine_polled(
                    mid.with_block(check).end_with(prev, Term::Goto(check)),
                    after,
                    machines[n - 1],
                    check,
                    last,
                    all_done,
                )
            };
        lemma_pass_keeps(before, mid, machines, (n - 1) as nat, top, prev, all_done);
        let linked = mid.with_block(check).end_with(prev, Term::Goto(check));
        lemma_add_block_wf(mid, check, Block::blank());
        lemma_set_block_wf(mid.with_block(check), prev, linked.blocks[prev]);
        assert(before.has(machines[n - 1].exit_bb));
        assert(mid.has(machines[n - 1].exit_bb));
        lemma_polled_keeps(linked, after, machines[n - 1], check, last, all_done);
        assert(!before.has(last)) by {
            if before.has(last) {
                assert(mid.has(last));
                assert(linked.has(last));
            }
        }
        assert forall|b: B| #[trigger] before.has(b) implies after.has(b) && (b != top && (
        forall|k: int| 0 <= k < machines.len() ==> (#[trigger] machines[k]).exit_bb != b)
            ==> after.blocks[b] == before.blocks[b]) by {
            assert(mid.has(b));
            assert(linked.has(b));
            assert(b != check);
            assert(b != prev);
            assert(machines[n - 1].exit_bb == machines[n - 1].exit_bb);
        }
    }
}

pub proof fn lemma_opened_keeps<B: CfgId, L: CfgId>(
    before: Body<B, L>,
    opened: Body<B, L>,
    r: RegionView<B>,
    p: Pass<B, L>,
)
    requires
        before.wf(),
        before.has(r.region_end.0),
        pass_opened(before, opened, r, p),
    ensures
        opened.wf(),
        opened.has(p.top),
        opened.has(p.exit),
        opened.has(p.post),
        forall|b: B| #[trigger] before.has(b) ==> opened.has(b),
        opened.blocks[p.exit] == Block::<B, L>::bare(Term::Goto(p.post)),
        opened.blocks[p.post] == Block::<B, L>::bare(before.blocks[r.region_end.0].term),
{
    let end = r.region_end.0;
    let top = Block {
        stmts: seq![Stmt::AssignBool { local: p.all_done, flag: true }],
        term: Term::Unset,
    };
    let exit = Block::<B, L>::bare(Term::Goto(p.post));
    let post = Block::<B, L>::bare(before.blocks[end].term);
    let b1 = before.add_block(p.top, top);
    let b2 = b1.add_block(p.exit, exit);
    let b3 = b2.add_block(p.post, post);
    lemma_add_block_wf(before, p.top, top);
    lemma_add_block_wf(b1, p.exit, exit);
    lemma_add_block_wf(b2, p.post, post);
    lemma_set_block_wf(b3, end, before.blocks[end].ending(Term::Unset));
    let b4 = b3.set_block(end, before.blocks[end].ending(Term::Unset));
    assert(opened.wf()) by {
        assert forall|x: B| #[trigger] opened.order.contains(x) <==> opened.has(x) by {
            assert(b4.order.contains(x) <==> b4.has(x));
        }
    }
}

/// The blocks that a region's exits stand on are fresh, so nothing that is done
/// to the region touches them.
pub proof fn lemma_fresh_untouched<B: CfgId, L: CfgId>(
    before: Body<B, L>,
    r: RegionView<B>,
    machines: Seq<Machine<B, L>>,
    b: B,
)
    requires
        region_ready(before, r, machines),
        !before.has(b),
    ensures
        !region_touches(r, machines, b),
        forall|k: int| 0 <= k < machines.len() ==> (#[trigger] machines[k]).exit_bb != b,
{
    assert forall|j: int| 0 <= j < r.coroutines.len() implies (#[trigger] r.coroutines[j]).begin.0
        != b && r.coroutines[j].end.0 != b by {
        assert(before.at(r.coroutines[j].begin) && before.at(r.coroutines[j].end));
    }
    assert forall|k: int| 0 <= k < machines.len() implies (#[trigger] machines[k]).exit_bb != b
        && machines[k].dispatch_bb != b by {
        assert(before.has(machines[k].exit_bb) && before.has(machines[k].dispatch_bb));
    }
    if machines.len() > 0 {
        assert(machines[0].dispatch_bb != b);
    }
}

/// The two exits of a waker-driven region are different, fresh blocks. The done
/// exit leads to what followed the region; the pending exit is left blank for
/// the host.
pub proof fn law_waker_exits<B: CfgId, L: CfgId>(
    before: Body<B, L>,
    after: Body<B, L>,
    r: RegionView<B>,
    machines: Seq<Machine<B, L>>,
    exits: RegionExits<B>,
)
    requires
        region_ready(before, r, machines),
        waker_pass(before, after, r, machines, exits),
    ensures
        exits.done != exits.pending,
        !before.has(exits.done),
        !before.has(exits.pending),
        after.has(exits.done),
        after.has(exits.pending),
        after.blocks[exits.pending] == Block::<B, L>::blank(),
        after.blocks[exits.done].stmts.len() == 0,
        after.blocks[exits.done].term matches Term::Goto(post) && after.blocks[post] == Block::<B, L>::bare(before.blocks[r.region_end.0].term),
{
    let (p, opened, polled, last) = choose|
        p: Pass<B, L>,
        opened: Body<B, L>,
        polled: Body<B, L>,
        last: B,
    |
        {
            &&& #[trigger] pass_opened(before, opened, r, p)
            &&& #[trigger] machines_polled(
                opened,
                polled,
                machines,
                machines.len(),
                p.top,
                last,
                p.all_done,
            )
            &&& exits.done == p.exit
            &&& !polled.has(exits.pending)
            &&& !polled.with_block(exits.pending).has(after.order.last())
            &&& after == region_closed(
                polled.with_block(exits.pending).end_with(
                    last,
                    Term::Branch { cond: p.all_done, yes: p.exit, no: exits.pending },
                ),
                r,
                machines,
                p.top,
                after.order.last(),
            )
        };
    lemma_opened_keeps(before, opened, r, p);
    assert forall|k: int| 0 <= k < machines.len() implies opened.has(
        (#[trigger] machines[k]).exit_bb,
    ) by {
        assert(before.has(machines[k].exit_bb));
    }
    lemma_pass_keeps(opened, polled, machines, machines.len(), p.top, last, p.all_done);
    lemma_fresh_untouched(before, r, machines, p.exit);
    lemma_fresh_untouched(before, r, machines, p.post);
    assert(!before.has(exits.pending)) by {
        if before.has(exits.pending) {
            assert(opened.has(exits.pending));
        }
    }
    lemma_fresh_untouched(before, r, machines, exits.pending);
    let entry = after.order.last();
    let body = polled.with_block(exits.pending).end_with(
        last,
        Term::Branch { cond: p.all_done, yes: p.exit, no: exits.pending },
    );
    assert(polled.has(p.exit) && polled.has(p.post));
    lemma_closed_keeps(body, r, machines, p.top, entry, p.exit);
    lemma_closed_keeps(body, r, machines, p.top, entry, p.post);
    lemma_closed_keeps(body, r, machines, p.top, entry, exits.pending);
}

/// The loop of a cooperative region starts over exactly when something is
/// pending: its last check goes to the exit, which leads to what followed the
/// region, or back to the top.
pub proof fn law_cooperative_loop_closes<B: CfgId, L: CfgId>(
    before: Body<B, L>,
    after: Body<B, L>,
    r: RegionView<B>,
    machines: Seq<Machine<B, L>>,
)
    requires
        region_ready(before, r, machines),
        cooperative_loop(before, after, r, machines),
    ensures
        exists|p: Pass<B, L>, last: B|
            {
                &&& !before.has(p.top)
                &&& !before.has(p.exit)
                &&& #[trigger] after.blocks[last].term == (Term::Branch {
                    cond: p.all_done,
                    yes: p.exit,
                    no: p.top,
                })
                &&& #[trigger] after.blocks[p.exit] == Block::<B, L>::bare(Term::Goto(p.post))
                &&& after.blocks[p.post] == Block::<B, L>::bare(before.blocks[r.region_end.0].term)
                &&& after.blocks[r.region_begin.0].term == Term::<B, L>::Goto(p.top)
            },
{
    let (p, opened, polled, last) = choose|
        p: Pass<B, L>,
        opened: Body<B, L>,
        polled: Body<B, L>,
        last: B,
    |
        {
            &&& #[trigger] pass_opened(before, opened, r, p)
            &&& #[trigger] machines_polled(
                opened,
                polled,
                machines,
                machines.len(),
                p.top,
                last,
                p.all_done,
            )
            &&& !polled.has(after.order.last())
            &&& after == region_closed(
                polled.end_with(
                    last,
                    Term::Branch { cond: p.all_done, yes: p.exit, no: p.top },
                ),
                r,
                machines,
                p.top,
                after.order.last(),
            )
        };
    lemma_opened_keeps(before, opened, r, p);
    assert forall|k: int| 0 <= k < machines.len() implies opened.has(
        (#[trigger] machines[k]).exit_bb,
    ) by {
        assert(before.has(machines[k].exit_bb));
    }
    lemma_pass_keeps(opened, polled, machines, machines.len(), p.top, last, p.all_done);
    assert(!before.has(last)) by {
        if before.has(last) {
            assert(opened.has(last));
        }
    }
    lemma_fresh_untouched(before, r, machines, last);
    lemma_fresh_untouched(before, r, machines, p.exit);
    lemma_fresh_untouched(before, r, machines, p.post);
    let entry = after.order.last();
    let body = polled.end_with(last, Term::Branch { cond: p.all_done, yes: p.exit, no: p.top });
    assert(polled.has(p.exit) && polled.has(p.post) && polled.has(last));
    lemma_closed_keeps(body, r, machines, p.top, entry, last);
    lemma_closed_keeps(body, r, machines, p.top, entry, p.exit);
    lemma_closed_keeps(body, r, machines, p.top, entry, p.post);
    assert(last != p.exit && last != p.post) by {
        if machines.len() > 0 {
            assert(!opened.has(last));
        }
    }
    assert(after.blocks[last].term == (Term::Branch { cond: p.all_done, yes: p.exit, no: p.top }));
    assert(after.blocks[p.exit] == Block::<B, L>::bare(Term::Goto(p.post)));
}

/// A suspension point as it stands in the finished machine: where the turn ends,
/// what is noted then, and what the dispatch enters in state `state`.
///
/// - The turn ends in a yield block, which stores `state` and a pending poll and
///   goes to the machine's exit.
/// - After a yield or a producing send the dispatch enters what followed it, with
///   the terminator that its block had.
/// - For a guarded recv the dispatch enters the peek again; only when it is ready
///   the recv, and what followed it, run.
pub open spec fn turn_ends<B: CfgId, L: CfgId>(
    before: Body<B, L>,
    after: Body<B, L>,
    point: (B, usize, SuspKind),
    state: i64,
    m: Machine<B, L>,
    entry: B,
) -> bool {
    let b = point.0;
    let i = point.1 as int;
    let whole = before.blocks[b];
    exists|y: B|
        {
            &&& !before.has(y)
            &&& after.has(y)
            &&& #[trigger] after.blocks[y] == m.yield_block(state)
            &&& match point.2 {
                SuspKind::Yield => {
                    &&& after.blocks[b] == (Block {
                        stmts: whole.stmts.take(i).push(Stmt::Nop),
                        term: Term::Goto(y),
                    })
                    &&& !before.has(entry)
                    &&& after.has(entry)
                    &&& after.blocks[entry] == (Block {
                        stmts: whole.stmts.skip(i + 1),
                        term: whole.term,
                    })
                },
                SuspKind::ProducingSend => {
                    &&& after.blocks[b] == (Block {
                        stmts: whole.stmts.take(i + 1),
                        term: Term::Goto(y),
                    })
                    &&& !before.has(entry)
                    &&& after.has(entry)
                    &&& after.blocks[entry] == (Block {
                        stmts: whole.stmts.skip(i + 1),
                        term: whole.term,
                    })
                },
                SuspKind::GuardedRecv => recv_slot(before, after, point, y, entry),
            }
        }
}

/// A guarded recv in the finished machine: the peek that the dispatch enters
/// goes to the recv when it is ready, and ends the turn at `y` when it is not.
pub open spec fn recv_slot<B: CfgId, L: CfgId>(
    before: Body<B, L>,
    after: Body<B, L>,
    point: (B, usize, SuspKind),
    y: B,
    entry: B,
) -> bool {
    let b = point.0;
    let i = point.1 as int;
    let whole = before.blocks[b];
    let ready = after.blocks[entry].term->cond;
    exists|r: B|
        {
            &&& !before.has(r)
            &&& after.has(r)
            &&& #[trigger] after.blocks[r] == (Block {
                stmts: whole.stmts.skip(i),
                term: whole.term,
            })
            &&& after.has(entry)
            &&& after.blocks[entry] == (Block {
                stmts: seq![Stmt::Peek { dest: ready }],
                term: Term::Branch { cond: ready, yes: r, no: y },
            })
            &&& if i == 0 {
                entry == b
            } else {
                &&& !before.has(entry)
                &&& after.blocks[b] == (Block {
                    stmts: whole.stmts.take(i),
                    term: Term::Goto(entry),
                })
            }
        }
}

/// Nothing of a finished suspension changes when only other blocks do.
proof fn lemma_turn_stays<B: CfgId, L: CfgId>(
    before: Body<B, L>,
    mid: Body<B, L>,
    after: Body<B, L>,
    point: (B, usize, SuspKind),
    state: i64,
    m: Machine<B, L>,
    entry: B,
)
    requires
        before.has(point.0),
        mid.has(point.0),
        turn_ends(before, mid, point, state, m, entry),
        forall|b: B| #[trigger]
            mid.has(b) && (b == point.0 || !before.has(b)) ==> after.has(b) && after.blocks[b]
                == mid.blocks[b],
    ensures
        turn_ends(before, after, point, state, m, entry),
{
    let b = point.0;
    let i = point.1 as int;
    let whole = before.blocks[b];
    let y = choose|y: B|
        {
            &&& !before.has(y)
            &&& mid.has(y)
            &&& #[trigger] mid.blocks[y] == m.yield_block(state)
            &&& match point.2 {
                SuspKind::Yield => {
                    &&& mid.blocks[b] == (Block {
                        stmts: whole.stmts.take(i).push(Stmt::Nop),
                        term: Term::Goto(y),
                    })
                    &&& !before.has(entry)
                    &&& mid.has(entry)
                    &&& mid.blocks[entry] == (Block {
                        stmts: whole.stmts.skip(i + 1),
                        term: whole.term,
                    })
                },
                SuspKind::ProducingSend => {
                    &&& mid.blocks[b] == (Block {
                        stmts: whole.stmts.take(i + 1),
                        term: Term::Goto(y),
                    })
                    &&& !before.has(entry)
                    &&& mid.has(entry)
                    &&& mid.blocks[entry] == (Block {
                        stmts: whole.stmts.skip(i + 1),
                        term: whole.term,
                    })
                },
                SuspKind::GuardedRecv => recv_slot(before, mid, point, y, entry),
            }
        };
    assert(after.blocks[y] == m.yield_block(state));
    if point.2 == SuspKind::GuardedRecv {
        let ready = mid.blocks[entry].term->cond;
        let r = choose|r: B|
            {
                &&& !before.has(r)
                &&& mid.has(r)
                &&& #[trigger] mid.blocks[r] == (Block {
                    stmts: whole.stmts.skip(i),
                    term: whole.term,
                })
                &&& mid.has(entry)
                &&& mid.blocks[entry] == (Block {
                    stmts: seq![Stmt::Peek { dest: ready }],
                    term: Term::Branch { cond: ready, yes: r, no: y },
                })
                &&& if i == 0 {
                    entry == b
                } else {
                    &&& !before.has(entry)
                    &&& mid.blocks[b] == (Block {
                        stmts: whole.stmts.take(i),
                        term: Term::Goto(entry),
                    })
                }
            };
        assert(after.blocks[r] == mid.blocks[r]);
        assert(after.blocks[entry] == mid.blocks[entry]);
        assert(recv_slot(before, after, point, y, entry));
    }
}

/// A suspension just emitted is finished.
proof fn lemma_turn_made<B: CfgId, L: CfgId>(
    before: Body<B, L>,
    mid: Body<B, L>,
    after: Body<B, L>,
    point: (B, usize, SuspKind),
    state: i64,
    m: Machine<B, L>,
    entry: B,
)
    requires
        before.has(point.0),
        forall|b: B| #[trigger] before.has(b) ==> mid.has(b),
        mid.blocks[point.0] == before.blocks[point.0],
        suspended(mid, after, point, state, m, entry),
    ensures
        turn_ends(before, after, point, state, m, entry),
{
    let y = after.order[mid.order.len() as int];
    assert(!before.has(y));
    assert(after.blocks[y] == m.yield_block(state));
    if point.2 == SuspKind::GuardedRecv {
        let r = after.order.last();
        let ready = after.blocks[entry].term->cond;
        assert(after.blocks[entry].term == (Term::Branch { cond: ready, yes: r, no: y }));
        assert(after.blocks[r] == (Block {
            stmts: before.blocks[point.0].stmts.skip(point.1 as int),
            term: before.blocks[point.0].term,
        }));
        assert(recv_slot(before, after, point, y, entry));
    }
}

proof fn lemma_turns<B: CfgId, L: CfgId>(
    before: Body<B, L>,
    after: Body<B, L>,
    points: Seq<(B, usize, SuspKind)>,
    n: nat,
    m: Machine<B, L>,
    entries: Seq<B>,
)
    requires
        n <= points.len(),
        suspended_all(before, after, points, n, m, entries),
        forall|k: int| 0 <= k < points.len() ==> before.has((#[trigger] points[k]).0),
        forall|j: int, k: int|
            0 <= j < k < points.len() ==> (#[trigger] points[j]).0 != (#[trigger] points[k]).0,
    ensures
        forall|k: int|
            0 <= k < n ==> turn_ends(
                before,
                after,
                #[trigger] points[k],
                (k + 1) as i64,
                m,
                entries[k + 1],
            ),
    decreases n,
{
    if n > 0 {
        let mid = choose|mid: Body<B, L>|
            suspended_all(before, mid, points, (n - 1) as nat, m, entries) && #[trigger] suspended(
                mid,
                after,
                points[n - 1],
                n as i64,
                m,
                entries[n as int],
            );
        lemma_turns(before, mid, points, (n - 1) as nat, m, entries);
        lemma_suspended_all_keeps(before, mid, points, (n - 1) as nat, m, entries);
        let q = points[n - 1];
        assert(before.has(q.0));
        assert(mid.has(q.0));
        assert forall|k: int| 0 <= k < n implies turn_ends(
            before,
            after,
            #[trigger] points[k],
            (k + 1) as i64,
            m,
            entries[k + 1],
        ) by {
            let p = points[k];
            if k == n - 1 {
                lemma_turn_made(before, mid, after, p, (k + 1) as i64, m, entries[k + 1]);
            } else {
                assert(p.0 != q.0);
                assert(before.has(p.0));
                lemma_turn_stays(before, mid, after, p, (k + 1) as i64, m, entries[k + 1]);
            }
        }
    }
}

/// The finished state machine. The dispatch switches on the state: state 0 enters
/// the coroutine, state `k` goes on after suspension `k`, and any other state,
/// the final one among them, leaves by the exit. Each suspension stores the state
/// that goes on after it. The end of the coroutine notes a ready poll and the
/// final state.
pub proof fn law_switch_machine_shape<B: CfgId, L: CfgId>(
    before: Body<B, L>,
    after: Body<B, L>,
    c: Coroutine<B>,
    points: Seq<(B, usize, SuspKind)>,
    m: Machine<B, L>,
)
    requires
        switch_machine(before, after, c, points, m),
        before.has(m.dispatch_bb),
        before.has(c.end.0),
        m.dispatch_bb != c.end.0,
        forall|k: int|
            0 <= k < points.len() ==> before.has((#[trigger] points[k]).0) && points[k].0
                != m.dispatch_bb && points[k].0 != c.end.0,
        forall|j: int, k: int|
            0 <= j < k < points.len() ==> (#[trigger] points[j]).0 != (#[trigger] points[k]).0,
    ensures
        exists|entries: Seq<B>|
            {
                &&& entries.len() == points.len() + 1
                &&& entries[0] == c.begin.0
                &&& after.blocks[m.dispatch_bb].term == (Term::Switch {
                    discr: m.state_local,
                    targets: #[trigger] arms(entries),
                    otherwise: m.exit_bb,
                })
                &&& forall|k: int|
                    0 <= k < points.len() ==> turn_ends(
                        before,
                        after,
                        #[trigger] points[k],
                        (k + 1) as i64,
                        m,
                        entries[k + 1],
                    )
            },
        after.blocks[m.dispatch_bb].stmts == before.blocks[m.dispatch_bb].stmts,
        after.blocks[c.end.0].stmts == before.blocks[c.end.0].stmts,
        after.blocks[c.end.0].term matches Term::Goto(d) && after.blocks[d] == m.done_block(),
{
    let (mid, entries) = choose|mid: Body<B, L>, entries: Seq<B>|
        #![trigger suspended_all(before, mid, points, points.len(), m, entries)]
        {
            let d = after.order.last();
            &&& entries.len() == points.len() + 1
            &&& entries[0] == c.begin.0
            &&& suspended_all(before, mid, points, points.len(), m, entries)
            &&& !mid.has(d)
            &&& after == mid.add_block(d, m.done_block()).end_with(
                c.end.0,
                Term::Goto(d),
            ).end_with(
                m.dispatch_bb,
                Term::Switch {
                    discr: m.state_local,
                    targets: arms(entries),
                    otherwise: m.exit_bb,
                },
            )
        };
    let d = after.order.last();
    lemma_turns(before, mid, points, points.len(), m, entries);
    lemma_suspended_all_keeps(before, mid, points, points.len(), m, entries);
    assert forall|k: int| 0 <= k < points.len() implies turn_ends(
        before,
        after,
        #[trigger] points[k],
        (k + 1) as i64,
        m,
        entries[k + 1],
    ) by {
        let p = points[k];
        assert(before.has(p.0));
        lemma_turn_stays(before, mid, after, p, (k + 1) as i64, m, entries[k + 1]);
    }
    assert(mid.has(c.end.0) && mid.has(m.dispatch_bb));
    assert(forall|k: int| 0 <= k < points.len() ==> (#[trigger] points[k]).0 != c.end.0);
    assert(mid.blocks[c.end.0] == before.blocks[c.end.0]);
    assert(forall|k: int| 0 <= k < points.len() ==> (#[trigger] points[k]).0 != m.dispatch_bb);
    assert(mid.blocks[m.dispatch_bb] == before.blocks[m.dispatch_bb]);
    assert(arms(entries) == arms(entries));
}

/// With fewer suspension points than the final state's number, no suspension is
/// taken for the end of the coroutine, and every state has one entry.
pub proof fn law_states_are_told_apart<B>(entries: Seq<B>, j: int, k: int)
    requires
        entries.len() <= DONE_STATE,
        0 <= j < k < entries.len(),
    ensures
        arms(entries)[j].0 == j,
        arms(entries)[j].0 != arms(entries)[k].0,
        arms(entries)[k].0 != DONE_STATE,
{
}

proof fn lemma_coroutines_erased<B: CfgId, L: CfgId>(
    body: Body<B, L>,
    cs: Seq<Coroutine<B>>,
    n: nat,
)
    requires
        n <= cs.len(),
        forall|j: int|
            0 <= j < cs.len() ==> body.at((#[trigger] cs[j]).begin) && body.at(cs[j].end),
    ensures
        forall|pos: (B, usize)| #[trigger]
            body.at(pos) ==> {
                let after = coroutines_erased(body, cs, n);
                &&& after.at(pos)
                &&& after.stmt(pos) == if exists|j: int|
                    0 <= j < n && ((#[trigger] cs[j]).begin == pos || cs[j].end == pos) {
                    Stmt::<L>::Nop
                } else {
                    body.stmt(pos)
                }
            },
        forall|b: B| #[trigger]
            body.has(b) ==> coroutines_erased(body, cs, n).blocks[b].term == body.blocks[b].term,
    decreases n,
{
    if n > 0 {
        lemma_coroutines_erased(body, cs, (n - 1) as nat);
        let prev = coroutines_erased(body, cs, (n - 1) as nat);
        let after = coroutines_erased(body, cs, n);
        let c = cs[n - 1];
        assert(body.at(c.begin) && body.at(c.end));
        assert forall|pos: (B, usize)| #[trigger] body.at(pos) implies {
            &&& after.at(pos)
            &&& after.stmt(pos) == if exists|j: int|
                0 <= j < n && ((#[trigger] cs[j]).begin == pos || cs[j].end == pos) {
                Stmt::<L>::Nop
            } else {
                body.stmt(pos)
            }
        } by {
            assert(prev.at(pos));
            if c.begin == pos || c.end == pos {
                assert(cs[n - 1] == c);
            }
        }
    }
}

/// Closing a region erases its own markers, every one of them, and no other
/// statement.
pub proof fn law_region_markers_are_erased<B: CfgId, L: CfgId>(
    body: Body<B, L>,
    r: RegionView<B>,
    pos: (B, usize),
)
    requires
        body.at(pos),
        body.at(r.region_begin),
        body.at(r.region_end),
        forall|j: int|
            0 <= j < r.coroutines.len() ==> body.at((#[trigger] r.coroutines[j]).begin) && body.at(
                r.coroutines[j].end,
            ),
    ensures
        region_erased(body, r).at(pos),
        region_erased(body, r).stmt(pos) == if pos == r.region_begin || pos == r.region_end || (
        exists|j: int|
            0 <= j < r.coroutines.len() && ((#[trigger] r.coroutines[j]).begin == pos
                || r.coroutines[j].end == pos)) {
            Stmt::<L>::Nop
        } else {
            body.stmt(pos)
        },
{
    lemma_coroutines_erased(body, r.coroutines, r.coroutines.len());
    let c = coroutines_erased(body, r.coroutines, r.coroutines.len());
    assert(c.at(pos) && c.at(r.region_begin) && c.at(r.region_end));
}

} // verus!
