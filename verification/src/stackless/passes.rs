//! What a polling pass does when it runs: every machine has its turn, and the region
//! is left exactly when all of them are done.
use vstd::prelude::*;

use crate::stackless::executor::{
    cooperative_loop, coroutines_erased, machine_polled, machines_polled, pass_opened,
    region_closed, region_erased, region_ready, states_zeroed, waker_pass, Pass, RegionExits,
};
use crate::stackless::laws::{
    law_region_markers_are_erased, law_waker_exits, lemma_closed_keeps, lemma_fresh_untouched,
    lemma_opened_keeps, lemma_pass_keeps, lemma_polled_keeps, lemma_zeroed_keeps, region_touches,
};
use crate::stackless::machine::{Machine, DONE_STATE};
use crate::stackless::model::{
    lemma_add_block_wf, lemma_set_block_wf, Block, Body, Stmt, Term,
};
use crate::stackless::placement::fits;
use crate::stackless::run::{
    law_a_redirected_terminator_goes_elsewhere, leads, lemma_few_stmts, lemma_leads_join,
    lemma_leads_step, lemma_same_effect, HostCode, Memory,
};
use crate::stackless::scan::{Coroutine, RegionView};
use crate::stackless::turns::rest_from;
use crate::vocab::CfgId;

verus! {

/// The machines of a region get in each other's way nowhere: their locals and blocks
/// are their own, and their exits are bare blocks that hold no marker.
pub open spec fn machines_apart<B: CfgId, L: CfgId>(
    body: Body<B, L>,
    r: RegionView<B>,
    machines: Seq<Machine<B, L>>,
) -> bool {
    &&& forall|k: int|
        0 <= k < machines.len() ==> {
            let m = #[trigger] machines[k];
            &&& body.has_local(m.state_local)
            &&& body.has_local(m.poll_result_local)
            &&& m.state_local != m.poll_result_local
            &&& body.blocks[m.exit_bb].stmts.len() == 0
            &&& !region_touches(r, machines, m.exit_bb)
        }
    &&& forall|j: int, k: int|
        0 <= j < machines.len() && 0 <= k < machines.len() && j != k ==> {
            let a = #[trigger] machines[j];
            let b = #[trigger] machines[k];
            &&& a.state_local != b.state_local
            &&& a.state_local != b.poll_result_local
            &&& a.poll_result_local != b.poll_result_local
            &&& a.exit_bb != b.exit_bb
        }
}

/// The machine is in one of its `states`, or in its final one with a ready poll.
pub open spec fn sane<B: CfgId, L: CfgId>(m: Machine<B, L>, states: int, mem: Memory<L>) -> bool {
    &&& mem.ints.contains_key(m.state_local)
    &&& if mem.ints[m.state_local] == DONE_STATE {
        mem.ints.contains_key(m.poll_result_local) && mem.ints[m.poll_result_local] == 0
    } else {
        0 <= mem.ints[m.state_local] < states
    }
}

pub open spec fn all_sane<B: CfgId, L: CfgId>(
    machines: Seq<Machine<B, L>>,
    states: Seq<int>,
    mem: Memory<L>,
) -> bool {
    forall|k: int| 0 <= k < machines.len() ==> sane(#[trigger] machines[k], states[k], mem)
}

/// Every machine is in its final state.
pub open spec fn all_done<B: CfgId, L: CfgId>(
    machines: Seq<Machine<B, L>>,
    mem: Memory<L>,
) -> bool {
    forall|k: int|
        0 <= k < machines.len() ==> mem.ints[(#[trigger] machines[k]).state_local] == DONE_STATE
}

/// How the turns of a region's machines go: `turns(k, mem)` is what is remembered
/// when machine `k`, dispatched with `mem`, comes to its exit.
pub type Turns<L> = spec_fn(int, Memory<L>) -> Memory<L>;

/// A turn of machine `k` from `x` to `y` minds its own business: it notes a poll and
/// leaves the machine sane, and touches neither what the other machines note nor any
/// local that is not there before the executor has made its own.
pub open spec fn minds_its_own<B: CfgId, L: CfgId>(
    before: Body<B, L>,
    machines: Seq<Machine<B, L>>,
    states: Seq<int>,
    k: int,
    x: Memory<L>,
    y: Memory<L>,
) -> bool {
    &&& sane(machines[k], states[k], y)
    &&& y.ints.contains_key(machines[k].poll_result_local)
    &&& forall|l: L| #[trigger]
        before.has_local(l) || (y.flags.contains_key(l) == x.flags.contains_key(l) && y.flags[l]
            == x.flags[l])
    &&& forall|j: int|
        0 <= j < machines.len() && j != k ==> {
            let m = #[trigger] machines[j];
            &&& y.ints.contains_key(m.state_local) == x.ints.contains_key(m.state_local)
            &&& y.ints[m.state_local] == x.ints[m.state_local]
            &&& y.ints.contains_key(m.poll_result_local) == x.ints.contains_key(
                m.poll_result_local,
            )
            &&& y.ints[m.poll_result_local] == x.ints[m.poll_result_local]
        }
}

/// In `body`, every machine that is dispatched in one of its states comes to its exit
/// as `turns` says.
pub open spec fn turns_run<B: CfgId, L: CfgId>(
    before: Body<B, L>,
    body: Body<B, L>,
    host: HostCode<L>,
    machines: Seq<Machine<B, L>>,
    states: Seq<int>,
    turns: Turns<L>,
) -> bool {
    forall|k: int, x: Memory<L>|
        0 <= k < machines.len() && sane(machines[k], states[k], x)
            && x.ints[machines[k].state_local] != DONE_STATE ==> {
            let y = #[trigger] turns(k, x);
            &&& leads(body, host, (machines[k].dispatch_bb, x), (machines[k].exit_bb, y))
            &&& minds_its_own(before, machines, states, k, x, y)
        }
}

/// The same but for the flags.
pub open spec fn same_data<L>(a: Memory<L>, b: Memory<L>) -> bool {
    a.ints == b.ints && a.world == b.world
}

/// Machine `k` polled once: it has a turn unless it is done already, and a ready poll
/// puts it into its final state.
pub open spec fn polled_once<B: CfgId, L: CfgId>(
    m: Machine<B, L>,
    k: int,
    turns: Turns<L>,
    a: Memory<L>,
    b: Memory<L>,
) -> bool {
    exists|x: Memory<L>|
        {
            let y = if a.ints[m.state_local] == DONE_STATE {
                x
            } else {
                turns(k, x)
            };
            &&& #[trigger] same_data(x, a)
            &&& b.world == y.world
            &&& b.ints == if y.ints[m.poll_result_local] == 0 {
                y.ints.insert(m.state_local, DONE_STATE)
            } else {
                y.ints
            }
        }
}

/// The first `n` machines polled once each, one after another.
pub open spec fn polled_in_turn<B: CfgId, L: CfgId>(
    machines: Seq<Machine<B, L>>,
    turns: Turns<L>,
    a: Memory<L>,
    b: Memory<L>,
    n: nat,
) -> bool
    decreases n,
{
    if n == 0 {
        same_data(a, b)
    } else {
        exists|mid: Memory<L>|
            polled_in_turn(machines, turns, a, mid, (n - 1) as nat) && #[trigger] polled_once(
                machines[n - 1],
                n - 1,
                turns,
                mid,
                b,
            )
    }
}

/// The blocks of one machine's part of a pass.
struct Part<B, L> {
    check: B,
    polled: B,
    done: B,
    pending: B,
    next: B,
    is_done: L,
    is_ready: L,
}

spec fn part_stands<B: CfgId, L: CfgId>(
    body: Body<B, L>,
    m: Machine<B, L>,
    p: Part<B, L>,
    lead: Seq<Stmt<L>>,
    flag: L,
) -> bool {
    &&& body.blocks[p.check] == (Block {
        stmts: lead.push(
            Stmt::EqCheckI64 { dest: p.is_done, lhs: m.state_local, rhs: DONE_STATE },
        ),
        term: Term::Branch { cond: p.is_done, yes: p.polled, no: m.dispatch_bb },
    })
    &&& body.blocks[m.exit_bb] == Block::<B, L>::bare(Term::Goto(p.polled))
    &&& body.blocks[p.polled] == (Block {
        stmts: seq![Stmt::EqCheckI64 { dest: p.is_ready, lhs: m.poll_result_local, rhs: 0 }],
        term: Term::Branch { cond: p.is_ready, yes: p.done, no: p.pending },
    })
    &&& body.blocks[p.done] == (Block {
        stmts: seq![Stmt::AssignI64 { local: m.state_local, value: DONE_STATE }],
        term: Term::Goto(p.next),
    })
    &&& body.blocks[p.pending] == (Block {
        stmts: seq![Stmt::AssignBool { local: flag, flag: false }],
        term: Term::Goto(p.next),
    })
    &&& p.is_done != flag
    &&& p.is_ready != flag
}

/// The flag is set, to `value`.
spec fn flag_is<L>(mem: Memory<L>, flag: L, value: bool) -> bool {
    mem.flags.contains_key(flag) && mem.flags[flag] == value
}

/// One machine's part of a pass, run.
proof fn lemma_part_runs<B: CfgId, L: CfgId>(
    before: Body<B, L>,
    body: Body<B, L>,
    host: HostCode<L>,
    machines: Seq<Machine<B, L>>,
    states: Seq<int>,
    turns: Turns<L>,
    k: int,
    p: Part<B, L>,
    lead: Seq<Stmt<L>>,
    flag: L,
    so_far: bool,
    mem: Memory<L>,
) -> (e: Memory<L>)
    requires
        0 <= k < machines.len(),
        part_stands(body, machines[k], p, lead, flag),
        turns_run(before, body, host, machines, states, turns),
        !before.has_local(flag),
        sane(machines[k], states[k], mem),
        states[k] <= DONE_STATE,
        same_data(host.after_stmts(lead, mem), mem),
        flag_is(host.after_stmts(lead, mem), flag, so_far),
        forall|j: int, i: int|
            0 <= j < machines.len() && 0 <= i < machines.len() && j != i ==> (
            #[trigger] machines[j]).state_local != (#[trigger] machines[i]).state_local
                && machines[j].state_local != machines[i].poll_result_local,
        machines[k].state_local != machines[k].poll_result_local,
    ensures
        leads(body, host, (p.check, mem), (p.next, e)),
        polled_once(machines[k], k, turns, mem, e),
        flag_is(e, flag, so_far && e.ints[machines[k].state_local] == DONE_STATE),
        sane(machines[k], states[k], e),
        forall|j: int|
            0 <= j < machines.len() && j != k ==> {
                let m = #[trigger] machines[j];
                &&& e.ints.contains_key(m.state_local) == mem.ints.contains_key(m.state_local)
                &&& e.ints[m.state_local] == mem.ints[m.state_local]
                &&& e.ints.contains_key(m.poll_result_local) == mem.ints.contains_key(
                    m.poll_result_local,
                )
                &&& e.ints[m.poll_result_local] == mem.ints[m.poll_result_local]
            },
{
    let m = machines[k];
    let led = host.after_stmts(lead, mem);
    let check = Stmt::EqCheckI64 { dest: p.is_done, lhs: m.state_local, rhs: DONE_STATE };
    let x = host.after_stmt(check, led);
    assert(lead.push(check).drop_last() =~= lead);
    assert(host.after_stmts(lead.push(check), mem) == x);
    let was_done = mem.ints[m.state_local] == DONE_STATE;
    assert(host.flag_of(x, p.is_done) == was_done);
    assert(same_data(x, mem));
    assert(flag_is(x, flag, so_far));
    // To the block behind the machine's exit, by a turn or past it.
    let y = if was_done {
        x
    } else {
        turns(k, x)
    };
    if was_done {
        lemma_leads_step(body, host, (p.check, mem), (p.polled, y));
    } else {
        lemma_leads_step(body, host, (p.check, mem), (m.dispatch_bb, x));
        assert(sane(m, states[k], x));
        assert(leads(body, host, (m.dispatch_bb, x), (m.exit_bb, turns(k, x))));
        assert(minds_its_own(before, machines, states, k, x, y));
        lemma_few_stmts(host, body.blocks[m.exit_bb].stmts, y);
        lemma_leads_step(body, host, (m.exit_bb, y), (p.polled, y));
        lemma_leads_join(body, host, (p.check, mem), (m.dispatch_bb, x), (m.exit_bb, y));
        lemma_leads_join(body, host, (p.check, mem), (m.exit_bb, y), (p.polled, y));
    }
    assert(flag_is(y, flag, so_far)) by {
        assert(before.has_local(flag) || y.flags.contains_key(flag));
    }
    assert(y.ints.contains_key(m.poll_result_local));
    assert(sane(m, states[k], y));
    let ready = y.ints[m.poll_result_local] == 0;
    lemma_few_stmts(host, body.blocks[p.polled].stmts, y);
    let z = host.after_stmts(body.blocks[p.polled].stmts, y);
    assert(host.flag_of(z, p.is_ready) == ready);
    if ready {
        lemma_leads_step(body, host, (p.polled, y), (p.done, z));
        lemma_few_stmts(host, body.blocks[p.done].stmts, z);
        let e = host.after_stmts(body.blocks[p.done].stmts, z);
        lemma_leads_step(body, host, (p.done, z), (p.next, e));
        lemma_leads_join(body, host, (p.check, mem), (p.polled, y), (p.done, z));
        lemma_leads_join(body, host, (p.check, mem), (p.done, z), (p.next, e));
        assert forall|j: int| 0 <= j < machines.len() && j != k implies (
        #[trigger] machines[j]).state_local != m.state_local && machines[j].poll_result_local
            != m.state_local by {
            assert(machines[k].state_local != machines[j].poll_result_local);
        }
        assert(same_data(x, mem));
        e
    } else {
        lemma_leads_step(body, host, (p.polled, y), (p.pending, z));
        lemma_few_stmts(host, body.blocks[p.pending].stmts, z);
        let e = host.after_stmts(body.blocks[p.pending].stmts, z);
        lemma_leads_step(body, host, (p.pending, z), (p.next, e));
        lemma_leads_join(body, host, (p.check, mem), (p.polled, y), (p.pending, z));
        lemma_leads_join(body, host, (p.check, mem), (p.pending, z), (p.next, e));
        assert(same_data(x, mem));
        e
    }
}

/// `body` has the blocks of a pass over the first `n` machines as `polled` has them;
/// the last of them may have a terminator of its own.
spec fn pass_stands<B: CfgId, L: CfgId>(
    before: Body<B, L>,
    polled: Body<B, L>,
    body: Body<B, L>,
    machines: Seq<Machine<B, L>>,
    n: nat,
    last: B,
) -> bool {
    &&& forall|b: B| #[trigger]
        polled.has(b) && !before.has(b) && b != last ==> body.blocks[b] == polled.blocks[b]
    &&& forall|k: int|
        0 <= k < n ==> body.blocks[(#[trigger] machines[k]).exit_bb]
            == polled.blocks[machines[k].exit_bb]
    &&& body.blocks[last].stmts == polled.blocks[last].stmts
}

/// The part that a machine has been given.
proof fn lemma_part_stands<B: CfgId, L: CfgId>(
    from: Body<B, L>,
    polled: Body<B, L>,
    body: Body<B, L>,
    m: Machine<B, L>,
    check: B,
    next: B,
    flag: L,
) -> (p: Part<B, L>)
    requires
        from.wf(),
        from.has(check),
        from.has(m.exit_bb),
        check != m.exit_bb,
        from.has_local(flag),
        from.blocks[m.exit_bb].stmts.len() == 0,
        machine_polled(from, polled, m, check, next, flag),
        forall|b: B| #[trigger]
            polled.has(b) && !from.has(b) && b != next ==> body.blocks[b] == polled.blocks[b],
        body.blocks[check] == polled.blocks[check],
        body.blocks[m.exit_bb] == polled.blocks[m.exit_bb],
    ensures
        p.check == check,
        p.next == next,
        part_stands(body, m, p, from.blocks[check].stmts, flag),
        polled.blocks[next] == Block::<B, L>::blank(),
        forall|l: L| #[trigger] from.has_local(l) ==> polled.has_local(l),
{
    let n = from.order.len() as int;
    let l = from.locals.len() as int;
    let p = Part {
        check,
        polled: polled.order[n],
        done: polled.order[n + 1],
        pending: polled.order[n + 2],
        next,
        is_done: polled.locals[l].0,
        is_ready: polled.locals[l + 1].0,
    };
    assert(polled.order[n + 3] == next);
    assert(polled.order[n] != polled.order[n + 1]);
    assert(polled.order[n] != polled.order[n + 2]);
    assert(polled.order[n] != polled.order[n + 3]);
    assert(polled.order[n + 1] != polled.order[n + 2]);
    assert(polled.order[n + 1] != polled.order[n + 3]);
    assert(polled.order[n + 2] != polled.order[n + 3]);
    assert forall|b: B| #[trigger] from.has(b) implies b != p.polled && b != p.done && b
        != p.pending && b != next by {
        assert(from.order.contains(b));
        let k = from.order.index_of(b);
        assert(polled.order[k] == b);
    }
    assert(polled.has(p.polled) && polled.has(p.done) && polled.has(p.pending));
    assert(body.blocks[m.exit_bb].stmts =~= Seq::empty());
    assert forall|x: L| #[trigger] from.has_local(x) implies polled.has_local(x) by {
        let i = choose|i: int| 0 <= i < from.locals.len() && (#[trigger] from.locals[i]).0 == x;
        assert(polled.locals[i] == from.locals[i]);
    }
    p
}

/// A pass over the first `n` machines, run from its top.
#[verifier::rlimit(40)]
proof fn lemma_pass_runs<B: CfgId, L: CfgId>(
    before: Body<B, L>,
    opened: Body<B, L>,
    polled: Body<B, L>,
    body: Body<B, L>,
    host: HostCode<L>,
    r: RegionView<B>,
    machines: Seq<Machine<B, L>>,
    states: Seq<int>,
    turns: Turns<L>,
    top: B,
    last: B,
    flag: L,
    n: nat,
    mem: Memory<L>,
) -> (e: Memory<L>)
    requires
        0 < n <= machines.len(),
        machines_apart(before, r, machines),
        region_ready(before, r, machines),
        opened.wf(),
        opened.has(top),
        !before.has(top),
        opened.blocks[top].stmts == seq![Stmt::AssignBool { local: flag, flag: true }],
        !before.has_local(flag),
        opened.has_local(flag),
        forall|b: B| #[trigger] before.has(b) ==> opened.has(b),
        forall|k: int|
            0 <= k < machines.len() ==> opened.blocks[(#[trigger] machines[k]).exit_bb].stmts.len()
                == 0,
        machines_polled(opened, polled, machines, n, top, last, flag),
        pass_stands(before, polled, body, machines, n, last),
        turns_run(before, body, host, machines, states, turns),
        states.len() == machines.len(),
        forall|k: int| 0 <= k < states.len() ==> #[trigger] states[k] <= DONE_STATE,
        all_sane(machines, states, mem),
    ensures
        leads(body, host, (top, mem), (last, e)),
        polled_in_turn(machines, turns, mem, e, n),
        all_sane(machines, states, e),
        flag_is(
            e,
            flag,
            forall|k: int|
                0 <= k < n ==> e.ints[(#[trigger] machines[k]).state_local] == DONE_STATE,
        ),
        polled.blocks[last].stmts.len() == 0,
        forall|l: L| #[trigger] opened.has_local(l) ==> polled.has_local(l),
        forall|k: int|
            n <= k < machines.len() ==> polled.blocks[(#[trigger] machines[k]).exit_bb]
                == opened.blocks[machines[k].exit_bb],
    decreases n,
{
    assert forall|k: int| 0 <= k < machines.len() implies opened.has(
        (#[trigger] machines[k]).exit_bb,
    ) && machines[k].exit_bb != top by {
        assert(before.has(machines[k].exit_bb));
    }
    lemma_pass_keeps(opened, polled, machines, n, top, last, flag);
    if n == 1 {
        let m = machines[0];
        assert(m.exit_bb != top);
        lemma_polled_keeps(opened, polled, m, top, last, flag);
        assert forall|b: B| #[trigger]
            polled.has(b) && !opened.has(b) && b != last implies body.blocks[b]
            == polled.blocks[b] by {
            if before.has(b) {
                assert(opened.has(b));
            }
        }
        assert(polled.has(top));
        let p = lemma_part_stands(opened, polled, body, m, top, last, flag);
        let lead = opened.blocks[top].stmts;
        lemma_few_stmts(host, lead, mem);
        let e = lemma_part_runs(
            before,
            body,
            host,
            machines,
            states,
            turns,
            0,
            p,
            lead,
            flag,
            true,
            mem,
        );
        assert(polled_in_turn(machines, turns, mem, mem, 0));
        assert(polled_once(machines[n - 1], n - 1, turns, mem, e));
        lemma_still_sane(machines, states, mem, e, 0);
        assert forall|k: int| n <= k < machines.len() implies polled.blocks[(
        #[trigger] machines[k]).exit_bb] == opened.blocks[machines[k].exit_bb] by {
            assert(machines[k].exit_bb != machines[0].exit_bb);
        }
        e
    } else {
        let (mid, prev, check) = choose|mid: Body<B, L>, prev: B, check: B|
            {
                &&& machines_polled(opened, mid, machines, (n - 1) as nat, top, prev, flag)
                &&& !mid.has(check)
                &&& #[trigger] machine_polled(
                    mid.with_block(check).end_with(prev, Term::Goto(check)),
                    polled,
                    machines[n - 1],
                    check,
                    last,
                    flag,
                )
            };
        let m = machines[n - 1];
        let linked = mid.with_block(check).end_with(prev, Term::Goto(check));
        lemma_pass_keeps(opened, mid, machines, (n - 1) as nat, top, prev, flag);
        lemma_add_block_wf(mid, check, Block::blank());
        lemma_set_block_wf(mid.with_block(check), prev, linked.blocks[prev]);
        assert(opened.has(m.exit_bb));
        assert(mid.has(m.exit_bb) && linked.has(m.exit_bb));
        assert(linked.has(check));
        lemma_polled_keeps(linked, polled, m, check, last, flag);
        assert(!before.has(prev) && !before.has(check) && !before.has(last)) by {
            if before.has(prev) {
                assert(opened.has(prev));
            }
            if before.has(check) {
                assert(opened.has(check));
                assert(mid.has(check));
            }
            if before.has(last) {
                assert(opened.has(last));
            }
        }
        assert(before.has(m.exit_bb));
        assert(m.exit_bb != check && m.exit_bb != prev);
        assert(last != prev && last != check) by {
            assert(linked.has(prev) && linked.has(check));
            assert(!linked.has(last));
        }
        // What the earlier parts need of the finished body.
        assert forall|b: B| #[trigger]
            mid.has(b) && !before.has(b) && b != prev implies body.blocks[b]
            == mid.blocks[b] by {
            assert(linked.has(b));
            assert(b != check && b != m.exit_bb);
            assert(polled.has(b) && polled.blocks[b] == linked.blocks[b]);
            assert(b != last);
        }
        assert forall|k: int| 0 <= k < n - 1 implies body.blocks[(#[trigger] machines[k]).exit_bb]
            == mid.blocks[machines[k].exit_bb] by {
            let b = machines[k].exit_bb;
            assert(b != m.exit_bb) by {
                assert(machines[k].exit_bb != machines[n - 1].exit_bb);
            }
            assert(before.has(b));
            assert(opened.has(b));
            assert(mid.has(b) && linked.has(b));
            assert(b != check && b != prev);
            assert(polled.blocks[b] == linked.blocks[b]);
        }
        assert(polled.has(prev) && body.blocks[prev] == polled.blocks[prev]) by {
            assert(linked.has(prev));
        }
        assert(polled.blocks[prev] == linked.blocks[prev]) by {
            assert(linked.has(prev));
            assert(prev != check);
        }
        assert(pass_stands(before, mid, body, machines, (n - 1) as nat, prev));
        let e0 = lemma_pass_runs(
            before,
            opened,
            mid,
            body,
            host,
            r,
            machines,
            states,
            turns,
            top,
            prev,
            flag,
            (n - 1) as nat,
            mem,
        );
        // From the end of the part before to the check.
        lemma_few_stmts(host, body.blocks[prev].stmts, e0);
        lemma_leads_step(body, host, (prev, e0), (check, e0));
        lemma_leads_join(body, host, (top, mem), (prev, e0), (check, e0));
        // This machine's part.
        assert(mid.has_local(flag));
        assert(linked.has_local(flag)) by {
            let i = choose|i: int|
                0 <= i < mid.locals.len() && (#[trigger] mid.locals[i]).0 == flag;
            assert(linked.locals[i].0 == flag);
        }
        assert(mid.blocks[m.exit_bb] == opened.blocks[m.exit_bb]);
        assert forall|b: B| #[trigger]
            polled.has(b) && !linked.has(b) && b != last implies body.blocks[b]
            == polled.blocks[b] by {
            if before.has(b) {
                assert(opened.has(b));
                assert(mid.has(b));
            }
        }
        assert(polled.has(check));
        let p = lemma_part_stands(linked, polled, body, m, check, last, flag);
        let lead = linked.blocks[check].stmts;
        assert(lead.len() == 0);
        lemma_few_stmts(host, lead, e0);
        let so_far = forall|k: int|
            0 <= k < n - 1 ==> e0.ints[(#[trigger] machines[k]).state_local] == DONE_STATE;
        assert(sane(machines[n - 1], states[n - 1], e0));
        let e = lemma_part_runs(
            before,
            body,
            host,
            machines,
            states,
            turns,
            n - 1,
            p,
            lead,
            flag,
            so_far,
            e0,
        );
        lemma_leads_join(body, host, (top, mem), (check, e0), (last, e));
        assert(polled_once(machines[n - 1], n - 1, turns, e0, e));
        lemma_still_sane(machines, states, e0, e, n - 1);
        lemma_flag_adds(machines, e0, e, n);
        assert forall|l: L| #[trigger] opened.has_local(l) implies polled.has_local(l) by {
            assert(mid.has_local(l));
            let i = choose|i: int| 0 <= i < mid.locals.len() && (#[trigger] mid.locals[i]).0 == l;
            assert(linked.locals[i].0 == l);
            assert(linked.has_local(l));
        }
        assert forall|k: int| n <= k < machines.len() implies polled.blocks[(
        #[trigger] machines[k]).exit_bb] == opened.blocks[machines[k].exit_bb] by {
            let b = machines[k].exit_bb;
            assert(machines[k].exit_bb != machines[n - 1].exit_bb);
            assert(before.has(b));
            assert(opened.has(b));
            assert(mid.has(b) && linked.has(b));
            assert(b != check && b != prev);
        }
        e
    }
}

proof fn lemma_still_sane<B: CfgId, L: CfgId>(
    machines: Seq<Machine<B, L>>,
    states: Seq<int>,
    a: Memory<L>,
    b: Memory<L>,
    k: int,
)
    requires
        0 <= k < machines.len(),
        all_sane(machines, states, a),
        sane(machines[k], states[k], b),
        forall|j: int|
            0 <= j < machines.len() && j != k ==> {
                let m = #[trigger] machines[j];
                &&& b.ints.contains_key(m.state_local) == a.ints.contains_key(m.state_local)
                &&& b.ints[m.state_local] == a.ints[m.state_local]
                &&& b.ints.contains_key(m.poll_result_local) == a.ints.contains_key(
                    m.poll_result_local,
                )
                &&& b.ints[m.poll_result_local] == a.ints[m.poll_result_local]
            },
    ensures
        all_sane(machines, states, b),
{
    assert forall|j: int| 0 <= j < machines.len() implies sane(
        #[trigger] machines[j],
        states[j],
        b,
    ) by {
        assert(sane(machines[j], states[j], a));
    }
}

proof fn lemma_flag_adds<B: CfgId, L: CfgId>(
    machines: Seq<Machine<B, L>>,
    a: Memory<L>,
    b: Memory<L>,
    n: nat,
)
    requires
        0 < n <= machines.len(),
        forall|j: int|
            0 <= j < machines.len() && j != n - 1 ==> b.ints[(#[trigger] machines[j]).state_local]
                == a.ints[machines[j].state_local],
    ensures
        (forall|k: int|
            0 <= k < n ==> b.ints[(#[trigger] machines[k]).state_local] == DONE_STATE) == ((forall|
            k: int,
        | 0 <= k < n - 1 ==> a.ints[(#[trigger] machines[k]).state_local] == DONE_STATE)
            && b.ints[machines[n - 1].state_local] == DONE_STATE),
{
    if forall|k: int| 0 <= k < n ==> b.ints[(#[trigger] machines[k]).state_local] == DONE_STATE {
        assert(machines[n - 1] == machines[n - 1]);
        assert forall|k: int| 0 <= k < n - 1 implies a.ints[(#[trigger] machines[k]).state_local]
            == DONE_STATE by {
            assert(b.ints[machines[k].state_local] == DONE_STATE);
        }
    }
}

/// The finished region has the blocks of its pass as they were wired.
proof fn lemma_closed_stands<B: CfgId, L: CfgId>(
    before: Body<B, L>,
    opened: Body<B, L>,
    polled: Body<B, L>,
    wired: Body<B, L>,
    after: Body<B, L>,
    r: RegionView<B>,
    machines: Seq<Machine<B, L>>,
    p: Pass<B, L>,
    last: B,
    entry: B,
)
    requires
        region_ready(before, r, machines),
        machines_apart(before, r, machines),
        pass_opened(before, opened, r, p),
        machines_polled(opened, polled, machines, machines.len(), p.top, last, p.all_done),
        forall|b: B| #[trigger]
            polled.has(b) ==> wired.has(b) && (b != last ==> wired.blocks[b] == polled.blocks[b])
                && wired.blocks[b].stmts == polled.blocks[b].stmts,
        !polled.has(entry),
        !wired.has(entry),
        after == region_closed(wired, r, machines, p.top, entry),
    ensures
        pass_stands(before, polled, after, machines, machines.len(), last),
        after.blocks[last] == wired.blocks[last],
        after.blocks[p.exit] == Block::<B, L>::bare(Term::Goto(p.post)),
        after.blocks[p.post] == Block::<B, L>::bare(before.blocks[r.region_end.0].term),
        after.blocks[r.region_begin.0].term == Term::<B, L>::Goto(p.top),
        opened.wf(),
        opened.has(p.top),
        forall|b: B| #[trigger] before.has(b) ==> opened.has(b),
        forall|k: int|
            0 <= k < machines.len() ==> opened.blocks[(#[trigger] machines[k]).exit_bb].stmts.len()
                == 0,
        opened.blocks[p.top].stmts == seq![Stmt::<L>::AssignBool { local: p.all_done, flag: true }],
        opened.has_local(p.all_done),
        polled.has(last),
        !before.has(last),
        last != p.exit,
        last != p.post,
{
    lemma_opened_keeps(before, opened, r, p);
    assert forall|k: int| 0 <= k < machines.len() implies opened.has(
        (#[trigger] machines[k]).exit_bb,
    ) && opened.blocks[machines[k].exit_bb] == before.blocks[machines[k].exit_bb] by {
        assert(before.has(machines[k].exit_bb));
        assert(!region_touches(r, machines, machines[k].exit_bb));
    }
    lemma_pass_keeps(opened, polled, machines, machines.len(), p.top, last, p.all_done);
    assert(opened.locals.last().0 == p.all_done);
    assert(opened.has_local(p.all_done)) by {
        assert(opened.locals[opened.locals.len() - 1].0 == p.all_done);
    }
    assert(!before.has(last)) by {
        if before.has(last) {
            assert(opened.has(last));
        }
    }
    assert forall|b: B| #[trigger] polled.has(b) && !before.has(b) implies after.blocks[b]
        == wired.blocks[b] by {
        lemma_fresh_untouched(before, r, machines, b);
        lemma_closed_keeps(wired, r, machines, p.top, entry, b);
    }
    assert forall|k: int| 0 <= k < machines.len() implies after.blocks[(
    #[trigger] machines[k]).exit_bb] == polled.blocks[machines[k].exit_bb] by {
        let b = machines[k].exit_bb;
        assert(before.has(b) && opened.has(b));
        assert(polled.has(b));
        assert(!region_touches(r, machines, b));
        lemma_closed_keeps(wired, r, machines, p.top, entry, b);
    }
    lemma_fresh_untouched(before, r, machines, p.exit);
    lemma_fresh_untouched(before, r, machines, p.post);
    assert(polled.has(p.exit) && polled.has(p.post));
    assert(last != p.exit && last != p.post) by {
        if machines.len() > 0 {
            assert(!opened.has(last));
        }
    }
}

/// A pass over all the machines, run from its top to the test of its flag.
proof fn lemma_whole_pass<B: CfgId, L: CfgId>(
    before: Body<B, L>,
    opened: Body<B, L>,
    polled: Body<B, L>,
    after: Body<B, L>,
    host: HostCode<L>,
    r: RegionView<B>,
    machines: Seq<Machine<B, L>>,
    states: Seq<int>,
    turns: Turns<L>,
    p: Pass<B, L>,
    last: B,
    otherwise: B,
    mem: Memory<L>,
) -> (e: Memory<L>)
    requires
        region_ready(before, r, machines),
        machines_apart(before, r, machines),
        pass_opened(before, opened, r, p),
        machines_polled(opened, polled, machines, machines.len(), p.top, last, p.all_done),
        pass_stands(before, polled, after, machines, machines.len(), last),
        after.blocks[last].term == (Term::Branch {
            cond: p.all_done,
            yes: p.exit,
            no: otherwise,
        }),
        opened.wf(),
        opened.has(p.top),
        forall|b: B| #[trigger] before.has(b) ==> opened.has(b),
        forall|k: int|
            0 <= k < machines.len() ==> opened.blocks[(#[trigger] machines[k]).exit_bb].stmts.len()
                == 0,
        opened.blocks[p.top].stmts == seq![Stmt::<L>::AssignBool { local: p.all_done, flag: true }],
        opened.has_local(p.all_done),
        turns_run(before, after, host, machines, states, turns),
        states.len() == machines.len(),
        forall|k: int| 0 <= k < states.len() ==> #[trigger] states[k] <= DONE_STATE,
        all_sane(machines, states, mem),
    ensures
        polled_in_turn(machines, turns, mem, e, machines.len()),
        all_sane(machines, states, e),
        leads(
            after,
            host,
            (p.top, mem),
            (
                if all_done(machines, e) {
                    p.exit
                } else {
                    otherwise
                },
                e,
            ),
        ),
{
    if machines.len() == 0 {
        lemma_few_stmts(host, after.blocks[last].stmts, mem);
        let e = host.after_stmts(after.blocks[last].stmts, mem);
        lemma_leads_step(after, host, (p.top, mem), (p.exit, e));
        e
    } else {
        let e = lemma_pass_runs(
            before,
            opened,
            polled,
            after,
            host,
            r,
            machines,
            states,
            turns,
            p.top,
            last,
            p.all_done,
            machines.len(),
            mem,
        );
        lemma_few_stmts(host, after.blocks[last].stmts, e);
        let to = if all_done(machines, e) {
            p.exit
        } else {
            otherwise
        };
        lemma_leads_step(after, host, (last, e), (to, e));
        lemma_leads_join(after, host, (p.top, mem), (last, e), (to, e));
        e
    }
}

/// A region that leaves for `exit` leads to what followed it.
pub open spec fn leaves_region<B: CfgId, L: CfgId>(
    before: Body<B, L>,
    after: Body<B, L>,
    r: RegionView<B>,
    exit: B,
) -> bool {
    &&& !before.has(exit)
    &&& after.blocks[exit].stmts.len() == 0
    &&& after.blocks[exit].term matches Term::Goto(post) && after.blocks[post].stmts.len() == 0
        && after.blocks[post].term == before.blocks[r.region_end.0].term
}

/// A pass of the cooperative loop, run from its top. Every machine is polled once, in
/// order: it has a turn unless it is done already. Then, if every machine is in its
/// final state, the region is left for what followed it; and if any is not, the pass
/// starts over.
pub proof fn law_a_cooperative_region_is_left_when_all_are_done<B: CfgId, L: CfgId>(
    before: Body<B, L>,
    after: Body<B, L>,
    r: RegionView<B>,
    machines: Seq<Machine<B, L>>,
    host: HostCode<L>,
    states: Seq<int>,
    turns: Turns<L>,
    mem: Memory<L>,
)
    requires
        region_ready(before, r, machines),
        machines_apart(before, r, machines),
        cooperative_loop(before, after, r, machines),
        turns_run(before, after, host, machines, states, turns),
        states.len() == machines.len(),
        forall|k: int| 0 <= k < states.len() ==> #[trigger] states[k] <= DONE_STATE,
        all_sane(machines, states, mem),
    ensures
        exists|top: B, exit: B, to: B, e: Memory<L>|
            {
                &&& after.blocks[r.region_begin.0].term == Term::<B, L>::Goto(top)
                &&& #[trigger] leaves_region(before, after, r, exit)
                &&& top != exit
                &&& #[trigger] leads(after, host, (top, mem), (to, e))
                &&& to == if all_done(machines, e) {
                    exit
                } else {
                    top
                }
                &&& polled_in_turn(machines, turns, mem, e, machines.len())
                &&& all_sane(machines, states, e)
            },
{
    let (p, opened, polled, last) = choose|
        p: Pass<B, L>,
        opened: Body<B, L>,
        polled: Body<B, L>,
        last: B,
    |
        {
            &&& #[trigger] pass_opened(before, opened, r, p)
            &&& #[trigger] machines_polled(
                opened,
                polled,
                machines,
                machines.len(),
                p.top,
                last,
                p.all_done,
            )
            &&& !polled.has(after.order.last())
            &&& after == region_closed(
                polled.end_with(
                    last,
                    Term::Branch { cond: p.all_done, yes: p.exit, no: p.top },
                ),
                r,
                machines,
                p.top,
                after.order.last(),
            )
        };
    let wired = polled.end_with(last, Term::Branch { cond: p.all_done, yes: p.exit, no: p.top });
    lemma_last_is_there(before, opened, polled, r, machines, p, last);
    lemma_closed_stands(
        before,
        opened,
        polled,
        wired,
        after,
        r,
        machines,
        p,
        last,
        after.order.last(),
    );
    let e = lemma_whole_pass(
        before,
        opened,
        polled,
        after,
        host,
        r,
        machines,
        states,
        turns,
        p,
        last,
        p.top,
        mem,
    );
    assert(leaves_region(before, after, r, p.exit));
    assert(leads(
        after,
        host,
        (p.top, mem),
        (
            if all_done(machines, e) {
                p.exit
            } else {
                p.top
            },
            e,
        ),
    ));
}

proof fn lemma_last_is_there<B: CfgId, L: CfgId>(
    before: Body<B, L>,
    opened: Body<B, L>,
    polled: Body<B, L>,
    r: RegionView<B>,
    machines: Seq<Machine<B, L>>,
    p: Pass<B, L>,
    last: B,
)
    requires
        region_ready(before, r, machines),
        pass_opened(before, opened, r, p),
        machines_polled(opened, polled, machines, machines.len(), p.top, last, p.all_done),
    ensures
        polled.has(last),
{
    lemma_opened_keeps(before, opened, r, p);
    assert forall|k: int| 0 <= k < machines.len() implies opened.has(
        (#[trigger] machines[k]).exit_bb,
    ) by {
        assert(before.has(machines[k].exit_bb));
    }
    lemma_pass_keeps(opened, polled, machines, machines.len(), p.top, last, p.all_done);
}

/// The pass of a waker-driven region, run from its top. Every machine is polled once,
/// in order: it has a turn unless it is done already. Then, if every machine is in its
/// final state, the region is left by its done exit, for what followed it; and if any
/// is not, by its pending exit.
pub proof fn law_a_waker_region_is_done_when_all_are_done<B: CfgId, L: CfgId>(
    before: Body<B, L>,
    after: Body<B, L>,
    r: RegionView<B>,
    machines: Seq<Machine<B, L>>,
    exits: RegionExits<B>,
    host: HostCode<L>,
    states: Seq<int>,
    turns: Turns<L>,
    mem: Memory<L>,
)
    requires
        region_ready(before, r, machines),
        machines_apart(before, r, machines),
        waker_pass(before, after, r, machines, exits),
        turns_run(before, after, host, machines, states, turns),
        states.len() == machines.len(),
        forall|k: int| 0 <= k < states.len() ==> #[trigger] states[k] <= DONE_STATE,
        all_sane(machines, states, mem),
    ensures
        leaves_region(before, after, r, exits.done),
        exits.done != exits.pending,
        exists|top: B, to: B, e: Memory<L>|
            {
                &&& after.blocks[r.region_begin.0].term == Term::<B, L>::Goto(top)
                &&& #[trigger] leads(after, host, (top, mem), (to, e))
                &&& to == if all_done(machines, e) {
                    exits.done
                } else {
                    exits.pending
                }
                &&& polled_in_turn(machines, turns, mem, e, machines.len())
                &&& all_sane(machines, states, e)
            },
{
    let (p, opened, polled, last) = choose|
        p: Pass<B, L>,
        opened: Body<B, L>,
        polled: Body<B, L>,
        last: B,
    |
        {
            &&& #[trigger] pass_opened(before, opened, r, p)
            &&& #[trigger] machines_polled(
                opened,
                polled,
                machines,
                machines.len(),
                p.top,
                last,
                p.all_done,
            )
            &&& exits.done == p.exit
            &&& !polled.has(exits.pending)
            &&& !polled.with_block(exits.pending).has(after.order.last())
            &&& after == region_closed(
                polled.with_block(exits.pending).end_with(
                    last,
                    Term::Branch { cond: p.all_done, yes: p.exit, no: exits.pending },
                ),
                r,
                machines,
                p.top,
                after.order.last(),
            )
        };
    let wired = polled.with_block(exits.pending).end_with(
        last,
        Term::Branch { cond: p.all_done, yes: p.exit, no: exits.pending },
    );
    lemma_last_is_there(before, opened, polled, r, machines, p, last);
    lemma_closed_stands(
        before,
        opened,
        polled,
        wired,
        after,
        r,
        machines,
        p,
        last,
        after.order.last(),
    );
    let e = lemma_whole_pass(
        before,
        opened,
        polled,
        after,
        host,
        r,
        machines,
        states,
        turns,
        p,
        last,
        exits.pending,
        mem,
    );
    law_waker_exits(before, after, r, machines, exits);
    assert(leaves_region(before, after, r, exits.done));
    assert(leads(
        after,
        host,
        (p.top, mem),
        (
            if all_done(machines, e) {
                exits.done
            } else {
                exits.pending
            },
            e,
        ),
    ));
}

/// `pos` is the place of one of the region's own markers.
pub open spec fn is_region_marker<B: CfgId>(r: RegionView<B>, pos: (B, usize)) -> bool {
    ||| pos == r.region_begin
    ||| pos == r.region_end
    ||| exists|j: int|
        0 <= j < r.coroutines.len() && ((#[trigger] r.coroutines[j]).begin == pos
            || r.coroutines[j].end == pos)
}

/// The region's own markers do nothing when they are run.
pub open spec fn markers_idle<B: CfgId, L: CfgId>(
    body: Body<B, L>,
    r: RegionView<B>,
    host: HostCode<L>,
) -> bool {
    forall|pos: (B, usize), x: Memory<L>| #[trigger]
        is_region_marker(r, pos) ==> #[trigger] host.after_stmt(body.stmt(pos), x) == x
}

proof fn lemma_zeroed_runs<B: CfgId, L: CfgId>(
    body: Body<B, L>,
    host: HostCode<L>,
    machines: Seq<Machine<B, L>>,
    n: nat,
    b: B,
    mem: Memory<L>,
)
    requires
        n <= machines.len(),
        forall|j: int, k: int|
            0 <= j < machines.len() && 0 <= k < machines.len() && j != k ==> (
            #[trigger] machines[j]).state_local != (#[trigger] machines[k]).state_local,
    ensures
        ({
            let end = host.after_stmts(states_zeroed(body, machines, n, b).blocks[b].stmts, mem);
            let x = host.after_stmts(body.blocks[b].stmts, mem);
            &&& end.world == x.world
            &&& end.flags == x.flags
            &&& forall|k: int|
                0 <= k < n ==> end.ints.contains_key((#[trigger] machines[k]).state_local)
                    && end.ints[machines[k].state_local] == 0
        }),
    decreases n,
{
    if n > 0 {
        lemma_zeroed_runs(body, host, machines, (n - 1) as nat, b, mem);
        let prior = states_zeroed(body, machines, (n - 1) as nat, b).blocks[b].stmts;
        let s = Stmt::AssignI64 { local: machines[n - 1].state_local, value: 0 };
        assert(prior.push(s).drop_last() =~= prior);
        assert(states_zeroed(body, machines, n, b).blocks[b].stmts == prior.push(s));
        assert forall|k: int| 0 <= k < n implies host.after_stmts(
            prior.push(s),
            mem,
        ).ints.contains_key((#[trigger] machines[k]).state_local) && host.after_stmts(prior.push(s), mem).ints[machines[k].state_local] == 0 by {
            if k < n - 1 {
                assert(machines[k].state_local != machines[n - 1].state_local);
            }
        }
    }
}

/// The opening block of a finished region, run.
proof fn lemma_opening_runs<B: CfgId, L: CfgId>(
    before: Body<B, L>,
    opened: Body<B, L>,
    polled: Body<B, L>,
    wired: Body<B, L>,
    after: Body<B, L>,
    host: HostCode<L>,
    r: RegionView<B>,
    machines: Seq<Machine<B, L>>,
    p: Pass<B, L>,
    last: B,
    entry: B,
    mem: Memory<L>,
)
    requires
        region_ready(before, r, machines),
        machines_apart(before, r, machines),
        markers_idle(before, r, host),
        pass_opened(before, opened, r, p),
        machines_polled(opened, polled, machines, machines.len(), p.top, last, p.all_done),
        forall|b: B| #[trigger]
            polled.has(b) ==> wired.has(b) && wired.blocks[b].stmts == polled.blocks[b].stmts,
        !wired.has(entry),
        after == region_closed(wired, r, machines, p.top, entry),
    ensures
        opens_region(before, after, r, machines, host, mem),
{
    lemma_opened_keeps(before, opened, r, p);
    assert forall|k: int| 0 <= k < machines.len() implies opened.has(
        (#[trigger] machines[k]).exit_bb,
    ) by {
        assert(before.has(machines[k].exit_bb));
    }
    lemma_pass_keeps(opened, polled, machines, machines.len(), p.top, last, p.all_done);
    // The blocks with the region's markers have their statements still.
    assert forall|pos: (B, usize)| #[trigger] is_region_marker(r, pos) implies wired.at(pos)
        && wired.blocks[pos.0].stmts == before.blocks[pos.0].stmts by {
        if exists|j: int|
            0 <= j < r.coroutines.len() && ((#[trigger] r.coroutines[j]).begin == pos
                || r.coroutines[j].end == pos) {
            let j = choose|j: int|
                0 <= j < r.coroutines.len() && ((#[trigger] r.coroutines[j]).begin == pos
                    || r.coroutines[j].end == pos);
            assert(before.at(r.coroutines[j].begin) && before.at(r.coroutines[j].end));
        }
        let b = pos.0;
        assert(before.at(pos));
        assert(region_touches(r, machines, b));
        assert(opened.has(b) && opened.blocks[b].stmts == before.blocks[b].stmts);
        assert forall|k: int| 0 <= k < machines.len() implies (#[trigger] machines[k]).exit_bb
            != b by {
            assert(!region_touches(r, machines, machines[k].exit_bb));
        }
        assert(polled.has(b) && polled.blocks[b] == opened.blocks[b]);
    }
    let open_bb = r.region_begin.0;
    let idx = r.region_begin.1 as int;
    assert(is_region_marker(r, r.region_begin) && is_region_marker(r, r.region_end));
    assert forall|j: int| 0 <= j < r.coroutines.len() implies wired.at(
        (#[trigger] r.coroutines[j]).begin,
    ) && wired.at(r.coroutines[j].end) by {
        assert(is_region_marker(r, r.coroutines[j].begin));
        assert(is_region_marker(r, r.coroutines[j].end));
    }
    let erased = region_erased(wired, r);
    law_region_markers_are_erased(wired, r, r.region_begin);
    let was = before.blocks[open_bb].stmts.take(idx + 1);
    let is = erased.blocks[open_bb].stmts.take(idx + 1);
    assert forall|i: int, x: Memory<L>| 0 <= i < is.len() implies #[trigger] host.after_stmt(
        is[i],
        x,
    ) == host.after_stmt(was[i], x) by {
        let pos = (open_bb, i as usize);
        assert(wired.at(pos));
        law_region_markers_are_erased(wired, r, pos);
        if is_region_marker(r, pos) {
            assert(host.after_stmt(before.stmt(pos), x) == x);
        }
    }
    lemma_same_effect(host, is, was, mem);
    let split = erased.split(open_bb, idx, entry);
    let retargeted = if machines.len() > 0 && r.coroutines.len() > 0
        && r.coroutines[0].begin.0 == open_bb {
        let dispatch = machines[0].dispatch_bb;
        split.end_with(dispatch, split.blocks[dispatch].term.redirected(open_bb, entry))
    } else {
        split
    };
    assert(open_bb != entry);
    assert(retargeted.blocks[open_bb].stmts == is);
    lemma_zeroed_runs(retargeted, host, machines, machines.len(), open_bb, mem);
    let end = host.after_stmts(after.blocks[open_bb].stmts, mem);
    lemma_leads_step(after, host, (open_bb, mem), (p.top, end));
}

/// The opening block of a region runs what stands before the region, and then comes to
/// the top of a pass with every machine in its first state.
pub open spec fn opens_region<B: CfgId, L: CfgId>(
    before: Body<B, L>,
    after: Body<B, L>,
    r: RegionView<B>,
    machines: Seq<Machine<B, L>>,
    host: HostCode<L>,
    mem: Memory<L>,
) -> bool {
    exists|top: B, x: Memory<L>|
        {
            let first = before.blocks[r.region_begin.0].stmts.take(r.region_begin.1 + 1);
            &&& after.blocks[r.region_begin.0].term == Term::<B, L>::Goto(top)
            &&& #[trigger] leads(after, host, (r.region_begin.0, mem), (top, x))
            &&& x.world == host.after_stmts(first, mem).world
            &&& forall|k: int|
                0 <= k < machines.len() ==> x.ints.contains_key(
                    (#[trigger] machines[k]).state_local,
                ) && x.ints[machines[k].state_local] == 0
        }
}

/// A region, either driven by a loop or by a waker, opens with every machine at its
/// start, having run what stood before it and nothing else.
pub proof fn law_a_region_opens_with_all_at_their_start<B: CfgId, L: CfgId>(
    before: Body<B, L>,
    after: Body<B, L>,
    r: RegionView<B>,
    machines: Seq<Machine<B, L>>,
    exits: RegionExits<B>,
    host: HostCode<L>,
    mem: Memory<L>,
)
    requires
        region_ready(before, r, machines),
        machines_apart(before, r, machines),
        markers_idle(before, r, host),
        cooperative_loop(before, after, r, machines) || waker_pass(
            before,
            after,
            r,
            machines,
            exits,
        ),
    ensures
        opens_region(before, after, r, machines, host, mem),
{
    if cooperative_loop(before, after, r, machines) {
        let (p, opened, polled, last) = choose|
            p: Pass<B, L>,
            opened: Body<B, L>,
            polled: Body<B, L>,
            last: B,
        |
            {
                &&& #[trigger] pass_opened(before, opened, r, p)
                &&& #[trigger] machines_polled(
                    opened,
                    polled,
                    machines,
                    machines.len(),
                    p.top,
                    last,
                    p.all_done,
                )
                &&& !polled.has(after.order.last())
                &&& after == region_closed(
                    polled.end_with(
                        last,
                        Term::Branch { cond: p.all_done, yes: p.exit, no: p.top },
                    ),
                    r,
                    machines,
                    p.top,
                    after.order.last(),
                )
            };
        lemma_last_is_there(before, opened, polled, r, machines, p, last);
        lemma_opening_runs(
            before,
            opened,
            polled,
            polled.end_with(last, Term::Branch { cond: p.all_done, yes: p.exit, no: p.top }),
            after,
            host,
            r,
            machines,
            p,
            last,
            after.order.last(),
            mem,
        );
    } else {
        let (p, opened, polled, last) = choose|
            p: Pass<B, L>,
            opened: Body<B, L>,
            polled: Body<B, L>,
            last: B,
        |
            {
                &&& #[trigger] pass_opened(before, opened, r, p)
                &&& #[trigger] machines_polled(
                    opened,
                    polled,
                    machines,
                    machines.len(),
                    p.top,
                    last,
                    p.all_done,
                )
                &&& exits.done == p.exit
                &&& !polled.has(exits.pending)
                &&& !polled.with_block(exits.pending).has(after.order.last())
                &&& after == region_closed(
                    polled.with_block(exits.pending).end_with(
                        last,
                        Term::Branch { cond: p.all_done, yes: p.exit, no: exits.pending },
                    ),
                    r,
                    machines,
                    p.top,
                    after.order.last(),
                )
            };
        lemma_last_is_there(before, opened, polled, r, machines, p, last);
        lemma_opening_runs(
            before,
            opened,
            polled,
            polled.with_block(exits.pending).end_with(
                last,
                Term::Branch { cond: p.all_done, yes: p.exit, no: exits.pending },
            ),
            after,
            host,
            r,
            machines,
            p,
            last,
            after.order.last(),
            mem,
        );
    }
}

proof fn lemma_coroutines_erased_shape<B: CfgId, L: CfgId>(
    body: Body<B, L>,
    cs: Seq<Coroutine<B>>,
    n: nat,
    b: B,
)
    requires
        n <= cs.len(),
        forall|j: int|
            0 <= j < cs.len() ==> body.at((#[trigger] cs[j]).begin) && body.at(cs[j].end),
    ensures
        coroutines_erased(body, cs, n).blocks[b].stmts.len() == body.blocks[b].stmts.len(),
        coroutines_erased(body, cs, n).blocks[b].term == body.blocks[b].term,
    decreases n,
{
    if n > 0 {
        let c = cs[n - 1];
        lemma_coroutines_erased_shape(body, cs, (n - 1) as nat, b);
        lemma_coroutines_erased_shape(body, cs, (n - 1) as nat, c.begin.0);
        lemma_coroutines_erased_shape(body, cs, (n - 1) as nat, c.end.0);
        assert(body.at(c.begin) && body.at(c.end));
    }
}

/// Erasing the region's markers changes nothing about how a block runs.
proof fn lemma_erased_runs<B: CfgId, L: CfgId>(
    before: Body<B, L>,
    body: Body<B, L>,
    host: HostCode<L>,
    r: RegionView<B>,
    b: B,
    from: int,
    mem: Memory<L>,
)
    requires
        markers_idle(before, r, host),
        body.has(b),
        body.blocks[b].stmts == before.blocks[b].stmts,
        body.blocks[b].stmts.len() <= usize::MAX,
        body.at(r.region_begin),
        body.at(r.region_end),
        forall|j: int|
            0 <= j < r.coroutines.len() ==> body.at((#[trigger] r.coroutines[j]).begin) && body.at(
                r.coroutines[j].end,
            ),
        0 <= from <= body.blocks[b].stmts.len(),
    ensures
        host.after_stmts(region_erased(body, r).blocks[b].stmts.skip(from), mem)
            == host.after_stmts(before.blocks[b].stmts.skip(from), mem),
        region_erased(body, r).blocks[b].stmts.len() == body.blocks[b].stmts.len(),
        region_erased(body, r).blocks[b].term == body.blocks[b].term,
{
    let erased = region_erased(body, r);
    lemma_coroutines_erased_shape(body, r.coroutines, r.coroutines.len(), b);
    lemma_coroutines_erased_shape(body, r.coroutines, r.coroutines.len(), r.region_begin.0);
    lemma_coroutines_erased_shape(body, r.coroutines, r.coroutines.len(), r.region_end.0);
    let is = erased.blocks[b].stmts.skip(from);
    let was = before.blocks[b].stmts.skip(from);
    assert forall|i: int, x: Memory<L>| 0 <= i < is.len() implies #[trigger] host.after_stmt(
        is[i],
        x,
    ) == host.after_stmt(was[i], x) by {
        let pos = (b, (from + i) as usize);
        assert(body.at(pos));
        law_region_markers_are_erased(body, r, pos);
        if is_region_marker(r, pos) {
            assert(host.after_stmt(before.stmt(pos), x) == x);
        }
    }
    lemma_same_effect(host, is, was, mem);
}

/// What an executor has wired, before it closes the region.
spec fn wired_up<B: CfgId, L: CfgId>(
    before: Body<B, L>,
    opened: Body<B, L>,
    polled: Body<B, L>,
    wired: Body<B, L>,
    r: RegionView<B>,
    machines: Seq<Machine<B, L>>,
    p: Pass<B, L>,
    last: B,
    entry: B,
) -> bool {
    &&& pass_opened(before, opened, r, p)
    &&& machines_polled(opened, polled, machines, machines.len(), p.top, last, p.all_done)
    &&& forall|b: B| #[trigger]
        polled.has(b) ==> wired.has(b) && (b != last ==> wired.blocks[b] == polled.blocks[b])
            && wired.blocks[b].stmts == polled.blocks[b].stmts
    &&& !wired.has(entry)
}

/// Either executor wires a region up and closes it.
proof fn lemma_wired_up<B: CfgId, L: CfgId>(
    before: Body<B, L>,
    after: Body<B, L>,
    r: RegionView<B>,
    machines: Seq<Machine<B, L>>,
    exits: RegionExits<B>,
) -> (w: (Body<B, L>, Body<B, L>, Body<B, L>, Pass<B, L>, B))
    requires
        region_ready(before, r, machines),
        cooperative_loop(before, after, r, machines) || waker_pass(
            before,
            after,
            r,
            machines,
            exits,
        ),
    ensures
        wired_up(before, w.0, w.1, w.2, r, machines, w.3, w.4, after.order.last()),
        after == region_closed(w.2, r, machines, w.3.top, after.order.last()),
{
    if cooperative_loop(before, after, r, machines) {
        let (p, opened, polled, last) = choose|
            p: Pass<B, L>,
            opened: Body<B, L>,
            polled: Body<B, L>,
            last: B,
        |
            {
                &&& #[trigger] pass_opened(before, opened, r, p)
                &&& #[trigger] machines_polled(
                    opened,
                    polled,
                    machines,
                    machines.len(),
                    p.top,
                    last,
                    p.all_done,
                )
                &&& !polled.has(after.order.last())
                &&& after == region_closed(
                    polled.end_with(
                        last,
                        Term::Branch { cond: p.all_done, yes: p.exit, no: p.top },
                    ),
                    r,
                    machines,
                    p.top,
                    after.order.last(),
                )
            };
        lemma_last_is_there(before, opened, polled, r, machines, p, last);
        let wired = polled.end_with(
            last,
            Term::Branch { cond: p.all_done, yes: p.exit, no: p.top },
        );
        (opened, polled, wired, p, last)
    } else {
        let (p, opened, polled, last) = choose|
            p: Pass<B, L>,
            opened: Body<B, L>,
            polled: Body<B, L>,
            last: B,
        |
            {
                &&& #[trigger] pass_opened(before, opened, r, p)
                &&& #[trigger] machines_polled(
                    opened,
                    polled,
                    machines,
                    machines.len(),
                    p.top,
                    last,
                    p.all_done,
                )
                &&& exits.done == p.exit
                &&& !polled.has(exits.pending)
                &&& !polled.with_block(exits.pending).has(after.order.last())
                &&& after == region_closed(
                    polled.with_block(exits.pending).end_with(
                        last,
                        Term::Branch { cond: p.all_done, yes: p.exit, no: exits.pending },
                    ),
                    r,
                    machines,
                    p.top,
                    after.order.last(),
                )
            };
        lemma_last_is_there(before, opened, polled, r, machines, p, last);
        let wired = polled.with_block(exits.pending).end_with(
            last,
            Term::Branch { cond: p.all_done, yes: p.exit, no: exits.pending },
        );
        (opened, polled, wired, p, last)
    }
}

/// What wiring a region up keeps of a block that was there.
proof fn lemma_wiring_keeps<B: CfgId, L: CfgId>(
    before: Body<B, L>,
    opened: Body<B, L>,
    polled: Body<B, L>,
    wired: Body<B, L>,
    r: RegionView<B>,
    machines: Seq<Machine<B, L>>,
    p: Pass<B, L>,
    last: B,
    entry: B,
)
    requires
        region_ready(before, r, machines),
        machines_apart(before, r, machines),
        wired_up(before, opened, polled, wired, r, machines, p, last, entry),
    ensures
        forall|b: B| #[trigger]
            before.has(b) ==> wired.has(b) && b != entry && ((forall|k: int|
                0 <= k < machines.len() ==> (#[trigger] machines[k]).exit_bb != b)
                ==> wired.blocks[b].stmts == before.blocks[b].stmts && (b != r.region_end.0
                ==> wired.blocks[b] == before.blocks[b])),
        wired.at(r.region_begin),
        wired.at(r.region_end),
        forall|j: int|
            0 <= j < r.coroutines.len() ==> wired.at((#[trigger] r.coroutines[j]).begin)
                && wired.at(r.coroutines[j].end),
        forall|k: int| 0 <= k < machines.len() ==> (#[trigger] machines[k]).exit_bb
            != r.region_begin.0,
{
    lemma_opened_keeps(before, opened, r, p);
    assert forall|k: int| 0 <= k < machines.len() implies opened.has(
        (#[trigger] machines[k]).exit_bb,
    ) by {
        assert(before.has(machines[k].exit_bb));
    }
    lemma_pass_keeps(opened, polled, machines, machines.len(), p.top, last, p.all_done);
    assert forall|b: B| #[trigger] before.has(b) implies wired.has(b) && b != entry && ((forall|
        k: int,
    | 0 <= k < machines.len() ==> (#[trigger] machines[k]).exit_bb != b) ==> wired.blocks[b].stmts
        == before.blocks[b].stmts && (b != r.region_end.0 ==> wired.blocks[b]
        == before.blocks[b])) by {
        assert(opened.has(b));
        assert(polled.has(b));
        assert(b != last) by {
            if machines.len() > 0 {
                assert(!opened.has(last));
            }
        }
    }
    assert forall|b: B| #[trigger] region_touches(r, machines, b) implies (forall|k: int|
        0 <= k < machines.len() ==> (#[trigger] machines[k]).exit_bb != b) by {
        assert forall|k: int| 0 <= k < machines.len() implies (#[trigger] machines[k]).exit_bb
            != b by {
            assert(!region_touches(r, machines, machines[k].exit_bb));
        }
    }
    assert(region_touches(r, machines, r.region_begin.0));
    assert(region_touches(r, machines, r.region_end.0));
    assert(before.has(r.region_begin.0) && before.has(r.region_end.0));
    assert forall|j: int| 0 <= j < r.coroutines.len() implies wired.at(
        (#[trigger] r.coroutines[j]).begin,
    ) && wired.at(r.coroutines[j].end) by {
        let c = r.coroutines[j];
        assert(before.at(c.begin) && before.at(c.end));
        assert(before.has(c.begin.0) && before.has(c.end.0));
        assert(region_touches(r, machines, c.begin.0));
        assert(region_touches(r, machines, c.end.0));
    }
}

/// The first coroutine of the region begins in the block that opens it.
pub open spec fn begins_at_once<B: CfgId, L: CfgId>(
    r: RegionView<B>,
    machines: Seq<Machine<B, L>>,
) -> bool {
    machines.len() > 0 && r.coroutines.len() > 0 && r.coroutines[0].begin.0 == r.region_begin.0
}

/// An executor leaves the machines, and everything else of the function, as they were:
/// every block runs as it did, but for those that open and close the region, the
/// machines' exits, and the dispatch of a coroutine that begins in the opening block.
pub proof fn law_what_is_not_the_executors_runs_as_it_did<B: CfgId, L: CfgId>(
    before: Body<B, L>,
    after: Body<B, L>,
    r: RegionView<B>,
    machines: Seq<Machine<B, L>>,
    exits: RegionExits<B>,
    host: HostCode<L>,
    b: B,
    mem: Memory<L>,
)
    requires
        region_ready(before, r, machines),
        machines_apart(before, r, machines),
        markers_idle(before, r, host),
        fits(before),
        cooperative_loop(before, after, r, machines) || waker_pass(
            before,
            after,
            r,
            machines,
            exits,
        ),
        before.has(b),
        b != r.region_begin.0,
        b != r.region_end.0,
        forall|k: int| 0 <= k < machines.len() ==> (#[trigger] machines[k]).exit_bb != b,
        begins_at_once(r, machines) ==> b != machines[0].dispatch_bb,
    ensures
        host.through(after.blocks[b], mem) == host.through(before.blocks[b], mem),
{
    let (opened, polled, wired, p, last) = lemma_wired_up(before, after, r, machines, exits);
    let entry = after.order.last();
    lemma_wiring_keeps(before, opened, polled, wired, r, machines, p, last, entry);
    assert(wired.blocks[b] == before.blocks[b]);
    lemma_erased_runs(before, wired, host, r, b, 0, mem);
    let erased = region_erased(wired, r);
    let split = erased.split(r.region_begin.0, r.region_begin.1 as int, entry);
    let retargeted = if begins_at_once(r, machines) {
        let dispatch = machines[0].dispatch_bb;
        split.end_with(
            dispatch,
            split.blocks[dispatch].term.redirected(r.region_begin.0, entry),
        )
    } else {
        split
    };
    lemma_zeroed_keeps(retargeted, machines, machines.len(), r.region_begin.0, b);
    assert(after.blocks[b] == erased.blocks[b]);
    assert(erased.blocks[b].stmts.skip(0) =~= erased.blocks[b].stmts);
    assert(before.blocks[b].stmts.skip(0) =~= before.blocks[b].stmts);
}

/// `entry` stands for what followed the opening marker in its block: it runs that, and
/// the dispatch of the first machine goes there where it went to the opening block.
pub open spec fn begins_at<B: CfgId, L: CfgId>(
    before: Body<B, L>,
    after: Body<B, L>,
    r: RegionView<B>,
    dispatch: B,
    host: HostCode<L>,
    entry: B,
    mem: Memory<L>,
) -> bool {
    let open_bb = r.region_begin.0;
    let (went, x) = host.through(before.blocks[dispatch], mem);
    &&& host.through(after.blocks[dispatch], mem) == (
        match went {
            Some(b) => Some(
                if b == open_bb {
                    entry
                } else {
                    b
                },
            ),
            None => None,
        },
        x,
    )
    &&& host.through(after.blocks[entry], mem) == host.through(
        rest_from(before.blocks[open_bb], r.region_begin.1 + 1),
        mem,
    )
}

/// A coroutine that begins in the block that opens its region still begins there: the
/// dispatch of its machine goes to what followed the opening marker, and not to the
/// opening itself.
pub proof fn law_a_coroutine_does_not_open_its_region_again<B: CfgId, L: CfgId>(
    before: Body<B, L>,
    after: Body<B, L>,
    r: RegionView<B>,
    machines: Seq<Machine<B, L>>,
    exits: RegionExits<B>,
    host: HostCode<L>,
)
    requires
        region_ready(before, r, machines),
        machines_apart(before, r, machines),
        markers_idle(before, r, host),
        fits(before),
        cooperative_loop(before, after, r, machines) || waker_pass(
            before,
            after,
            r,
            machines,
            exits,
        ),
        begins_at_once(r, machines),
        r.region_begin.0 != r.region_end.0,
        machines[0].dispatch_bb != r.region_begin.0,
        machines[0].dispatch_bb != r.region_end.0,
        forall|k: int|
            0 <= k < machines.len() ==> (#[trigger] machines[k]).exit_bb
                != machines[0].dispatch_bb,
    ensures
        exists|entry: B|
            !before.has(entry) && forall|mem: Memory<L>| #[trigger]
                begins_at(before, after, r, machines[0].dispatch_bb, host, entry, mem),
{
    let (opened, polled, wired, p, last) = lemma_wired_up(before, after, r, machines, exits);
    let entry = after.order.last();
    let open_bb = r.region_begin.0;
    let idx = r.region_begin.1 as int;
    let dispatch = machines[0].dispatch_bb;
    lemma_wiring_keeps(before, opened, polled, wired, r, machines, p, last, entry);
    assert(before.has(machines[0].dispatch_bb));
    assert(before.has(open_bb));
    let erased = region_erased(wired, r);
    let split = erased.split(open_bb, idx, entry);
    let retargeted = split.end_with(
        dispatch,
        split.blocks[dispatch].term.redirected(open_bb, entry),
    );
    lemma_zeroed_keeps(retargeted, machines, machines.len(), open_bb, dispatch);
    lemma_zeroed_keeps(retargeted, machines, machines.len(), open_bb, entry);
    assert forall|mem: Memory<L>| #[trigger] begins_at(
        before,
        after,
        r,
        dispatch,
        host,
        entry,
        mem,
    ) by {
        lemma_erased_runs(before, wired, host, r, dispatch, 0, mem);
        assert(erased.blocks[dispatch].stmts.skip(0) =~= erased.blocks[dispatch].stmts);
        assert(before.blocks[dispatch].stmts.skip(0) =~= before.blocks[dispatch].stmts);
        let x = host.after_stmts(before.blocks[dispatch].stmts, mem);
        law_a_redirected_terminator_goes_elsewhere(
            host,
            before.blocks[dispatch].term,
            open_bb,
            entry,
            x,
        );
        lemma_erased_runs(before, wired, host, r, open_bb, idx + 1, mem);
        assert(after.blocks[entry] == (Block {
            stmts: erased.blocks[open_bb].stmts.skip(idx + 1),
            term: before.blocks[open_bb].term,
        }));
    }
    assert(!before.has(entry)) by {
        if before.has(entry) {
            assert(wired.has(entry));
        }
    }
}

} // verus!
