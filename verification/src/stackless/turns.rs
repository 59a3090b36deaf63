//! What a machine does when it runs: a suspension ends the turn, and the next turn
//! goes on right behind it, as if the coroutine had never stopped.
use vstd::prelude::*;

use crate::stackless::laws::{law_switch_machine_shape, recv_slot, turn_ends};
use crate::stackless::machine::{
    arms, machine_built, machine_opened, plain_machine, switch_machine, Machine, DONE_STATE,
};
use crate::stackless::model::{Block, Body, LocalKind, Stmt, Term};
use crate::stackless::run::{
    arm, leads, lemma_few_stmts, lemma_leads_join, lemma_leads_step, lemma_stmts_join, HostCode,
    Memory,
};
use crate::stackless::scan::{Coroutine, SuspKind};
use crate::vocab::CfgId;

verus! {

/// The machine's state is `s`.
pub open spec fn in_state<B: CfgId, L: CfgId>(m: Machine<B, L>, mem: Memory<L>, s: int) -> bool {
    mem.ints.contains_key(m.state_local) && mem.ints[m.state_local] == s
}

/// The machine's own two locals aside, `b` remembers what `a` does.
pub open spec fn same_but_for<B: CfgId, L: CfgId>(
    m: Machine<B, L>,
    a: Memory<L>,
    b: Memory<L>,
) -> bool {
    &&& b.world == a.world
    &&& b.flags == a.flags
    &&& forall|l: L|
        l != m.state_local && l != m.poll_result_local ==> {
            &&& #[trigger] b.ints.contains_key(l) == a.ints.contains_key(l)
            &&& b.ints[l] == a.ints[l]
        }
}

/// From `from`, the turn ends pending: at the machine's exit, in state `s`, with what
/// has been done so far as in `x`.
pub open spec fn turn_pends<B: CfgId, L: CfgId>(
    body: Body<B, L>,
    host: HostCode<L>,
    m: Machine<B, L>,
    from: (B, Memory<L>),
    x: Memory<L>,
    s: int,
) -> bool {
    exists|e: Memory<L>|
        {
            &&& #[trigger] leads(body, host, from, (m.exit_bb, e))
            &&& same_but_for(m, x, e)
            &&& in_state(m, e, s)
            &&& e.ints.contains_key(m.poll_result_local)
            &&& e.ints[m.poll_result_local] != 0
        }
}

/// From `from`, running goes on as a block of `rest` would from `x`: it comes, with
/// `x`, to a block that does the same and goes to the same place, and past it if that
/// is in the body.
pub open spec fn goes_on<B, L>(
    body: Body<B, L>,
    host: HostCode<L>,
    from: (B, Memory<L>),
    x: Memory<L>,
    rest: Block<B, L>,
) -> bool {
    let (next, y) = host.through(rest, x);
    &&& exists|entry: B|
        {
            &&& #[trigger] leads(body, host, from, (entry, x))
            &&& host.through(body.blocks[entry], x) == (next, y)
        }
    &&& next is Some ==> leads(body, host, from, (next->0, y))
}

/// From `from`, a recv that may have to wait: where something is found, running goes
/// on with the recv; else the turn ends pending, in state `s`.
pub open spec fn recv_waits<B: CfgId, L: CfgId>(
    body: Body<B, L>,
    host: HostCode<L>,
    m: Machine<B, L>,
    from: (B, Memory<L>),
    x: Memory<L>,
    rest: Block<B, L>,
    found: L,
    s: int,
) -> bool {
    let peeked = Memory { flags: x.flags.insert(found, (host.peeks)(found, x.world)), ..x };
    if (host.peeks)(found, x.world) {
        goes_on(body, host, from, peeked, rest)
    } else {
        turn_pends(body, host, m, from, peeked, s)
    }
}

/// What is left of a block from statement `i` on.
pub open spec fn rest_from<B, L>(block: Block<B, L>, i: int) -> Block<B, L> {
    Block { stmts: block.stmts.skip(i), term: block.term }
}

/// A suspension point of a coroutine in its machine, run with `mem` from the start of
/// its block, and with `later` from the machine's dispatch in the state that the
/// suspension has left, `s`.
///
/// - A yield: what stands before it is run, and the turn ends pending. The next turn
///   goes on with what stands behind it.
/// - A send: the same, and it has been run itself.
/// - A recv that may have to wait: what stands before it is run. Where there is
///   something to receive, it is received, and the turn goes on; else the turn ends
///   pending. The next turn looks again.
pub open spec fn suspends_and_resumes<B: CfgId, L: CfgId>(
    before: Body<B, L>,
    after: Body<B, L>,
    host: HostCode<L>,
    m: Machine<B, L>,
    point: (B, usize, SuspKind),
    s: int,
    found: L,
    mem: Memory<L>,
    later: Memory<L>,
) -> bool {
    let b = point.0;
    let i = point.1 as int;
    let whole = before.blocks[b];
    match point.2 {
        SuspKind::Yield => {
            &&& turn_pends(after, host, m, (b, mem), host.after_stmts(whole.stmts.take(i), mem), s)
            &&& in_state(m, later, s) ==> goes_on(
                after,
                host,
                (m.dispatch_bb, later),
                later,
                rest_from(whole, i + 1),
            )
        },
        SuspKind::ProducingSend => {
            &&& turn_pends(
                after,
                host,
                m,
                (b, mem),
                host.after_stmts(whole.stmts.take(i + 1), mem),
                s,
            )
            &&& in_state(m, later, s) ==> goes_on(
                after,
                host,
                (m.dispatch_bb, later),
                later,
                rest_from(whole, i + 1),
            )
        },
        SuspKind::GuardedRecv => {
            &&& recv_waits(
                after,
                host,
                m,
                (b, mem),
                host.after_stmts(whole.stmts.take(i), mem),
                rest_from(whole, i),
                found,
                s,
            )
            &&& in_state(m, later, s) ==> recv_waits(
                after,
                host,
                m,
                (m.dispatch_bb, later),
                later,
                rest_from(whole, i),
                found,
                s,
            )
        },
    }
}

proof fn lemma_arm<B>(targets: Seq<(i64, B)>, value: i64, otherwise: B, k: int)
    ensures
        0 <= k < targets.len() && targets[k].0 == value && (forall|i: int|
            0 <= i < k ==> (#[trigger] targets[i]).0 != value) ==> arm(targets, value, otherwise)
            == targets[k].1,
        (forall|i: int| 0 <= i < targets.len() ==> (#[trigger] targets[i]).0 != value) ==> arm(
            targets,
            value,
            otherwise,
        ) == otherwise,
    decreases targets.len(),
{
    if targets.len() > 0 {
        let rest = targets.drop_first();
        lemma_arm(rest, value, otherwise, k - 1);
        assert(targets[0] == targets.first());
        if 0 < k < targets.len() && (forall|i: int|
            0 <= i < k ==> (#[trigger] targets[i]).0 != value) {
            assert(targets[0].0 != value);
            assert forall|i: int| 0 <= i < k - 1 implies (#[trigger] rest[i]).0 != value by {
                assert(targets[i + 1].0 != value);
            }
            assert(rest[k - 1] == targets[k]);
        }
        if forall|i: int| 0 <= i < targets.len() ==> (#[trigger] targets[i]).0 != value {
            assert(targets[0].0 != value);
            assert forall|i: int| 0 <= i < rest.len() implies (#[trigger] rest[i]).0 != value by {
                assert(targets[i + 1].0 != value);
            }
        }
    }
}

/// The dispatch of a machine, run in state `s`.
proof fn lemma_dispatch<B: CfgId, L: CfgId>(
    body: Body<B, L>,
    host: HostCode<L>,
    m: Machine<B, L>,
    entries: Seq<B>,
    mem: Memory<L>,
    s: int,
)
    requires
        body.blocks[m.dispatch_bb].stmts.len() == 0,
        body.blocks[m.dispatch_bb].term == (Term::Switch {
            discr: m.state_local,
            targets: arms(entries),
            otherwise: m.exit_bb,
        }),
        entries.len() <= DONE_STATE,
        in_state(m, mem, s),
    ensures
        0 <= s < entries.len() ==> leads(body, host, (m.dispatch_bb, mem), (entries[s], mem)),
        !(0 <= s < entries.len()) ==> leads(body, host, (m.dispatch_bb, mem), (m.exit_bb, mem)),
{
    lemma_few_stmts(host, body.blocks[m.dispatch_bb].stmts, mem);
    let targets = arms(entries);
    let value = mem.ints[m.state_local];
    lemma_arm(targets, value, m.exit_bb, s);
    if 0 <= s < entries.len() {
        assert(targets[s].1 == entries[s]);
        lemma_leads_step(body, host, (m.dispatch_bb, mem), (entries[s], mem));
    } else {
        assert forall|i: int| 0 <= i < targets.len() implies (#[trigger] targets[i]).0
            != value by {}
        lemma_leads_step(body, host, (m.dispatch_bb, mem), (m.exit_bb, mem));
    }
}

/// A yield block, run.
proof fn lemma_yield_block<B: CfgId, L: CfgId>(
    body: Body<B, L>,
    host: HostCode<L>,
    m: Machine<B, L>,
    y: B,
    from: (B, Memory<L>),
    x: Memory<L>,
    s: i64,
)
    requires
        m.state_local != m.poll_result_local,
        body.blocks[y] == m.yield_block(s),
        leads(body, host, from, (y, x)),
    ensures
        turn_pends(body, host, m, from, x, s as int),
{
    lemma_few_stmts(host, body.blocks[y].stmts, x);
    let e = host.after_stmts(body.blocks[y].stmts, x);
    lemma_leads_step(body, host, (y, x), (m.exit_bb, e));
    lemma_leads_join(body, host, from, (y, x), (m.exit_bb, e));
}

/// A block that goes to a yield block, run.
proof fn lemma_runs_to<B, L>(
    body: Body<B, L>,
    host: HostCode<L>,
    b: B,
    mem: Memory<L>,
    to: B,
)
    requires
        body.blocks[b].term == Term::<B, L>::Goto(to),
    ensures
        leads(body, host, (b, mem), (to, host.after_stmts(body.blocks[b].stmts, mem))),
{
    lemma_leads_step(body, host, (b, mem), (to, host.after_stmts(body.blocks[b].stmts, mem)));
}

/// A block that is entered goes on as its statements and its terminator say.
proof fn lemma_enters<B, L>(
    body: Body<B, L>,
    host: HostCode<L>,
    from: (B, Memory<L>),
    entry: B,
    x: Memory<L>,
)
    requires
        leads(body, host, from, (entry, x)),
    ensures
        goes_on(body, host, from, x, body.blocks[entry]),
{
    let (next, y) = host.through(body.blocks[entry], x);
    if next is Some {
        lemma_leads_step(body, host, (entry, x), (next->0, y));
        lemma_leads_join(body, host, from, (entry, x), (next->0, y));
    }
}

/// The block of a peek, run from where it is entered.
proof fn lemma_peeks<B: CfgId, L: CfgId>(
    body: Body<B, L>,
    host: HostCode<L>,
    m: Machine<B, L>,
    from: (B, Memory<L>),
    entry: B,
    x: Memory<L>,
    rest: Block<B, L>,
    found: L,
    resume: B,
    y: B,
    s: i64,
)
    requires
        m.state_local != m.poll_result_local,
        from == (entry, x) || leads(body, host, from, (entry, x)),
        body.blocks[entry] == (Block {
            stmts: seq![Stmt::Peek { dest: found }],
            term: Term::Branch { cond: found, yes: resume, no: y },
        }),
        body.blocks[resume] == rest,
        body.blocks[y] == m.yield_block(s),
    ensures
        recv_waits(body, host, m, from, x, rest, found, s as int),
{
    lemma_few_stmts(host, body.blocks[entry].stmts, x);
    let peeked = Memory { flags: x.flags.insert(found, (host.peeks)(found, x.world)), ..x };
    let to = if (host.peeks)(found, x.world) {
        resume
    } else {
        y
    };
    lemma_leads_step(body, host, (entry, x), (to, peeked));
    if from != (entry, x) {
        lemma_leads_join(body, host, from, (entry, x), (to, peeked));
    }
    if (host.peeks)(found, x.world) {
        lemma_enters(body, host, from, resume, peeked);
    } else {
        lemma_yield_block(body, host, m, y, from, peeked, s);
    }
}

/// A finished suspension, run.
proof fn lemma_suspension_runs<B: CfgId, L: CfgId>(
    before: Body<B, L>,
    after: Body<B, L>,
    host: HostCode<L>,
    m: Machine<B, L>,
    point: (B, usize, SuspKind),
    s: i64,
    entry: B,
    mem: Memory<L>,
    later: Memory<L>,
) -> (found: L)
    requires
        m.state_local != m.poll_result_local,
        before.at((point.0, point.1)),
        turn_ends(before, after, point, s, m, entry),
        in_state(m, later, s as int) ==> leads(after, host, (m.dispatch_bb, later), (entry, later)),
    ensures
        suspends_and_resumes(before, after, host, m, point, s as int, found, mem, later),
{
    let b = point.0;
    let i = point.1 as int;
    let whole = before.blocks[b];
    let y = choose|y: B|
        {
            &&& !before.has(y)
            &&& after.has(y)
            &&& #[trigger] after.blocks[y] == m.yield_block(s)
            &&& match point.2 {
                SuspKind::Yield => {
                    &&& after.blocks[b] == (Block {
                        stmts: whole.stmts.take(i).push(Stmt::Nop),
                        term: Term::Goto(y),
                    })
                    &&& !before.has(entry)
                    &&& after.has(entry)
                    &&& after.blocks[entry] == (Block {
                        stmts: whole.stmts.skip(i + 1),
                        term: whole.term,
                    })
                },
                SuspKind::ProducingSend => {
                    &&& after.blocks[b] == (Block {
                        stmts: whole.stmts.take(i + 1),
                        term: Term::Goto(y),
                    })
                    &&& !before.has(entry)
                    &&& after.has(entry)
                    &&& after.blocks[entry] == (Block {
                        stmts: whole.stmts.skip(i + 1),
                        term: whole.term,
                    })
                },
                SuspKind::GuardedRecv => recv_slot(before, after, point, y, entry),
            }
        };
    match point.2 {
        SuspKind::Yield => {
            let x = host.after_stmts(whole.stmts.take(i), mem);
            assert(whole.stmts.take(i).push(Stmt::Nop).drop_last() =~= whole.stmts.take(i));
            lemma_runs_to(after, host, b, mem, y);
            lemma_yield_block(after, host, m, y, (b, mem), x, s);
            if in_state(m, later, s as int) {
                lemma_enters(after, host, (m.dispatch_bb, later), entry, later);
            }
            m.state_local
        },
        SuspKind::ProducingSend => {
            let x = host.after_stmts(whole.stmts.take(i + 1), mem);
            lemma_runs_to(after, host, b, mem, y);
            lemma_yield_block(after, host, m, y, (b, mem), x, s);
            if in_state(m, later, s as int) {
                lemma_enters(after, host, (m.dispatch_bb, later), entry, later);
            }
            m.state_local
        },
        SuspKind::GuardedRecv => {
            let found = after.blocks[entry].term->cond;
            let r = choose|r: B|
                {
                    &&& !before.has(r)
                    &&& after.has(r)
                    &&& #[trigger] after.blocks[r] == (Block {
                        stmts: whole.stmts.skip(i),
                        term: whole.term,
                    })
                    &&& after.has(entry)
                    &&& after.blocks[entry] == (Block {
                        stmts: seq![Stmt::Peek { dest: found }],
                        term: Term::Branch { cond: found, yes: r, no: y },
                    })
                    &&& if i == 0 {
                        entry == b
                    } else {
                        &&& !before.has(entry)
                        &&& after.blocks[b] == (Block {
                            stmts: whole.stmts.take(i),
                            term: Term::Goto(entry),
                        })
                    }
                };
            let x = host.after_stmts(whole.stmts.take(i), mem);
            if i == 0 {
                lemma_few_stmts(host, whole.stmts.take(i), mem);
            } else {
                lemma_runs_to(after, host, b, mem, entry);
            }
            lemma_peeks(
                after,
                host,
                m,
                (b, mem),
                entry,
                x,
                rest_from(whole, i),
                found,
                r,
                y,
                s,
            );
            if in_state(m, later, s as int) {
                lemma_peeks(
                    after,
                    host,
                    m,
                    (m.dispatch_bb, later),
                    entry,
                    later,
                    rest_from(whole, i),
                    found,
                    r,
                    y,
                    s,
                );
            }
            found
        },
    }
}

/// Where the suspension points of a coroutine may stand: in blocks of their own, none
/// of which holds the coroutine's end.
pub open spec fn points_placed<B: CfgId, L: CfgId>(
    body: Body<B, L>,
    c: Coroutine<B>,
    points: Seq<(B, usize, SuspKind)>,
) -> bool {
    &&& body.has(c.end.0)
    &&& forall|k: int|
        0 <= k < points.len() ==> body.at(((#[trigger] points[k]).0, points[k].1))
            && points[k].0 != c.end.0
    &&& forall|j: int, k: int|
        0 <= j < k < points.len() ==> (#[trigger] points[j]).0 != (#[trigger] points[k]).0
    &&& points.len() < DONE_STATE
}

/// Every suspension point of a coroutine, run in its machine, ends the turn pending in
/// a state of its own, and in that state the next turn goes on right behind it, with
/// nothing run twice and nothing left out. The state is none of those that stand for
/// the begin of the coroutine or for its end.
pub proof fn law_a_coroutine_goes_on_where_it_stopped<B: CfgId, L: CfgId>(
    before: Body<B, L>,
    after: Body<B, L>,
    c: Coroutine<B>,
    points: Seq<(B, usize, SuspKind)>,
    m: Machine<B, L>,
    host: HostCode<L>,
    k: int,
    mem: Memory<L>,
    later: Memory<L>,
)
    requires
        machine_built(before, after, c, points, m),
        points_placed(before, c, points),
        0 <= k < points.len(),
    ensures
        exists|s: int, found: L|
            {
                &&& 0 < s <= points.len()
                &&& s != DONE_STATE
                &&& #[trigger] suspends_and_resumes(
                    before,
                    after,
                    host,
                    m,
                    points[k],
                    s,
                    found,
                    mem,
                    later,
                )
            },
{
    let mid = choose|mid: Body<B, L>| #[trigger]
        machine_opened(before, mid, m) && switch_machine(mid, after, c, points, m);
    lemma_opened_machine(before, mid, c, points, m);
    law_switch_machine_shape(mid, after, c, points, m);
    let entries = choose|entries: Seq<B>|
        {
            &&& entries.len() == points.len() + 1
            &&& entries[0] == c.begin.0
            &&& after.blocks[m.dispatch_bb].term == (Term::Switch {
                discr: m.state_local,
                targets: #[trigger] arms(entries),
                otherwise: m.exit_bb,
            })
            &&& forall|k: int|
                0 <= k < points.len() ==> turn_ends(
                    mid,
                    after,
                    #[trigger] points[k],
                    (k + 1) as i64,
                    m,
                    entries[k + 1],
                )
        };
    let s = (k + 1) as i64;
    if in_state(m, later, s as int) {
        lemma_dispatch(after, host, m, entries, later, s as int);
    }
    assert(turn_ends(mid, after, points[k], (k + 1) as i64, m, entries[k + 1]));
    assert(before.at((points[k].0, points[k].1)));
    let found = lemma_suspension_runs(
        mid,
        after,
        host,
        m,
        points[k],
        s,
        entries[k + 1],
        mem,
        later,
    );
    assert(mid.blocks[points[k].0] == before.blocks[points[k].0]);
    assert(suspends_and_resumes(before, after, host, m, points[k], s as int, found, mem, later));
}

proof fn lemma_opened_machine<B: CfgId, L: CfgId>(
    before: Body<B, L>,
    mid: Body<B, L>,
    c: Coroutine<B>,
    points: Seq<(B, usize, SuspKind)>,
    m: Machine<B, L>,
)
    requires
        machine_opened(before, mid, m),
        points_placed(before, c, points),
    ensures
        m.state_local != m.poll_result_local,
        mid.has(m.dispatch_bb),
        mid.has(c.end.0),
        m.dispatch_bb != c.end.0,
        mid.blocks[m.dispatch_bb].stmts.len() == 0,
        mid.blocks[c.end.0] == before.blocks[c.end.0],
        forall|k: int|
            0 <= k < points.len() ==> mid.at(((#[trigger] points[k]).0, points[k].1))
                && points[k].0 != m.dispatch_bb && points[k].0 != c.end.0
                && mid.blocks[points[k].0] == before.blocks[points[k].0],
{
    let one = before.with_local(m.state_local, LocalKind::I64Mut);
    assert(one.has_local(m.state_local)) by {
        assert(one.locals[before.locals.len() as int].0 == m.state_local);
    }
    assert forall|k: int| 0 <= k < points.len() implies mid.at(
        ((#[trigger] points[k]).0, points[k].1),
    ) && points[k].0 != m.dispatch_bb && points[k].0 != c.end.0 && mid.blocks[points[k].0]
        == before.blocks[points[k].0] by {
        assert(before.at((points[k].0, points[k].1)));
    }
}

/// A coroutine begins where it began and ends where it ended. Dispatched in its first
/// state, a machine runs the coroutine from its begin; in its final state, it comes
/// straight to its exit. What stands in the block of the coroutine's end is run, and
/// then the turn ends ready, in the final state.
pub proof fn law_a_coroutine_begins_and_ends<B: CfgId, L: CfgId>(
    before: Body<B, L>,
    after: Body<B, L>,
    c: Coroutine<B>,
    points: Seq<(B, usize, SuspKind)>,
    m: Machine<B, L>,
    host: HostCode<L>,
    mem: Memory<L>,
)
    requires
        machine_built(before, after, c, points, m),
        points_placed(before, c, points),
    ensures
        in_state(m, mem, 0) ==> exists|x: Memory<L>|
            {
                &&& #[trigger] leads(after, host, (m.dispatch_bb, mem), (c.begin.0, x))
                &&& x.ints == mem.ints
                &&& x.world == mem.world
            },
        in_state(m, mem, DONE_STATE as int) ==> exists|x: Memory<L>|
            {
                &&& #[trigger] leads(after, host, (m.dispatch_bb, mem), (m.exit_bb, x))
                &&& x.ints == mem.ints
                &&& x.world == mem.world
            },
        exists|e: Memory<L>|
            {
                &&& #[trigger] leads(after, host, (c.end.0, mem), (m.exit_bb, e))
                &&& same_but_for(m, host.after_stmts(before.blocks[c.end.0].stmts, mem), e)
                &&& in_state(m, e, DONE_STATE as int)
                &&& e.ints.contains_key(m.poll_result_local)
                &&& e.ints[m.poll_result_local] == 0
            },
{
    let mid = choose|mid: Body<B, L>| #[trigger]
        machine_opened(before, mid, m) && if points.len() == 0 {
            plain_machine(mid, after, c, m)
        } else {
            switch_machine(mid, after, c, points, m)
        };
    lemma_opened_machine(before, mid, c, points, m);
    if points.len() == 0 {
        let d = after.order.last();
        let is_done = after.locals.last().0;
        let check = Stmt::EqCheckI64 { dest: is_done, lhs: m.state_local, rhs: DONE_STATE };
        assert(after.blocks[m.dispatch_bb].stmts =~= seq![check]);
        lemma_few_stmts(host, after.blocks[m.dispatch_bb].stmts, mem);
        let x = host.after_stmts(after.blocks[m.dispatch_bb].stmts, mem);
        if in_state(m, mem, 0) {
            lemma_leads_step(after, host, (m.dispatch_bb, mem), (c.begin.0, x));
        }
        if in_state(m, mem, DONE_STATE as int) {
            lemma_leads_step(after, host, (m.dispatch_bb, mem), (m.exit_bb, x));
        }
        assert(after.blocks[c.end.0].stmts == before.blocks[c.end.0].stmts);
        lemma_end_runs(after, host, m, c.end.0, d, mem);
    } else {
        law_switch_machine_shape(mid, after, c, points, m);
        let entries = choose|entries: Seq<B>|
            {
                &&& entries.len() == points.len() + 1
                &&& entries[0] == c.begin.0
                &&& after.blocks[m.dispatch_bb].term == (Term::Switch {
                    discr: m.state_local,
                    targets: #[trigger] arms(entries),
                    otherwise: m.exit_bb,
                })
            };
        if in_state(m, mem, 0) {
            lemma_dispatch(after, host, m, entries, mem, 0);
        }
        if in_state(m, mem, DONE_STATE as int) {
            lemma_dispatch(after, host, m, entries, mem, DONE_STATE as int);
        }
        let d = after.blocks[c.end.0].term->Goto_0;
        lemma_end_runs(after, host, m, c.end.0, d, mem);
    }
}

proof fn lemma_end_runs<B: CfgId, L: CfgId>(
    body: Body<B, L>,
    host: HostCode<L>,
    m: Machine<B, L>,
    end: B,
    d: B,
    mem: Memory<L>,
)
    requires
        m.state_local != m.poll_result_local,
        body.blocks[end].term == Term::<B, L>::Goto(d),
        body.blocks[d] == m.done_block(),
    ensures
        exists|e: Memory<L>|
            {
                &&& #[trigger] leads(body, host, (end, mem), (m.exit_bb, e))
                &&& same_but_for(m, host.after_stmts(body.blocks[end].stmts, mem), e)
                &&& in_state(m, e, DONE_STATE as int)
                &&& e.ints.contains_key(m.poll_result_local)
                &&& e.ints[m.poll_result_local] == 0
            },
{
    lemma_runs_to(body, host, end, mem, d);
    let x = host.after_stmts(body.blocks[end].stmts, mem);
    lemma_few_stmts(host, body.blocks[d].stmts, x);
    let e = host.after_stmts(body.blocks[d].stmts, x);
    lemma_leads_step(body, host, (d, x), (m.exit_bb, e));
    lemma_leads_join(body, host, (end, mem), (d, x), (m.exit_bb, e));
}

/// A yield and what follows it, with nobody in between, run the block as it was: what
/// stands before the yield, and then what stands behind it.
pub proof fn law_stopping_and_going_on_is_running_through<B, L>(
    host: HostCode<L>,
    block: Block<B, L>,
    i: int,
    mem: Memory<L>,
)
    requires
        0 <= i < block.stmts.len(),
        forall|x: Memory<L>| #[trigger] host.after_stmt(block.stmts[i], x) == x,
    ensures
        host.through(
            rest_from(block, i + 1),
            host.after_stmts(block.stmts.take(i), mem),
        ) == host.through(block, mem),
{
    let x = host.after_stmts(block.stmts.take(i), mem);
    let one = block.stmts.subrange(i, i + 1);
    lemma_few_stmts(host, one, x);
    lemma_stmts_join(host, block.stmts.take(i), one, mem);
    lemma_stmts_join(host, block.stmts.take(i) + one, block.stmts.skip(i + 1), mem);
    assert(block.stmts.take(i) + one + block.stmts.skip(i + 1) =~= block.stmts);
}

} // verus!
