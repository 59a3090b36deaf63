//! One coroutine as a switch-on-state machine.
use vstd::prelude::*;

use crate::stackless::cfg::{mark_of, CoroCfg, CoroHooks};
use crate::stackless::model::{
    in_id_order, lemma_add_block_wf, lemma_set_block_wf, Block, Body, LocalKind, Stmt, Term,
};
use crate::stackless::scan::{kind_of, Coroutine, SuspKind};
use crate::stackless::shed::{
    lemma_leaner_push, lemma_sheds_add, lemma_sheds_compose, lemma_sheds_refl, lemma_sheds_same,
    lemma_sheds_set, lemma_suspended_sheds, sheds,
};
use crate::vocab::{CfgId, Marker};

verus! {

/// The state of a coroutine that has finished.
pub const DONE_STATE: i64 = 9999;

/// The locals and the dispatch and exit blocks of one coroutine: what an
/// executor wires up.
#[derive(Debug)]
pub struct Machine<B: CfgId, L: CfgId> {
    pub state_local: L,
    pub poll_result_local: L,
    pub dispatch_bb: B,
    pub exit_bb: B,
}

impl<B: CfgId, L: CfgId> Machine<B, L> {
    /// Reached when a suspension gives up its turn: the state to resume at, and
    /// a pending poll.
    pub open spec fn yield_block(self, state: i64) -> Block<B, L> {
        Block {
            stmts: seq![
                Stmt::AssignI64 { local: self.state_local, value: state },
                Stmt::AssignI64 { local: self.poll_result_local, value: 1 },
            ],
            term: Term::Goto(self.exit_bb),
        }
    }

    /// Reached when the coroutine ends: a ready poll, and the final state.
    pub open spec fn done_block(self) -> Block<B, L> {
        Block {
            stmts: seq![
                Stmt::AssignI64 { local: self.poll_result_local, value: 0 },
                Stmt::AssignI64 { local: self.state_local, value: DONE_STATE },
            ],
            term: Term::Goto(self.exit_bb),
        }
    }
}

/// `before` with its blocks and listing as in `after`, whatever locals the host
/// has allocated in between.
pub open spec fn same_blocks<B, L>(x: Body<B, L>, after: Body<B, L>) -> bool {
    after.order == x.order && after.blocks == x.blocks
}

/// A suspension point turned into the end of a turn. `entry` is the block that
/// the dispatch enters to go on.
///
/// - A yield is erased, and its block goes to a fresh yield block.
/// - A producing send stays, and its block goes to a fresh yield block.
/// - A guarded recv leaves a peek: when it is ready the recv runs, else the turn
///   ends, and the next turn peeks again. The peek has a block of its own, so
///   that what stood before the recv is not run again.
///
/// What followed the suspension, with the block's terminator, is in a fresh
/// resume block.
pub open spec fn suspended<B: CfgId, L: CfgId>(
    before: Body<B, L>,
    after: Body<B, L>,
    point: (B, usize, SuspKind),
    state: i64,
    m: Machine<B, L>,
    entry: B,
) -> bool {
    let b = point.0;
    let i = point.1 as int;
    let whole = before.blocks[b];
    let n = before.order.len() as int;
    let y = after.order[n];
    let yielding = before.add_block(y, m.yield_block(state));
    &&& !before.has(y)
    &&& match point.2 {
        SuspKind::Yield => {
            &&& !yielding.has(entry)
            &&& after == yielding.add_block(
                entry,
                Block { stmts: whole.stmts.skip(i + 1), term: whole.term },
            ).set_block(b, Block { stmts: whole.stmts.take(i).push(Stmt::Nop), term: Term::Goto(y) })
        },
        SuspKind::ProducingSend => {
            &&& !yielding.has(entry)
            &&& after == yielding.add_block(
                entry,
                Block { stmts: whole.stmts.skip(i + 1), term: whole.term },
            ).set_block(b, Block { stmts: whole.stmts.take(i + 1), term: Term::Goto(y) })
        },
        SuspKind::GuardedRecv => {
            let r = after.order.last();
            let ready = after.blocks[entry].term->cond;
            let slot = Block {
                stmts: seq![Stmt::Peek { dest: ready }],
                term: Term::Branch { cond: ready, yes: r, no: y },
            };
            let resume = Block { stmts: whole.stmts.skip(i), term: whole.term };
            &&& !yielding.has(r)
            &&& after.locals.len() >= before.locals.len()
            &&& after.locals.take(before.locals.len() as int) == before.locals
            &&& if i == 0 {
                &&& entry == b
                &&& same_blocks(yielding.add_block(r, resume).set_block(b, slot), after)
            } else {
                &&& !yielding.has(entry)
                &&& entry != r
                &&& same_blocks(
                    yielding.add_block(entry, slot).add_block(r, resume).set_block(
                        b,
                        Block { stmts: whole.stmts.take(i), term: Term::Goto(entry) },
                    ),
                    after,
                )
            }
        },
    }
}

/// The first `n` suspension points, one after another; `entries[k]` is entered
/// in state `k`.
pub open spec fn suspended_all<B: CfgId, L: CfgId>(
    before: Body<B, L>,
    after: Body<B, L>,
    points: Seq<(B, usize, SuspKind)>,
    n: nat,
    m: Machine<B, L>,
    entries: Seq<B>,
) -> bool
    decreases n,
{
    if n == 0 {
        after == before
    } else {
        exists|mid: Body<B, L>|
            suspended_all(before, mid, points, (n - 1) as nat, m, entries) && #[trigger] suspended(
                mid,
                after,
                points[n - 1],
                n as i64,
                m,
                entries[n as int],
            )
    }
}

/// The switch arms: state `k` goes to `entries[k]`.
pub open spec fn arms<B>(entries: Seq<B>) -> Seq<(i64, B)> {
    Seq::new(entries.len(), |k: int| (k as i64, entries[k]))
}

/// A coroutine that never suspends: it is done on its first turn.
pub open spec fn plain_machine<B: CfgId, L: CfgId>(
    before: Body<B, L>,
    after: Body<B, L>,
    c: Coroutine<B>,
    m: Machine<B, L>,
) -> bool {
    let d = after.order.last();
    let is_done = after.locals.last().0;
    &&& !before.has(d)
    &&& !before.has_local(is_done)
    &&& after == before.add_block(d, m.done_block()).with_local(
        is_done,
        LocalKind::Bool,
    ).append(
        m.dispatch_bb,
        Stmt::EqCheckI64 { dest: is_done, lhs: m.state_local, rhs: DONE_STATE },
    ).end_with(
        m.dispatch_bb,
        Term::Branch { cond: is_done, yes: m.exit_bb, no: c.begin.0 },
    ).end_with(c.end.0, Term::Goto(d))
}

/// A coroutine with suspension points: the dispatch switches on the state.
pub open spec fn switch_machine<B: CfgId, L: CfgId>(
    before: Body<B, L>,
    after: Body<B, L>,
    c: Coroutine<B>,
    points: Seq<(B, usize, SuspKind)>,
    m: Machine<B, L>,
) -> bool {
    exists|mid: Body<B, L>, entries: Seq<B>|
        #![trigger suspended_all(before, mid, points, points.len(), m, entries)]
        {
            let d = after.order.last();
            &&& entries.len() == points.len() + 1
            &&& entries[0] == c.begin.0
            &&& suspended_all(before, mid, points, points.len(), m, entries)
            &&& !mid.has(d)
            &&& after == mid.add_block(d, m.done_block()).end_with(
                c.end.0,
                Term::Goto(d),
            ).end_with(
                m.dispatch_bb,
                Term::Switch {
                    discr: m.state_local,
                    targets: arms(entries),
                    otherwise: m.exit_bb,
                },
            )
        }
}

/// The two locals and the two blocks of a machine, freshly allocated.
pub open spec fn machine_opened<B: CfgId, L: CfgId>(
    before: Body<B, L>,
    after: Body<B, L>,
    m: Machine<B, L>,
) -> bool {
    let one = before.with_local(m.state_local, LocalKind::I64Mut);
    let two = one.with_local(m.poll_result_local, LocalKind::I64Mut);
    &&& !before.has_local(m.state_local)
    &&& !one.has_local(m.poll_result_local)
    &&& !before.has(m.dispatch_bb)
    &&& !before.has(m.exit_bb)
    &&& m.dispatch_bb != m.exit_bb
    &&& after == two.with_block(m.dispatch_bb).with_block(m.exit_bb)
}

/// A coroutine rewritten into machine `m`.
pub open spec fn machine_built<B: CfgId, L: CfgId>(
    before: Body<B, L>,
    after: Body<B, L>,
    c: Coroutine<B>,
    points: Seq<(B, usize, SuspKind)>,
    m: Machine<B, L>,
) -> bool {
    exists|mid: Body<B, L>| #[trigger]
        machine_opened(before, mid, m) && if points.len() == 0 {
            plain_machine(mid, after, c, m)
        } else {
            switch_machine(mid, after, c, points, m)
        }
}

/// The blocks that a coroutine's rewrite changes, among those that were there.
pub open spec fn touched<B: CfgId>(c: Coroutine<B>, points: Seq<(B, usize, SuspKind)>, b: B) -> bool {
    b == c.end.0 || exists|k: int| 0 <= k < points.len() && (#[trigger] points[k]).0 == b
}

/// No block that was there is lost, and those that `changed` does not name are as
/// they were.
pub open spec fn kept<B, L>(
    before: Body<B, L>,
    after: Body<B, L>,
    changed: spec_fn(B) -> bool,
) -> bool {
    forall|b: B| #[trigger]
        before.has(b) ==> after.has(b) && (!changed(b) ==> after.blocks[b] == before.blocks[b])
}

/// What stood before a suspension point in its block stays, and so does every
/// statement of a block without one.
pub open spec fn stays<B: CfgId, L: CfgId>(
    before: Body<B, L>,
    after: Body<B, L>,
    points: Seq<(B, usize, SuspKind)>,
) -> bool {
    &&& forall|b: B| #[trigger]
        before.has(b) ==> after.has(b) && ((forall|k: int|
            0 <= k < points.len() ==> (#[trigger] points[k]).0 != b) ==> after.blocks[b].stmts
            == before.blocks[b].stmts)
    &&& forall|k: int|
        0 <= k < points.len() ==> {
            let i = (#[trigger] points[k]).1 as int;
            &&& after.blocks[points[k].0].stmts.len() >= i
            &&& after.blocks[points[k].0].stmts.take(i)
                == before.blocks[points[k].0].stmts.take(i)
        }
}

pub proof fn lemma_suspended_all_stays<B: CfgId, L: CfgId>(
    before: Body<B, L>,
    after: Body<B, L>,
    points: Seq<(B, usize, SuspKind)>,
    n: nat,
    m: Machine<B, L>,
    entries: Seq<B>,
)
    requires
        suspended_all(before, after, points, n, m, entries),
        n <= points.len(),
        forall|k: int|
            0 <= k < points.len() ==> before.at(((#[trigger] points[k]).0, points[k].1)),
        forall|j: int, k: int|
            0 <= j < k < points.len() ==> (#[trigger] points[j]).0 != (#[trigger] points[k]).0,
    ensures
        stays(before, after, points.take(n as int)),
    decreases n,
{
    let ps = points.take(n as int);
    assert forall|k: int| 0 <= k < points.len() implies before.has((#[trigger] points[k]).0) by {
        assert(before.at((points[k].0, points[k].1)));
    }
    lemma_suspended_all_keeps(before, after, points, n, m, entries);
    assert forall|b: B| #[trigger] before.has(b) implies after.has(b) && ((forall|k: int|
        0 <= k < ps.len() ==> (#[trigger] ps[k]).0 != b) ==> after.blocks[b].stmts
        == before.blocks[b].stmts) by {
        if forall|k: int| 0 <= k < ps.len() ==> (#[trigger] ps[k]).0 != b {
            assert forall|k: int| 0 <= k < n implies (#[trigger] points[k]).0 != b by {
                assert(ps[k] == points[k]);
            }
        }
    }
    if n > 0 {
        let mid = choose|mid: Body<B, L>|
            suspended_all(before, mid, points, (n - 1) as nat, m, entries) && #[trigger] suspended(
                mid,
                after,
                points[n - 1],
                n as i64,
                m,
                entries[n as int],
            );
        lemma_suspended_all_stays(before, mid, points, (n - 1) as nat, m, entries);
        lemma_suspended_all_keeps(before, mid, points, (n - 1) as nat, m, entries);
        let prev = points.take(n - 1);
        assert forall|k: int| 0 <= k < ps.len() implies {
            let i = (#[trigger] ps[k]).1 as int;
            &&& after.blocks[ps[k].0].stmts.len() >= i
            &&& after.blocks[ps[k].0].stmts.take(i) == before.blocks[ps[k].0].stmts.take(i)
        } by {
            let p = points[k];
            assert(ps[k] == p);
            assert(before.at((p.0, p.1)));
            assert(before.has(p.0));
            if k < n - 1 {
                assert(prev[k] == p);
                assert(p.0 != points[n - 1].0);
                assert(mid.has(p.0));
                assert(after.blocks[p.0] == mid.blocks[p.0]);
            } else {
                assert(mid.blocks[p.0] == before.blocks[p.0]);
                let i = p.1 as int;
                assert(after.blocks[p.0].stmts.take(i) =~= before.blocks[p.0].stmts.take(i));
            }
        }
    }
}

/// What every rewrite of a coroutine keeps: the body is well formed and in id
/// order, no host statement is added, and only the named blocks change.
pub open spec fn rewritten<B: CfgId, L: CfgId>(
    before: Body<B, L>,
    after: Body<B, L>,
    changed: spec_fn(B) -> bool,
) -> bool {
    &&& after.wf()
    &&& in_id_order(before.order) ==> in_id_order(after.order)
    &&& sheds(before, after)
    &&& kept(before, after, changed)
}

/// The points have a block each, and stand where they say.
pub open spec fn points_apart<B: CfgId, L: CfgId>(
    reading: spec_fn(int) -> Option<Marker>,
    body: Body<B, L>,
    points: Seq<(B, usize, SuspKind)>,
) -> bool {
    &&& forall|k: int|
        0 <= k < points.len() ==> {
            &&& body.at(((#[trigger] points[k]).0, points[k].1))
            &&& kind_of(mark_of(reading, body.stmt((points[k].0, points[k].1)))) == Some(
                points[k].2,
            )
        }
    &&& forall|j: int, k: int|
        0 <= j < k < points.len() ==> (#[trigger] points[j]).0 != (#[trigger] points[k]).0
}

pub proof fn lemma_suspended_all_keeps<B: CfgId, L: CfgId>(
    before: Body<B, L>,
    after: Body<B, L>,
    points: Seq<(B, usize, SuspKind)>,
    n: nat,
    m: Machine<B, L>,
    entries: Seq<B>,
)
    requires
        suspended_all(before, after, points, n, m, entries),
        n <= points.len(),
        forall|k: int| 0 <= k < points.len() ==> before.has((#[trigger] points[k]).0),
    ensures
        kept(before, after, |b: B| exists|k: int| 0 <= k < n && (#[trigger] points[k]).0 == b),
    decreases n,
{
    if n > 0 {
        let mid = choose|mid: Body<B, L>|
            suspended_all(before, mid, points, (n - 1) as nat, m, entries) && #[trigger] suspended(
                mid,
                after,
                points[n - 1],
                n as i64,
                m,
                entries[n as int],
            );
        lemma_suspended_all_keeps(before, mid, points, (n - 1) as nat, m, entries);
        let p = points[n - 1];
        assert(mid.has(p.0));
        assert forall|b: B| #[trigger] before.has(b) implies after.has(b) && ((forall|k: int|
            0 <= k < n ==> (#[trigger] points[k]).0 != b) ==> after.blocks[b] == before.blocks[b]) by {
            assert(mid.has(b));
        }
    }
}

/// Growing the table of entries does not disturb what it says so far.
proof fn lemma_entries_grow<B: CfgId, L: CfgId>(
    before: Body<B, L>,
    after: Body<B, L>,
    points: Seq<(B, usize, SuspKind)>,
    n: nat,
    m: Machine<B, L>,
    entries: Seq<B>,
    more: Seq<B>,
)
    requires
        suspended_all(before, after, points, n, m, entries),
        forall|k: int| 0 <= k <= n ==> entries[k] == more[k],
    ensures
        suspended_all(before, after, points, n, m, more),
    decreases n,
{
    if n > 0 {
        let mid = choose|mid: Body<B, L>|
            suspended_all(before, mid, points, (n - 1) as nat, m, entries) && #[trigger] suspended(
                mid,
                after,
                points[n - 1],
                n as i64,
                m,
                entries[n as int],
            );
        lemma_entries_grow(before, mid, points, (n - 1) as nat, m, entries, more);
    }
}

/// Turn one suspension point into the end of a turn, and hand back the block
/// that the dispatch enters to go on.
fn emit_suspension<C, H>(
    cfg: &mut C,
    hooks: &mut H,
    point: &(C::BlockId, usize, SuspKind),
    state_id: i64,
    m: &Machine<C::BlockId, C::LocalId>,
) -> (entry: C::BlockId) where C: CoroCfg, H: CoroHooks<Cfg = C>
    requires
        old(cfg).body().wf(),
        old(cfg).body().at((point.0, point.1)),
        kind_of(
            mark_of(old(hooks).reading(), old(cfg).body().stmt((point.0, point.1))),
        ) == Some(point.2),
    ensures
        suspended(old(cfg).body(), final(cfg).body(), *point, state_id, *m, entry),
        final(hooks).reading() == old(hooks).reading(),
        final(cfg).body().wf(),
        in_id_order(old(cfg).body().order) ==> in_id_order(final(cfg).body().order),
{
    let susp_bb = point.0;
    let susp_stmt = point.1;
    let ghost before = cfg.body();
    let ghost whole = before.blocks[susp_bb];
    let ghost i = susp_stmt as int;

    // Yield block: state = next_id; poll = Pending; goto exit.
    let yield_bb = cfg.new_block();
    proof {
        lemma_add_block_wf(before, yield_bb, Block::blank());
    }
    cfg.emit_assign_i64(yield_bb, m.state_local, state_id);
    cfg.emit_assign_i64(yield_bb, m.poll_result_local, 1);
    cfg.set_goto(yield_bb, m.exit_bb);
    let ghost yielding = before.add_block(yield_bb, m.yield_block(state_id));
    proof {
        assert(cfg.body().blocks[yield_bb].stmts =~= m.yield_block(state_id).stmts);
        assert(cfg.body() =~= yielding);
        lemma_add_block_wf(before, yield_bb, m.yield_block(state_id));
        assert(before.order.contains(susp_bb));
    }

    match point.2 {
        SuspKind::GuardedRecv => {
            if susp_stmt == 0 {
                let resume_bb = cfg.split_after(susp_bb, 0);
                proof {
                    lemma_add_block_wf(yielding, resume_bb, Block::blank());
                }
                let is_ready = hooks.emit_guarded_recv_peek(cfg, susp_bb, 0, resume_bb);
                cfg.set_branch(susp_bb, is_ready, resume_bb, yield_bb);
                proof {
                    let slot = Block {
                        stmts: seq![Stmt::Peek { dest: is_ready }],
                        term: Term::Branch { cond: is_ready, yes: resume_bb, no: yield_bb },
                    };
                    let resume = Block { stmts: whole.stmts.skip(i), term: whole.term };
                    let want = yielding.add_block(resume_bb, resume).set_block(susp_bb, slot);
                    assert(cfg.body().blocks[susp_bb].stmts =~= slot.stmts);
                    assert(cfg.body().blocks[resume_bb].stmts =~= resume.stmts);
                    assert(cfg.body().blocks =~= want.blocks);
                    lemma_add_block_wf(yielding, resume_bb, resume);
                    lemma_set_block_wf(yielding.add_block(resume_bb, resume), susp_bb, slot);
                    assert(cfg.body().order[before.order.len() as int] == yield_bb);
                    assert(cfg.body().wf());
                }
                susp_bb
            } else {
                // The peek gets a block of its own: the next turn re-enters it.
                let peek_bb = cfg.split_after(susp_bb, susp_stmt - 1);
                proof {
                    lemma_add_block_wf(yielding, peek_bb, Block::blank());
                }
                let ghost mid = cfg.body();
                let resume_bb = cfg.split_after(peek_bb, 0);
                let is_ready = hooks.emit_guarded_recv_peek(cfg, peek_bb, 0, resume_bb);
                cfg.set_branch(peek_bb, is_ready, resume_bb, yield_bb);
                cfg.set_goto(susp_bb, peek_bb);
                proof {
                    let slot = Block {
                        stmts: seq![Stmt::Peek { dest: is_ready }],
                        term: Term::Branch { cond: is_ready, yes: resume_bb, no: yield_bb },
                    };
                    let resume = Block { stmts: whole.stmts.skip(i), term: whole.term };
                    let head = Block { stmts: whole.stmts.take(i), term: Term::Goto(peek_bb) };
                    let want = yielding.add_block(peek_bb, slot).add_block(
                        resume_bb,
                        resume,
                    ).set_block(susp_bb, head);
                    assert(cfg.body().blocks[susp_bb].stmts =~= head.stmts);
                    assert(cfg.body().blocks[peek_bb].stmts =~= slot.stmts);
                    assert(cfg.body().blocks[resume_bb].stmts =~= resume.stmts);
                    assert(cfg.body().blocks =~= want.blocks);
                    lemma_add_block_wf(yielding, peek_bb, slot);
                    lemma_add_block_wf(yielding.add_block(peek_bb, slot), resume_bb, resume);
                    lemma_set_block_wf(
                        yielding.add_block(peek_bb, slot).add_block(resume_bb, resume),
                        susp_bb,
                        head,
                    );
                    assert(cfg.body().order[before.order.len() as int] == yield_bb);
                    assert(cfg.body().wf());
                }
                peek_bb
            }
        },
        SuspKind::ProducingSend => {
            let resume_bb = cfg.split_after(susp_bb, susp_stmt);
            cfg.set_goto(susp_bb, yield_bb);
            proof {
                let resume = Block { stmts: whole.stmts.skip(i + 1), term: whole.term };
                let head = Block { stmts: whole.stmts.take(i + 1), term: Term::Goto(yield_bb) };
                assert(cfg.body() =~= yielding.add_block(resume_bb, resume).set_block(
                    susp_bb,
                    head,
                ));
                lemma_add_block_wf(yielding, resume_bb, resume);
                lemma_set_block_wf(yielding.add_block(resume_bb, resume), susp_bb, head);
                assert(cfg.body().order[before.order.len() as int] == yield_bb);
            }
            resume_bb
        },
        SuspKind::Yield => {
            let resume_bb = cfg.split_after(susp_bb, susp_stmt);
            cfg.replace_with_nop(susp_bb, susp_stmt);
            cfg.set_goto(susp_bb, yield_bb);
            proof {
                let resume = Block { stmts: whole.stmts.skip(i + 1), term: whole.term };
                let head = Block {
                    stmts: whole.stmts.take(i).push(Stmt::Nop),
                    term: Term::Goto(yield_bb),
                };
                assert(cfg.body().blocks[susp_bb].stmts =~= head.stmts);
                assert(cfg.body() =~= yielding.add_block(resume_bb, resume).set_block(
                    susp_bb,
                    head,
                ));
                lemma_add_block_wf(yielding, resume_bb, resume);
                lemma_set_block_wf(yielding.add_block(resume_bb, resume), susp_bb, head);
                assert(cfg.body().order[before.order.len() as int] == yield_bb);
            }
            resume_bb
        },
    }
}

/// No suspension points: the coroutine runs to completion on its first poll.
/// The dispatch leaves at once when the state is final, and else enters the
/// coroutine.
pub fn emit_no_suspension_machine<C: CoroCfg>(
    cfg: &mut C,
    coroutine: &Coroutine<C::BlockId>,
    m: &Machine<C::BlockId, C::LocalId>,
)
    requires
        old(cfg).body().wf(),
        old(cfg).body().has(m.dispatch_bb),
        old(cfg).body().has(coroutine.end.0),
    ensures
        plain_machine(old(cfg).body(), final(cfg).body(), *coroutine, *m),
        rewritten(
            old(cfg).body(),
            final(cfg).body(),
            |b: C::BlockId| b == m.dispatch_bb || b == coroutine.end.0,
        ),
{
    let ghost before = cfg.body();
    let coro_entry_bb = coroutine.begin.0;

    // Done block: poll = Ready, state = DONE, goto exit.
    let done_bb = cfg.new_block();
    cfg.emit_assign_i64(done_bb, m.poll_result_local, 0);
    cfg.emit_assign_i64(done_bb, m.state_local, DONE_STATE);
    cfg.set_goto(done_bb, m.exit_bb);
    let ghost mid = before.add_block(done_bb, m.done_block());
    proof {
        assert(cfg.body().blocks[done_bb].stmts =~= m.done_block().stmts);
        assert(cfg.body() =~= mid);
        lemma_add_block_wf(before, done_bb, m.done_block());
        lemma_sheds_add(before, done_bb, m.done_block());
    }

    // Dispatch: is_done = (state == DONE); branch.
    let check_done = cfg.new_bool_local();
    cfg.emit_eq_check_i64(m.dispatch_bb, check_done, m.state_local, DONE_STATE);
    cfg.set_branch(m.dispatch_bb, check_done, m.exit_bb, coro_entry_bb);
    let ghost checked = cfg.body();
    proof {
        let check = Stmt::EqCheckI64 { dest: check_done, lhs: m.state_local, rhs: DONE_STATE };
        lemma_leaner_push(mid.blocks[m.dispatch_bb].stmts, check);
        let want = mid.set_block(m.dispatch_bb, checked.blocks[m.dispatch_bb]);
        assert(checked.blocks =~= want.blocks);
        lemma_sheds_set(mid, m.dispatch_bb, checked.blocks[m.dispatch_bb]);
        lemma_set_block_wf(mid, m.dispatch_bb, checked.blocks[m.dispatch_bb]);
        lemma_sheds_same(mid, want, checked);
        assert(checked.wf());
    }

    // The block holding the end marker feeds the executor's post-poll path.
    cfg.set_goto(coroutine.end.0, done_bb);
    proof {
        lemma_sheds_set(checked, coroutine.end.0, cfg.body().blocks[coroutine.end.0]);
        lemma_set_block_wf(checked, coroutine.end.0, cfg.body().blocks[coroutine.end.0]);
        lemma_sheds_compose(before, mid, checked);
        lemma_sheds_compose(before, checked, cfg.body());
        assert(cfg.body().order.last() == done_bb);
        assert(cfg.body().locals.last().0 == check_done);
        assert(!before.has_local(check_done)) by {
            if before.has_local(check_done) {
                assert(mid.has_local(check_done));
            }
        }
        assert(before.add_block(done_bb, m.done_block()).with_local(
            check_done,
            LocalKind::Bool,
        ).append(
            m.dispatch_bb,
            Stmt::EqCheckI64 { dest: check_done, lhs: m.state_local, rhs: DONE_STATE },
        ).end_with(
            m.dispatch_bb,
            Term::Branch { cond: check_done, yes: m.exit_bb, no: coroutine.begin.0 },
        ) =~= checked);
    }
}

/// Suspension points make a multi-state machine: one state per point.
pub fn emit_multi_state_machine<C, H>(
    cfg: &mut C,
    hooks: &mut H,
    coroutine: &Coroutine<C::BlockId>,
    suspensions: &[(C::BlockId, usize, SuspKind)],
    m: &Machine<C::BlockId, C::LocalId>,
) where C: CoroCfg, H: CoroHooks<Cfg = C>
    requires
        old(cfg).body().wf(),
        old(cfg).body().has(m.dispatch_bb),
        old(cfg).body().has(coroutine.end.0),
        points_apart(old(hooks).reading(), old(cfg).body(), suspensions@),
    ensures
        switch_machine(old(cfg).body(), final(cfg).body(), *coroutine, suspensions@, *m),
        final(hooks).reading() == old(hooks).reading(),
        rewritten(
            old(cfg).body(),
            final(cfg).body(),
            |b: C::BlockId| b == m.dispatch_bb || touched(*coroutine, suspensions@, b),
        ),
        stays(old(cfg).body(), final(cfg).body(), suspensions@),
{
    let ghost before = cfg.body();
    let ghost reading = hooks.reading();
    let ghost points = suspensions@;
    let coro_entry_bb = coroutine.begin.0;

    // Entry table: state 0 is the original entry, state k > 0 goes on after
    // suspension k.
    let mut state_entries: Vec<C::BlockId> = Vec::new();
    state_entries.push(coro_entry_bb);

    let mut susp_idx: usize = 0;
    proof {
        lemma_sheds_refl(before);
    }
    while susp_idx < suspensions.len()
        invariant
            susp_idx <= suspensions.len(),
            points == suspensions@,
            hooks.reading() == reading,
            points_apart(reading, before, points),
            cfg.body().wf(),
            in_id_order(before.order) ==> in_id_order(cfg.body().order),
            sheds(before, cfg.body()),
            state_entries@.len() == susp_idx + 1,
            state_entries@[0] == coro_entry_bb,
            suspended_all(
                before,
                cfg.body(),
                points,
                susp_idx as nat,
                *m,
                state_entries@,
            ),
        decreases suspensions.len() - susp_idx,
    {
        let ghost mid = cfg.body();
        let ghost entries = state_entries@;
        proof {
            lemma_suspended_all_keeps(before, mid, points, susp_idx as nat, *m, entries);
            let p = points[susp_idx as int];
            assert(before.has(p.0));
            assert(mid.blocks[p.0] == before.blocks[p.0]);
        }
        let entry = emit_suspension(
            cfg,
            hooks,
            &suspensions[susp_idx],
            (susp_idx + 1) as i64,
            m,
        );
        state_entries.push(entry);
        proof {
            lemma_suspended_sheds(
                mid,
                cfg.body(),
                points[susp_idx as int],
                (susp_idx + 1) as i64,
                *m,
                entry,
            );
            lemma_sheds_compose(before, mid, cfg.body());
            lemma_entries_grow(
                before,
                mid,
                points,
                susp_idx as nat,
                *m,
                entries,
                state_entries@,
            );
            assert(suspended(
                mid,
                cfg.body(),
                points[(susp_idx + 1) as nat - 1],
                (susp_idx + 1) as nat as i64,
                *m,
                state_entries@[(susp_idx + 1) as nat as int],
            ));
        }
        susp_idx = susp_idx + 1;
    }
    let ghost mid = cfg.body();
    proof {
        lemma_suspended_all_keeps(before, mid, points, points.len(), *m, state_entries@);
        lemma_suspended_all_stays(before, mid, points, points.len(), *m, state_entries@);
        assert(points.take(points.len() as int) =~= points);
    }

    // Done block: poll = Ready, state = DONE, goto exit.
    let done_bb = cfg.new_block();
    cfg.emit_assign_i64(done_bb, m.poll_result_local, 0);
    cfg.emit_assign_i64(done_bb, m.state_local, DONE_STATE);
    cfg.set_goto(done_bb, m.exit_bb);
    let ghost done = mid.add_block(done_bb, m.done_block());
    proof {
        assert(cfg.body().blocks[done_bb].stmts =~= m.done_block().stmts);
        assert(cfg.body() =~= done);
        lemma_add_block_wf(mid, done_bb, m.done_block());
        lemma_sheds_add(mid, done_bb, m.done_block());
    }

    // Wire the end marker's block into the done block.
    cfg.set_goto(coroutine.end.0, done_bb);
    let ghost wired = cfg.body();
    proof {
        lemma_sheds_set(done, coroutine.end.0, wired.blocks[coroutine.end.0]);
        lemma_set_block_wf(done, coroutine.end.0, wired.blocks[coroutine.end.0]);
    }

    // Dispatch switch: state k -> entry k; otherwise (DONE) -> exit.
    let mut targets: Vec<(i64, C::BlockId)> = Vec::new();
    let mut i: usize = 0;
    while i < state_entries.len()
        invariant
            i <= state_entries.len(),
            targets@ == arms(state_entries@).take(i as int),
        decreases state_entries.len() - i,
    {
        targets.push((i as i64, state_entries[i]));
        assert(targets@ =~= arms(state_entries@).take(i + 1));
        i = i + 1;
    }
    assert(targets@ =~= arms(state_entries@));
    cfg.set_switch(m.dispatch_bb, m.state_local, targets, m.exit_bb);
    proof {
        lemma_sheds_set(wired, m.dispatch_bb, cfg.body().blocks[m.dispatch_bb]);
        lemma_set_block_wf(wired, m.dispatch_bb, cfg.body().blocks[m.dispatch_bb]);
        lemma_sheds_compose(before, mid, done);
        lemma_sheds_compose(before, done, wired);
        lemma_sheds_compose(before, wired, cfg.body());
        assert(cfg.body().order.last() == done_bb);
        assert(suspended_all(before, mid, points, points.len(), *m, state_entries@));
    }
}

/// Rewrite one coroutine into a state machine.
pub fn build_state_machine<C, H>(
    cfg: &mut C,
    hooks: &mut H,
    coroutine: &Coroutine<C::BlockId>,
    suspensions: &[(C::BlockId, usize, SuspKind)],
) -> (machine: Machine<C::BlockId, C::LocalId>) where C: CoroCfg, H: CoroHooks<Cfg = C>
    requires
        old(cfg).body().wf(),
        old(cfg).body().has(coroutine.end.0),
        points_apart(old(hooks).reading(), old(cfg).body(), suspensions@),
    ensures
        machine_built(old(cfg).body(), final(cfg).body(), *coroutine, suspensions@, machine),
        final(hooks).reading() == old(hooks).reading(),
        rewritten(
            old(cfg).body(),
            final(cfg).body(),
            |b: C::BlockId| touched(*coroutine, suspensions@, b),
        ),
        stays(old(cfg).body(), final(cfg).body(), suspensions@),
        !old(cfg).body().has(machine.dispatch_bb),
        !old(cfg).body().has(machine.exit_bb),
        final(cfg).body().has(machine.dispatch_bb),
        final(cfg).body().has(machine.exit_bb),
{
    let ghost before = cfg.body();
    // The two coroutine locals: state and poll result.
    let state_local = cfg.new_state_local();
    let poll_result_local = cfg.new_state_local();

    let dispatch_bb = cfg.new_block();
    let ghost one = cfg.body();
    proof {
        lemma_add_block_wf(
            before.with_local(state_local, LocalKind::I64Mut).with_local(
                poll_result_local,
                LocalKind::I64Mut,
            ),
            dispatch_bb,
            Block::blank(),
        );
        lemma_sheds_add(before, dispatch_bb, Block::blank());
        lemma_sheds_same(before, before.with_block(dispatch_bb), one);
    }
    let exit_bb = cfg.new_block();
    proof {
        lemma_add_block_wf(one, exit_bb, Block::blank());
        lemma_sheds_add(one, exit_bb, Block::blank());
        lemma_sheds_compose(before, one, cfg.body());
    }
    let m = Machine { state_local, poll_result_local, dispatch_bb, exit_bb };
    let ghost opened = cfg.body();
    assert(machine_opened(before, opened, m));
    proof {
        assert(before.order.contains(coroutine.end.0));
        assert forall|b: C::BlockId| #[trigger] before.has(b) implies opened.has(b)
            && opened.blocks[b] == before.blocks[b] by {}
    }

    if suspensions.len() == 0 {
        emit_no_suspension_machine(cfg, coroutine, &m);
        assert(machine_opened(before, opened, m) && plain_machine(
            opened,
            cfg.body(),
            *coroutine,
            m,
        ));
    } else {
        emit_multi_state_machine(cfg, hooks, coroutine, suspensions, &m);
        assert(machine_opened(before, opened, m) && switch_machine(
            opened,
            cfg.body(),
            *coroutine,
            suspensions@,
            m,
        ));
    }
    proof {
        lemma_sheds_compose(before, opened, cfg.body());
        assert(opened.has(exit_bb) && opened.has(dispatch_bb));
        assert forall|b: C::BlockId| #[trigger] before.has(b) implies cfg.body().has(b) && (
        !touched(*coroutine, suspensions@, b) ==> cfg.body().blocks[b] == before.blocks[b]) by {
            assert(opened.has(b));
        }
    }
    m
}

} // verus!
