//! Executor strategies: how the state machines of a region get polled.
use vstd::prelude::*;

use crate::stackless::cfg::CoroCfg;
use crate::stackless::fence::{
    clear_tail, fences_left, lemma_cooperative_left, lemma_waker_left, region_place,
};
use crate::stackless::keep::{lemma_cooperative_keeps, lemma_waker_keeps, spared};
use crate::stackless::machine::{Machine, DONE_STATE};
use crate::stackless::model::{
    in_id_order, lemma_add_block_wf, lemma_set_block_wf, Block, Body, LocalKind, Stmt, Term,
};
use crate::stackless::scan::{Coroutine, Reading, Region, RegionView};
use crate::stackless::shed::{
    host_total, lemma_leaner_cut, lemma_leaner_erase, lemma_leaner_push,
    lemma_sheds_add, lemma_sheds_compose, lemma_sheds_move, lemma_sheds_refl, lemma_sheds_same,
    lemma_sheds_set, sheds,
};
use crate::stackless::tally::{tally_body, Tags};
use crate::vocab::{lawful_eq, CfgId};

verus! {

/// A region whose coroutines have their machines, and whose markers are still in
/// place.
pub open spec fn region_ready<B: CfgId, L: CfgId>(
    body: Body<B, L>,
    r: RegionView<B>,
    machines: Seq<Machine<B, L>>,
) -> bool {
    &&& body.wf()
    &&& body.at(r.region_begin)
    &&& body.stmt(r.region_begin) is Host
    &&& body.at(r.region_end)
    &&& forall|j: int|
        0 <= j < r.coroutines.len() ==> body.at((#[trigger] r.coroutines[j]).begin) && body.at(
            r.coroutines[j].end,
        )
    &&& forall|k: int|
        0 <= k < machines.len() ==> body.has((#[trigger] machines[k]).dispatch_bb) && body.has(
            machines[k].exit_bb,
        )
}

/// A host statement is gone, and nothing else has been upset.
pub open spec fn marker_gone<B: CfgId, L: CfgId>(before: Body<B, L>, after: Body<B, L>) -> bool {
    &&& after.wf()
    &&& in_id_order(before.order) ==> in_id_order(after.order)
    &&& sheds(before, after)
    &&& host_total(after) < host_total(before)
}

/// What an executor owes the transform: the region's opening marker is gone, and
/// but for the region's markers every host statement is still there. Where what
/// follows the opening marker in its block is the region's own, the region's
/// markers are all gone, and those of other regions are where they were.
pub open spec fn region_gone<B: CfgId, L: CfgId>(
    before: Body<B, L>,
    after: Body<B, L>,
    r: RegionView<B>,
) -> bool {
    &&& marker_gone(before, after)
    &&& forall|p: Tags|
        spared(p, before, r) ==> #[trigger] tally_body(p, after) == tally_body(p, before)
    &&& forall|reading: Reading|
        clear_tail(reading, before, r) ==> #[trigger] fences_left(
            reading,
            before,
            after,
            region_place(r),
        )
}

/// Builds the executor wrapper around the state machines of a region. Called
/// once per region, after every machine of the region has been built.
pub trait Executor<C: CoroCfg>: Sized {
    /// How this executor rewrites a region, and what it records of it. One that
    /// leaves it out promises no more than the transform needs.
    open spec fn finalized(
        self,
        next: Self,
        before: Body<C::BlockId, C::LocalId>,
        after: Body<C::BlockId, C::LocalId>,
        r: RegionView<C::BlockId>,
        machines: Seq<Machine<C::BlockId, C::LocalId>>,
    ) -> bool {
        true
    }

    fn finalize_region(
        &mut self,
        cfg: &mut C,
        region: &Region<C::BlockId>,
        machines: &[Machine<C::BlockId, C::LocalId>],
    )
        requires
            lawful_eq::<C::BlockId>(),
            region_ready(old(cfg).body(), region@, machines@),
        ensures
            old(self).finalized(
                *final(self),
                old(cfg).body(),
                final(cfg).body(),
                region@,
                machines@,
            ),
            region_gone(old(cfg).body(), final(cfg).body(), region@),
    ;
}

/// The blocks and the flag a polling pass over a region hangs on.
pub struct Pass<B, L> {
    /// Where a pass starts.
    pub top: B,
    /// Where the region is left for good.
    pub exit: B,
    /// What followed the region.
    pub post: B,
    /// Still set at the end of a pass in which nothing was pending.
    pub all_done: L,
}

/// The pass opened: its flag is raised at the top, and the exit leads to what
/// followed the region.
pub open spec fn pass_opened<B: CfgId, L: CfgId>(
    before: Body<B, L>,
    after: Body<B, L>,
    r: RegionView<B>,
    p: Pass<B, L>,
) -> bool {
    let end = r.region_end.0;
    let top = Block {
        stmts: seq![Stmt::AssignBool { local: p.all_done, flag: true }],
        term: Term::Unset,
    };
    let exit = Block::bare(Term::Goto(p.post));
    let post = Block::bare(before.blocks[end].term);
    &&& !before.has(p.top)
    &&& !before.has(p.exit)
    &&& !before.has(p.post)
    &&& p.top != p.exit
    &&& p.top != p.post
    &&& p.exit != p.post
    &&& !before.has_local(p.all_done)
    &&& after == before.add_block(p.top, top).add_block(p.exit, exit).add_block(
        p.post,
        post,
    ).set_block(end, before.blocks[end].ending(Term::Unset)).with_local(
        p.all_done,
        LocalKind::BoolMut,
    )
}

/// One machine's part of a pass, from block `check` to block `next`:
///
/// ```text
/// check:  is_done = (state == DONE); if is_done -> after, else -> dispatch
/// exit of the machine:               -> after
/// after:  is_ready = (poll == 0);    if is_ready -> done, else -> pending
/// done:   state = DONE               -> next
/// pending: all_done = false          -> next
/// ```
pub open spec fn machine_polled<B: CfgId, L: CfgId>(
    before: Body<B, L>,
    after: Body<B, L>,
    m: Machine<B, L>,
    check: B,
    next: B,
    all_done: L,
) -> bool {
    let n = before.order.len() as int;
    let l = before.locals.len() as int;
    let polled = after.order[n];
    let done = after.order[n + 1];
    let pending = after.order[n + 2];
    let is_done = after.locals[l].0;
    let is_ready = after.locals[l + 1].0;
    &&& after.order == before.order + seq![polled, done, pending, next]
    &&& after.order.no_duplicates()
    &&& after.locals == before.locals + seq![(is_done, LocalKind::Bool), (is_ready, LocalKind::Bool)]
    &&& !before.has_local(is_done)
    &&& !before.has_local(is_ready)
    &&& is_done != is_ready
    &&& after.blocks == before.append(
        check,
        Stmt::EqCheckI64 { dest: is_done, lhs: m.state_local, rhs: DONE_STATE },
    ).end_with(
        check,
        Term::Branch { cond: is_done, yes: polled, no: m.dispatch_bb },
    ).end_with(m.exit_bb, Term::Goto(polled)).blocks.insert(
        polled,
        Block {
            stmts: seq![
                Stmt::EqCheckI64 { dest: is_ready, lhs: m.poll_result_local, rhs: 0 },
            ],
            term: Term::Branch { cond: is_ready, yes: done, no: pending },
        },
    ).insert(
        done,
        Block {
            stmts: seq![Stmt::AssignI64 { local: m.state_local, value: DONE_STATE }],
            term: Term::Goto(next),
        },
    ).insert(
        pending,
        Block {
            stmts: seq![Stmt::AssignBool { local: all_done, flag: false }],
            term: Term::Goto(next),
        },
    ).insert(next, Block::blank())
}

/// The first `n` machines polled one after another: the first from the top of
/// the pass, each other from a block of its own that the one before leads to.
/// `last` is where the pass then stands.
pub open spec fn machines_polled<B: CfgId, L: CfgId>(
    before: Body<B, L>,
    after: Body<B, L>,
    machines: Seq<Machine<B, L>>,
    n: nat,
    top: B,
    last: B,
    all_done: L,
) -> bool
    decreases n,
{
    if n == 0 {
        after == before && last == top
    } else if n == 1 {
        machine_polled(before, after, machines[0], top, last, all_done)
    } else {
        exists|mid: Body<B, L>, prev: B, check: B|
            {
                &&& machines_polled(before, mid, machines, (n - 1) as nat, top, prev, all_done)
                &&& !mid.has(check)
                &&& #[trigger] machine_polled(
                    mid.with_block(check).end_with(prev, Term::Goto(check)),
                    after,
                    machines[n - 1],
                    check,
                    last,
                    all_done,
                )
            }
    }
}

/// The markers of the first `n` coroutines erased.
pub open spec fn coroutines_erased<B: CfgId, L: CfgId>(
    body: Body<B, L>,
    cs: Seq<Coroutine<B>>,
    n: nat,
) -> Body<B, L>
    decreases n,
{
    if n == 0 {
        body
    } else {
        coroutines_erased(body, cs, (n - 1) as nat).erase(cs[n - 1].begin).erase(cs[n - 1].end)
    }
}

/// All the markers of the region erased.
pub open spec fn region_erased<B: CfgId, L: CfgId>(
    body: Body<B, L>,
    r: RegionView<B>,
) -> Body<B, L> {
    coroutines_erased(body, r.coroutines, r.coroutines.len()).erase(r.region_begin).erase(
        r.region_end,
    )
}

/// The states of the first `n` machines set to their start in block `b`.
pub open spec fn states_zeroed<B: CfgId, L: CfgId>(
    body: Body<B, L>,
    machines: Seq<Machine<B, L>>,
    n: nat,
    b: B,
) -> Body<B, L>
    decreases n,
{
    if n == 0 {
        body
    } else {
        states_zeroed(body, machines, (n - 1) as nat, b).append(
            b,
            Stmt::AssignI64 { local: machines[n - 1].state_local, value: 0 },
        )
    }
}

/// The region closed around its pass: its markers are erased; what followed the
/// opening marker in its block is now in block `entry`, to which the dispatch of
/// a coroutine that began there is retargeted; and the opening block starts
/// every machine and goes to the top of the pass.
pub open spec fn region_closed<B: CfgId, L: CfgId>(
    body: Body<B, L>,
    r: RegionView<B>,
    machines: Seq<Machine<B, L>>,
    top: B,
    entry: B,
) -> Body<B, L> {
    let open_bb = r.region_begin.0;
    let split = region_erased(body, r).split(open_bb, r.region_begin.1 as int, entry);
    let retargeted = if machines.len() > 0 && r.coroutines.len() > 0
        && r.coroutines[0].begin.0 == open_bb {
        let dispatch = machines[0].dispatch_bb;
        split.end_with(dispatch, split.blocks[dispatch].term.redirected(open_bb, entry))
    } else {
        split
    };
    states_zeroed(retargeted, machines, machines.len(), open_bb).end_with(
        open_bb,
        Term::Goto(top),
    )
}

/// The round-robin loop: every machine is polled in turn, and the pass starts
/// over until one leaves nothing pending.
pub open spec fn cooperative_loop<B: CfgId, L: CfgId>(
    before: Body<B, L>,
    after: Body<B, L>,
    r: RegionView<B>,
    machines: Seq<Machine<B, L>>,
) -> bool {
    exists|p: Pass<B, L>, opened: Body<B, L>, polled: Body<B, L>, last: B|
        {
            &&& #[trigger] pass_opened(before, opened, r, p)
            &&& #[trigger] machines_polled(
                opened,
                polled,
                machines,
                machines.len(),
                p.top,
                last,
                p.all_done,
            )
            &&& !polled.has(after.order.last())
            &&& after == region_closed(
                polled.end_with(
                    last,
                    Term::Branch { cond: p.all_done, yes: p.exit, no: p.top },
                ),
                r,
                machines,
                p.top,
                after.order.last(),
            )
        }
}

/// The single pass: every machine is polled once; the region is then left for
/// `exits.done` if nothing is pending, and for `exits.pending`, a block of the
/// host's to fill, if something is.
pub open spec fn waker_pass<B: CfgId, L: CfgId>(
    before: Body<B, L>,
    after: Body<B, L>,
    r: RegionView<B>,
    machines: Seq<Machine<B, L>>,
    exits: RegionExits<B>,
) -> bool {
    exists|p: Pass<B, L>, opened: Body<B, L>, polled: Body<B, L>, last: B|
        {
            &&& #[trigger] pass_opened(before, opened, r, p)
            &&& #[trigger] machines_polled(
                opened,
                polled,
                machines,
                machines.len(),
                p.top,
                last,
                p.all_done,
            )
            &&& exits.done == p.exit
            &&& !polled.has(exits.pending)
            &&& !polled.with_block(exits.pending).has(after.order.last())
            &&& after == region_closed(
                polled.with_block(exits.pending).end_with(
                    last,
                    Term::Branch { cond: p.all_done, yes: p.exit, no: exits.pending },
                ),
                r,
                machines,
                p.top,
                after.order.last(),
            )
        }
}

/// Where a region is left: the blocks a host wires its waker plumbing to.
#[derive(Debug)]
pub struct RegionExits<B: CfgId> {
    pub done: B,
    pub pending: B,
}

/// Round-robin polling loop: drives every coroutine to completion in a single
/// thread and a single stack frame.
pub struct CooperativeExecutor;

/// Waker-driven polling: one pass per entry, and the pass's two exits recorded
/// for the host, region by region.
#[derive(Debug)]
pub struct WakerExecutor<B: CfgId> {
    pub regions: Vec<RegionExits<B>>,
}

/// Every block that was there still starts with the statements it had.
spec fn grown<B, L>(before: Body<B, L>, after: Body<B, L>) -> bool {
    forall|b: B| #[trigger]
        before.has(b) ==> {
            let old_stmts = before.blocks[b].stmts;
            let new_stmts = after.blocks[b].stmts;
            &&& after.has(b)
            &&& new_stmts.len() >= old_stmts.len()
            &&& new_stmts.take(old_stmts.len() as int) == old_stmts
        }
}

/// What each stage of an executor keeps.
spec fn sound_step<B: CfgId, L: CfgId>(before: Body<B, L>, after: Body<B, L>) -> bool {
    &&& after.wf()
    &&& in_id_order(before.order) ==> in_id_order(after.order)
    &&& sheds(before, after)
}

proof fn lemma_grown_compose<B, L>(a: Body<B, L>, b: Body<B, L>, c: Body<B, L>)
    requires
        grown(a, b),
        grown(b, c),
    ensures
        grown(a, c),
{
    assert forall|x: B| #[trigger] a.has(x) implies {
        let old_stmts = a.blocks[x].stmts;
        let new_stmts = c.blocks[x].stmts;
        &&& c.has(x)
        &&& new_stmts.len() >= old_stmts.len()
        &&& new_stmts.take(old_stmts.len() as int) == old_stmts
    } by {
        assert(b.has(x));
        let s = a.blocks[x].stmts;
        let t = b.blocks[x].stmts;
        let u = c.blocks[x].stmts;
        assert(u.take(s.len() as int) =~= u.take(t.len() as int).take(s.len() as int));
    }
}

proof fn lemma_grown_ready<B: CfgId, L: CfgId>(
    before: Body<B, L>,
    after: Body<B, L>,
    r: RegionView<B>,
    machines: Seq<Machine<B, L>>,
)
    requires
        region_ready(before, r, machines),
        grown(before, after),
        after.wf(),
    ensures
        region_ready(after, r, machines),
{
    assert forall|pos: (B, usize)| #[trigger] before.at(pos) implies after.at(pos) && after.stmt(
        pos,
    ) == before.stmt(pos) by {
        assert(before.has(pos.0));
        let s = before.blocks[pos.0].stmts;
        assert(after.blocks[pos.0].stmts.take(s.len() as int)[pos.1 as int] == s[pos.1 as int]);
    }
}

proof fn lemma_add_steps<B: CfgId, L: CfgId>(body: Body<B, L>, b: B, block: Block<B, L>)
    requires
        body.wf(),
        !body.has(b),
        crate::stackless::shed::hostless(block.stmts),
    ensures
        body.add_block(b, block).wf(),
        sheds(body, body.add_block(b, block)),
        grown(body, body.add_block(b, block)),
{
    lemma_add_block_wf(body, b, block);
    lemma_sheds_add(body, b, block);
    let after = body.add_block(b, block);
    assert forall|x: B| #[trigger] body.has(x) implies after.has(x)
        && after.blocks[x].stmts.len() >= body.blocks[x].stmts.len()
        && after.blocks[x].stmts.take(body.blocks[x].stmts.len() as int) == body.blocks[x].stmts by {
        assert(after.blocks[x].stmts.take(body.blocks[x].stmts.len() as int)
            =~= body.blocks[x].stmts);
    }
}

proof fn lemma_end_steps<B: CfgId, L: CfgId>(body: Body<B, L>, b: B, term: Term<B, L>)
    requires
        body.wf(),
        body.has(b),
    ensures
        body.end_with(b, term).wf(),
        sheds(body, body.end_with(b, term)),
        grown(body, body.end_with(b, term)),
{
    let block = body.blocks[b].ending(term);
    lemma_set_block_wf(body, b, block);
    lemma_sheds_set(body, b, block);
    let after = body.end_with(b, term);
    assert forall|x: B| #[trigger] body.has(x) implies after.has(x)
        && after.blocks[x].stmts.len() >= body.blocks[x].stmts.len()
        && after.blocks[x].stmts.take(body.blocks[x].stmts.len() as int) == body.blocks[x].stmts by {
        assert(after.blocks[x].stmts.take(body.blocks[x].stmts.len() as int)
            =~= body.blocks[x].stmts);
    }
}

proof fn lemma_append_steps<B: CfgId, L: CfgId>(body: Body<B, L>, b: B, s: Stmt<L>)
    requires
        body.wf(),
        body.has(b),
        !(s is Host),
    ensures
        body.append(b, s).wf(),
        sheds(body, body.append(b, s)),
        grown(body, body.append(b, s)),
{
    let after = body.append(b, s);
    lemma_leaner_push(body.blocks[b].stmts, s);
    lemma_set_block_wf(body, b, after.blocks[b]);
    lemma_sheds_set(body, b, after.blocks[b]);
    assert forall|x: B| #[trigger] body.has(x) implies after.has(x)
        && after.blocks[x].stmts.len() >= body.blocks[x].stmts.len()
        && after.blocks[x].stmts.take(body.blocks[x].stmts.len() as int) == body.blocks[x].stmts by {
        assert(after.blocks[x].stmts.take(body.blocks[x].stmts.len() as int)
            =~= body.blocks[x].stmts);
    }
}

/// Locals do not count.
proof fn lemma_local_steps<B: CfgId, L: CfgId>(a: Body<B, L>, b: Body<B, L>, c: Body<B, L>)
    requires
        b.wf(),
        sheds(a, b),
        grown(a, b),
        b.order == c.order,
        b.blocks == c.blocks,
    ensures
        c.wf(),
        sheds(a, c),
        grown(a, c),
{
    lemma_sheds_same(a, b, c);
}

proof fn lemma_steps_compose<B: CfgId, L: CfgId>(a: Body<B, L>, b: Body<B, L>, c: Body<B, L>)
    requires
        sheds(a, b),
        grown(a, b),
        sheds(b, c),
        grown(b, c),
    ensures
        sheds(a, c),
        grown(a, c),
{
    lemma_sheds_compose(a, b, c);
    lemma_grown_compose(a, b, c);
}

/// Open the polling pass of a region.
fn open_pass<C: CoroCfg>(cfg: &mut C, region: &Region<C::BlockId>) -> (p: Pass<
    C::BlockId,
    C::LocalId,
>)
    requires
        old(cfg).body().wf(),
        old(cfg).body().at(region.region_end),
    ensures
        pass_opened(old(cfg).body(), final(cfg).body(), region@, p),
        sound_step(old(cfg).body(), final(cfg).body()),
        grown(old(cfg).body(), final(cfg).body()),
{
    let ghost before = cfg.body();
    let region_end_bb = region.region_end.0;
    let ghost whole = before.blocks[region_end_bb];
    let loop_bb = cfg.new_block();
    proof {
        lemma_add_steps(before, loop_bb, Block::blank());
    }
    let ghost b1 = cfg.body();
    let region_exit_bb = cfg.new_block();
    proof {
        lemma_add_steps(b1, region_exit_bb, Block::blank());
        lemma_steps_compose(before, b1, cfg.body());
    }
    let ghost b2 = cfg.body();

    // What follows the region leaves the closing marker's block with its
    // terminator.
    let last_idx = cfg.statement_count(region_end_bb).saturating_sub(1);
    let post_region_bb = cfg.split_after(region_end_bb, last_idx);
    let ghost b3 = cfg.body();
    proof {
        let kept_stmts = whole.stmts.take(last_idx + 1);
        let tail_block = Block { stmts: whole.stmts.skip(last_idx + 1), term: whole.term };
        assert(kept_stmts =~= whole.stmts);
        assert(tail_block.stmts =~= Seq::empty());
        lemma_add_steps(b2, post_region_bb, tail_block);
        let m = b2.add_block(post_region_bb, tail_block);
        lemma_end_steps(m, region_end_bb, Term::Unset);
        lemma_steps_compose(b2, m, b3);
        lemma_steps_compose(before, b2, b3);
    }
    cfg.set_goto(region_exit_bb, post_region_bb);
    proof {
        lemma_end_steps(b3, region_exit_bb, Term::Goto(post_region_bb));
        lemma_steps_compose(before, b3, cfg.body());
    }
    let ghost b4 = cfg.body();

    let all_done_local = cfg.new_mut_bool_local();
    proof {
        lemma_local_steps(before, b4, cfg.body());
    }
    let ghost b5 = cfg.body();
    // Top of the loop: raise all_done.
    cfg.emit_assign_bool(loop_bb, all_done_local, true);
    proof {
        let up = Stmt::AssignBool { local: all_done_local, flag: true };
        lemma_append_steps(b5, loop_bb, up);
        lemma_steps_compose(before, b5, cfg.body());
        let after = cfg.body();
        let top = Block { stmts: seq![up], term: Term::Unset };
        let exit = Block::bare(Term::Goto(post_region_bb));
        let post = Block::bare(whole.term);
        let want = before.add_block(loop_bb, top).add_block(region_exit_bb, exit).add_block(
            post_region_bb,
            post,
        ).set_block(region_end_bb, whole.ending(Term::Unset)).with_local(
            all_done_local,
            LocalKind::BoolMut,
        );
        assert(after.blocks[loop_bb].stmts =~= top.stmts);
        assert(after.blocks[region_exit_bb].stmts =~= exit.stmts);
        assert(after.blocks[post_region_bb].stmts =~= post.stmts);
        assert(after.blocks[region_end_bb].stmts =~= whole.stmts);
        assert(after.blocks =~= want.blocks);
        assert(after =~= want);
        assert(!before.has_local(all_done_local)) by {
            assert(before.locals == b4.locals);
        }
    }
    Pass {
        top: loop_bb,
        exit: region_exit_bb,
        post: post_region_bb,
        all_done: all_done_local,
    }
}

/// Poll one machine from block `check_bb`; hands back where the pass goes on.
fn poll_machine<C: CoroCfg>(
    cfg: &mut C,
    machine: &Machine<C::BlockId, C::LocalId>,
    check_bb: C::BlockId,
    all_done_local: C::LocalId,
) -> (next_bb: C::BlockId)
    requires
        old(cfg).body().wf(),
        old(cfg).body().has(check_bb),
        old(cfg).body().has(machine.exit_bb),
    ensures
        machine_polled(
            old(cfg).body(),
            final(cfg).body(),
            *machine,
            check_bb,
            next_bb,
            all_done_local,
        ),
        final(cfg).body().has(next_bb),
        sound_step(old(cfg).body(), final(cfg).body()),
        grown(old(cfg).body(), final(cfg).body()),
{
    let ghost before = cfg.body();
    // is_done = (state == DONE)
    let is_done = cfg.new_bool_local();
    cfg.emit_eq_check_i64(check_bb, is_done, machine.state_local, DONE_STATE);
    let ghost check = Stmt::EqCheckI64 {
        dest: is_done,
        lhs: machine.state_local,
        rhs: DONE_STATE,
    };
    proof {
        lemma_append_steps(before, check_bb, check);
        lemma_local_steps(before, before.append(check_bb, check), cfg.body());
    }
    let ghost b1 = cfg.body();

    // Done: skip the dispatch. Not done: run it, and come back through the exit.
    let after_poll_bb = cfg.new_block();
    let ghost b2 = cfg.body();
    cfg.set_branch(check_bb, is_done, after_poll_bb, machine.dispatch_bb);
    let ghost b3 = cfg.body();
    cfg.set_goto(machine.exit_bb, after_poll_bb);
    let ghost b4 = cfg.body();
    proof {
        lemma_add_steps(b1, after_poll_bb, Block::blank());
        lemma_end_steps(
            b2,
            check_bb,
            Term::Branch { cond: is_done, yes: after_poll_bb, no: machine.dispatch_bb },
        );
        lemma_end_steps(b3, machine.exit_bb, Term::Goto(after_poll_bb));
        lemma_steps_compose(before, b1, b2);
        lemma_steps_compose(before, b2, b3);
        lemma_steps_compose(before, b3, b4);
    }

    // After the poll: ready latches the final state, pending lowers all_done.
    let is_ready = cfg.new_bool_local();
    let ghost b5 = cfg.body();
    proof {
        lemma_local_steps(before, b4, b5);
    }
    cfg.emit_eq_check_i64(after_poll_bb, is_ready, machine.poll_result_local, 0);
    let ghost b6 = cfg.body();
    let ghost ready = Stmt::EqCheckI64 {
        dest: is_ready,
        lhs: machine.poll_result_local,
        rhs: 0,
    };
    proof {
        lemma_append_steps(b5, after_poll_bb, ready);
        lemma_steps_compose(before, b5, b6);
    }
    let mark_done_bb = cfg.new_block();
    let ghost b7 = cfg.body();
    proof {
        lemma_add_steps(b6, mark_done_bb, Block::blank());
    }
    let mark_pending_bb = cfg.new_block();
    let ghost b8 = cfg.body();
    proof {
        lemma_add_steps(b7, mark_pending_bb, Block::blank());
    }
    let next_bb = cfg.new_block();
    let ghost b9 = cfg.body();
    proof {
        lemma_add_steps(b8, next_bb, Block::blank());
        lemma_steps_compose(before, b6, b7);
        lemma_steps_compose(before, b7, b8);
        lemma_steps_compose(before, b8, b9);
    }
    cfg.set_branch(after_poll_bb, is_ready, mark_done_bb, mark_pending_bb);
    let ghost c1 = cfg.body();
    cfg.emit_assign_i64(mark_done_bb, machine.state_local, DONE_STATE);
    let ghost c2 = cfg.body();
    cfg.set_goto(mark_done_bb, next_bb);
    let ghost c3 = cfg.body();
    cfg.emit_assign_bool(mark_pending_bb, all_done_local, false);
    let ghost c4 = cfg.body();
    cfg.set_goto(mark_pending_bb, next_bb);
    let ghost after = cfg.body();
    proof {
        lemma_end_steps(
            b9,
            after_poll_bb,
            Term::Branch { cond: is_ready, yes: mark_done_bb, no: mark_pending_bb },
        );
        lemma_append_steps(
            c1,
            mark_done_bb,
            Stmt::AssignI64 { local: machine.state_local, value: DONE_STATE },
        );
        lemma_end_steps(c2, mark_done_bb, Term::Goto(next_bb));
        lemma_append_steps(
            c3,
            mark_pending_bb,
            Stmt::AssignBool { local: all_done_local, flag: false },
        );
        lemma_end_steps(c4, mark_pending_bb, Term::Goto(next_bb));
        lemma_steps_compose(before, b9, c1);
        lemma_steps_compose(before, c1, c2);
        lemma_steps_compose(before, c2, c3);
        lemma_steps_compose(before, c3, c4);
        lemma_steps_compose(before, c4, after);
        assert(after.order =~= before.order + seq![
            after_poll_bb,
            mark_done_bb,
            mark_pending_bb,
            next_bb,
        ]);
        assert(after.locals =~= before.locals + seq![
            (is_done, LocalKind::Bool),
            (is_ready, LocalKind::Bool),
        ]);
        let n = before.order.len() as int;
        assert(after.order[n] == after_poll_bb && after.order[n + 1] == mark_done_bb
            && after.order[n + 2] == mark_pending_bb);
        let l = before.locals.len() as int;
        assert(after.locals[l].0 == is_done && after.locals[l + 1].0 == is_ready);
        assert(b4.locals =~= before.locals.push((is_done, LocalKind::Bool)));
        assert(!before.has_local(is_ready) && is_ready != is_done) by {
            assert(b4.locals[l].0 == is_done);
            if before.has_local(is_ready) {
                let k = choose|k: int|
                    0 <= k < before.locals.len() && (#[trigger] before.locals[k]).0 == is_ready;
                assert(b4.locals[k].0 == is_ready);
            }
        }
        assert(after.blocks[after_poll_bb].stmts =~= seq![ready]);
        assert(after.blocks[mark_done_bb].stmts =~= seq![
            Stmt::AssignI64 { local: machine.state_local, value: DONE_STATE },
        ]);
        assert(after.blocks[mark_pending_bb].stmts =~= seq![
            Stmt::AssignBool { local: all_done_local, flag: false },
        ]);
        let head = before.append(check_bb, check).end_with(
            check_bb,
            Term::Branch { cond: is_done, yes: after_poll_bb, no: machine.dispatch_bb },
        ).end_with(machine.exit_bb, Term::Goto(after_poll_bb)).blocks;
        assert(after.blocks =~= head.insert(after_poll_bb, after.blocks[after_poll_bb]).insert(
            mark_done_bb,
            after.blocks[mark_done_bb],
        ).insert(mark_pending_bb, after.blocks[mark_pending_bb]).insert(next_bb, Block::blank()));
    }
    next_bb
}

/// Poll every machine in turn, from the top of the pass; hands back where the
/// pass then stands.
fn poll_machines<C: CoroCfg>(
    cfg: &mut C,
    machines: &[Machine<C::BlockId, C::LocalId>],
    loop_bb: C::BlockId,
    all_done_local: C::LocalId,
) -> (last_bb: C::BlockId)
    requires
        old(cfg).body().wf(),
        old(cfg).body().has(loop_bb),
        forall|k: int|
            0 <= k < machines@.len() ==> old(cfg).body().has((#[trigger] machines@[k]).exit_bb),
    ensures
        machines_polled(
            old(cfg).body(),
            final(cfg).body(),
            machines@,
            machines@.len(),
            loop_bb,
            last_bb,
            all_done_local,
        ),
        final(cfg).body().has(last_bb),
        sound_step(old(cfg).body(), final(cfg).body()),
        grown(old(cfg).body(), final(cfg).body()),
{
    let ghost before = cfg.body();
    let mut current_bb = loop_bb;
    let mut i: usize = 0;
    proof {
        lemma_sheds_refl(before);
        assert forall|x: C::BlockId| #[trigger] before.has(x) implies before.blocks[x].stmts.take(
            before.blocks[x].stmts.len() as int,
        ) == before.blocks[x].stmts by {
            assert(before.blocks[x].stmts.take(before.blocks[x].stmts.len() as int)
                =~= before.blocks[x].stmts);
        }
    }
    while i < machines.len()
        invariant
            i <= machines.len(),
            forall|k: int|
                0 <= k < machines@.len() ==> before.has((#[trigger] machines@[k]).exit_bb),
            machines_polled(
                before,
                cfg.body(),
                machines@,
                i as nat,
                loop_bb,
                current_bb,
                all_done_local,
            ),
            cfg.body().has(current_bb),
            sound_step(before, cfg.body()),
            grown(before, cfg.body()),
        decreases machines.len() - i,
    {
        let machine = &machines[i];
        let ghost mid = cfg.body();
        assert(before.has(machine.exit_bb));
        if i == 0 {
            let next_bb = poll_machine(cfg, machine, current_bb, all_done_local);
            proof {
                lemma_steps_compose(before, mid, cfg.body());
            }
            current_bb = next_bb;
        } else {
            let check_bb = cfg.new_block();
            let ghost m1 = cfg.body();
            cfg.set_goto(current_bb, check_bb);
            let ghost m2 = cfg.body();
            proof {
                lemma_add_steps(mid, check_bb, Block::blank());
                lemma_end_steps(m1, current_bb, Term::Goto(check_bb));
                lemma_steps_compose(before, mid, m1);
                lemma_steps_compose(before, m1, m2);
            }
            let next_bb = poll_machine(cfg, machine, check_bb, all_done_local);
            proof {
                lemma_steps_compose(before, m2, cfg.body());
                assert(machine_polled(
                    mid.with_block(check_bb).end_with(current_bb, Term::Goto(check_bb)),
                    cfg.body(),
                    machines@[(i + 1) as nat - 1],
                    check_bb,
                    next_bb,
                    all_done_local,
                ));
            }
            current_bb = next_bb;
        }
        i = i + 1;
    }
    current_bb
}

/// Every block has as many statements as it had.
spec fn same_sizes<B, L>(before: Body<B, L>, after: Body<B, L>) -> bool {
    forall|b: B| #[trigger]
        before.has(b) ==> after.has(b) && after.blocks[b].stmts.len()
            == before.blocks[b].stmts.len()
}

/// The opening marker is still there, or something has been erased already.
spec fn lighter<B: CfgId, L: CfgId>(
    before: Body<B, L>,
    after: Body<B, L>,
    open_at: (B, usize),
) -> bool {
    host_total(after) < host_total(before) || after.stmt(open_at) is Host
}

proof fn lemma_erase_step<B: CfgId, L: CfgId>(
    before: Body<B, L>,
    body: Body<B, L>,
    pos: (B, usize),
    open_at: (B, usize),
)
    requires
        body.wf(),
        body.at(pos),
        body.at(open_at),
        sheds(before, body),
        same_sizes(before, body),
        lighter(before, body, open_at),
    ensures
        body.erase(pos).wf(),
        sheds(before, body.erase(pos)),
        same_sizes(before, body.erase(pos)),
        lighter(before, body.erase(pos), open_at),
        pos == open_at ==> host_total(body.erase(pos)) < host_total(before),
{
    let after = body.erase(pos);
    lemma_leaner_erase(body.blocks[pos.0].stmts, pos.1 as int);
    lemma_set_block_wf(body, pos.0, after.blocks[pos.0]);
    lemma_sheds_set(body, pos.0, after.blocks[pos.0]);
    lemma_sheds_compose(before, body, after);
    assert forall|b: B| #[trigger] before.has(b) implies after.has(b)
        && after.blocks[b].stmts.len() == before.blocks[b].stmts.len() by {
        assert(body.has(b));
    }
}

/// Close a region around its polling pass.
fn close_region<C: CoroCfg>(
    cfg: &mut C,
    region: &Region<C::BlockId>,
    machines: &[Machine<C::BlockId, C::LocalId>],
    loop_bb: C::BlockId,
) -> (new_entry: C::BlockId)
    requires
        lawful_eq::<C::BlockId>(),
        region_ready(old(cfg).body(), region@, machines@),
    ensures
        !old(cfg).body().has(new_entry),
        final(cfg).body().order == old(cfg).body().order.push(new_entry),
        final(cfg).body() == region_closed(
            old(cfg).body(),
            region@,
            machines@,
            loop_bb,
            new_entry,
        ),
        marker_gone(old(cfg).body(), final(cfg).body()),
{
    let ghost before = cfg.body();
    let ghost r = region@;
    let ghost open_at = region.region_begin;
    let ghost cs = region.coroutines@;
    proof {
        lemma_sheds_refl(before);
    }
    // Erase the coroutine markers: the dispatch and the executor own the control
    // flow now.
    let mut i: usize = 0;
    while i < region.coroutines.len()
        invariant
            i <= region.coroutines@.len(),
            cs == region.coroutines@,
            open_at == region.region_begin,
            region_ready(before, r, machines@),
            r == region@,
            cfg.body() == coroutines_erased(before, cs, i as nat),
            cfg.body().order == before.order,
            cfg.body().wf(),
            sheds(before, cfg.body()),
            same_sizes(before, cfg.body()),
            lighter(before, cfg.body(), open_at),
        decreases region.coroutines@.len() - i,
    {
        let coroutine = &region.coroutines[i];
        let ghost b0 = cfg.body();
        assert(before.at(r.coroutines[i as int].begin) && before.at(r.coroutines[i as int].end));
        assert(before.has(coroutine.begin.0) && before.has(coroutine.end.0) && before.has(
            open_at.0,
        ));
        cfg.replace_with_nop(coroutine.begin.0, coroutine.begin.1);
        proof {
            lemma_erase_step(before, b0, coroutine.begin, open_at);
        }
        let ghost b1 = cfg.body();
        cfg.replace_with_nop(coroutine.end.0, coroutine.end.1);
        proof {
            lemma_erase_step(before, b1, coroutine.end, open_at);
        }
        i = i + 1;
    }
    // Erase region markers too.
    let ghost c0 = cfg.body();
    assert(before.has(open_at.0) && before.has(r.region_end.0));
    cfg.replace_with_nop(region.region_begin.0, region.region_begin.1);
    let ghost c1 = cfg.body();
    proof {
        lemma_erase_step(before, c0, open_at, open_at);
    }
    cfg.replace_with_nop(region.region_end.0, region.region_end.1);
    let ghost c2 = cfg.body();
    proof {
        lemma_erase_step(before, c1, r.region_end, open_at);
        lemma_leaner_erase(c1.blocks[r.region_end.0].stmts, r.region_end.1 as int);
        lemma_sheds_set(c1, r.region_end.0, c2.blocks[r.region_end.0]);
        assert(c2 == region_erased(before, r));
    }

    // What followed the opening marker moves into a block of its own, so that
    // the dispatch can switch to it.
    let region_begin_bb = region.region_begin.0;
    let split_idx = region.region_begin.1;
    let new_entry = cfg.split_after(region_begin_bb, split_idx);
    let ghost c3 = cfg.body();
    proof {
        let whole = c2.blocks[region_begin_bb];
        let cut = split_idx + 1;
        lemma_leaner_cut(whole.stmts, cut);
        let tail = Block { stmts: whole.stmts.skip(cut), term: whole.term };
        lemma_sheds_move(c2, region_begin_bb, c3.blocks[region_begin_bb], new_entry, tail);
        lemma_add_block_wf(c2, new_entry, tail);
        lemma_set_block_wf(
            c2.add_block(new_entry, tail),
            region_begin_bb,
            c3.blocks[region_begin_bb],
        );
        lemma_sheds_compose(before, c2, c3);
        assert forall|b: C::BlockId| #[trigger] before.has(b) implies c3.has(b) by {
            assert(c2.has(b));
        }
    }

    // Retarget the dispatch of a first coroutine whose body started there.
    if machines.len() > 0 && region.coroutines.len() > 0 {
        assert(before.has(machines@[0].dispatch_bb));
        if region.coroutines[0].begin.0 == region_begin_bb {
            cfg.redirect_targets(machines[0].dispatch_bb, region_begin_bb, new_entry);
            proof {
                let d = machines@[0].dispatch_bb;
                lemma_end_steps(
                    c3,
                    d,
                    c3.blocks[d].term.redirected(region_begin_bb, new_entry),
                );
                lemma_sheds_compose(before, c3, cfg.body());
            }
        }
    }
    let ghost c4 = cfg.body();

    // Start every machine, then jump into the pass.
    let mut k: usize = 0;
    while k < machines.len()
        invariant
            k <= machines@.len(),
            cfg.body() == states_zeroed(c4, machines@, k as nat, region_begin_bb),
            cfg.body().order == c4.order,
            cfg.body().wf(),
            cfg.body().has(region_begin_bb),
            sheds(before, cfg.body()),
            host_total(cfg.body()) < host_total(before),
        decreases machines@.len() - k,
    {
        let ghost b0 = cfg.body();
        cfg.emit_assign_i64(region_begin_bb, machines[k].state_local, 0);
        proof {
            lemma_append_steps(
                b0,
                region_begin_bb,
                Stmt::AssignI64 { local: machines@[k as int].state_local, value: 0 },
            );
            lemma_sheds_compose(before, b0, cfg.body());
        }
        k = k + 1;
    }
    let ghost c5 = cfg.body();
    cfg.set_goto(region_begin_bb, loop_bb);
    proof {
        lemma_end_steps(c5, region_begin_bb, Term::Goto(loop_bb));
        lemma_sheds_compose(before, c5, cfg.body());
    }
    new_entry
}

/// Lay out the cooperative round-robin loop of a region.
pub fn build_cooperative_loop<C: CoroCfg>(
    cfg: &mut C,
    region: &Region<C::BlockId>,
    machines: &[Machine<C::BlockId, C::LocalId>],
)
    requires
        lawful_eq::<C::BlockId>(),
        region_ready(old(cfg).body(), region@, machines@),
    ensures
        cooperative_loop(old(cfg).body(), final(cfg).body(), region@, machines@),
        region_gone(old(cfg).body(), final(cfg).body(), region@),
{
    let ghost before = cfg.body();
    let p = open_pass(cfg, region);
    let ghost opened = cfg.body();
    proof {
        lemma_grown_ready(before, opened, region@, machines@);
        assert forall|k: int| 0 <= k < machines@.len() implies opened.has(
            (#[trigger] machines@[k]).exit_bb,
        ) by {}
    }
    let last_bb = poll_machines(cfg, machines, p.top, p.all_done);
    let ghost polled = cfg.body();
    // Exit if all_done is still up, else go round again.
    cfg.set_branch(last_bb, p.all_done, p.exit, p.top);
    let ghost branched = cfg.body();
    proof {
        lemma_end_steps(
            polled,
            last_bb,
            Term::Branch { cond: p.all_done, yes: p.exit, no: p.top },
        );
        lemma_steps_compose(before, opened, polled);
        lemma_steps_compose(before, polled, branched);
        lemma_grown_ready(before, branched, region@, machines@);
    }
    let new_entry = close_region(cfg, region, machines, p.top);
    proof {
        lemma_sheds_compose(before, branched, cfg.body());
        assert(cfg.body().order.last() == new_entry);
        assert(!polled.has(new_entry));
        assert(pass_opened(before, opened, region@, p) && machines_polled(
            opened,
            polled,
            machines@,
            machines@.len(),
            p.top,
            last_bb,
            p.all_done,
        ));
        assert forall|q: Tags| spared(q, before, region@) implies #[trigger] tally_body(
            q,
            cfg.body(),
        ) == tally_body(q, before) by {
            lemma_cooperative_keeps(q, before, cfg.body(), region@, machines@);
        }
        assert forall|reading: Reading| clear_tail(
            reading,
            before,
            region@,
        ) implies #[trigger] fences_left(
            reading,
            before,
            cfg.body(),
            region_place(region@),
        ) by {
            lemma_cooperative_left(reading, before, cfg.body(), region@, machines@);
        }
    }
}

/// Lay out the single polling pass of a region; hands back its two exits.
fn build_waker_pass<C: CoroCfg>(
    cfg: &mut C,
    region: &Region<C::BlockId>,
    machines: &[Machine<C::BlockId, C::LocalId>],
) -> (exits: RegionExits<C::BlockId>)
    requires
        lawful_eq::<C::BlockId>(),
        region_ready(old(cfg).body(), region@, machines@),
    ensures
        waker_pass(old(cfg).body(), final(cfg).body(), region@, machines@, exits),
        region_gone(old(cfg).body(), final(cfg).body(), region@),
{
    let ghost before = cfg.body();
    let p = open_pass(cfg, region);
    let ghost opened = cfg.body();
    proof {
        lemma_grown_ready(before, opened, region@, machines@);
        assert forall|k: int| 0 <= k < machines@.len() implies opened.has(
            (#[trigger] machines@[k]).exit_bb,
        ) by {}
    }
    let last_bb = poll_machines(cfg, machines, p.top, p.all_done);
    let ghost polled = cfg.body();
    // Leave for good if all_done is still up, else hand over to the host.
    let pending_bb = cfg.new_block();
    let ghost waiting = cfg.body();
    cfg.set_branch(last_bb, p.all_done, p.exit, pending_bb);
    let ghost branched = cfg.body();
    proof {
        lemma_add_steps(polled, pending_bb, Block::blank());
        lemma_end_steps(
            waiting,
            last_bb,
            Term::Branch { cond: p.all_done, yes: p.exit, no: pending_bb },
        );
        lemma_steps_compose(before, opened, polled);
        lemma_steps_compose(before, polled, waiting);
        lemma_steps_compose(before, waiting, branched);
        lemma_grown_ready(before, branched, region@, machines@);
    }
    let new_entry = close_region(cfg, region, machines, p.top);
    let exits = RegionExits { done: p.exit, pending: pending_bb };
    proof {
        lemma_sheds_compose(before, branched, cfg.body());
        assert(cfg.body().order.last() == new_entry);
        assert(pass_opened(before, opened, region@, p) && machines_polled(
            opened,
            polled,
            machines@,
            machines@.len(),
            p.top,
            last_bb,
            p.all_done,
        ));
        assert forall|q: Tags| spared(q, before, region@) implies #[trigger] tally_body(
            q,
            cfg.body(),
        ) == tally_body(q, before) by {
            lemma_waker_keeps(q, before, cfg.body(), region@, machines@, exits);
        }
        assert forall|reading: Reading| clear_tail(
            reading,
            before,
            region@,
        ) implies #[trigger] fences_left(
            reading,
            before,
            cfg.body(),
            region_place(region@),
        ) by {
            lemma_waker_left(reading, before, cfg.body(), region@, machines@, exits);
        }
    }
    exits
}

impl<C: CoroCfg> Executor<C> for CooperativeExecutor {
    open spec fn finalized(
        self,
        next: Self,
        before: Body<C::BlockId, C::LocalId>,
        after: Body<C::BlockId, C::LocalId>,
        r: RegionView<C::BlockId>,
        machines: Seq<Machine<C::BlockId, C::LocalId>>,
    ) -> bool {
        cooperative_loop(before, after, r, machines)
    }

    fn finalize_region(
        &mut self,
        cfg: &mut C,
        region: &Region<C::BlockId>,
        machines: &[Machine<C::BlockId, C::LocalId>],
    ) {
        build_cooperative_loop(cfg, region, machines);
    }
}

impl<B: CfgId> WakerExecutor<B> {
    /// An executor that has seen no region yet.
    pub fn new() -> (e: Self)
        ensures
            e.regions@.len() == 0,
    {
        WakerExecutor { regions: Vec::new() }
    }
}

impl<C: CoroCfg> Executor<C> for WakerExecutor<C::BlockId> {
    open spec fn finalized(
        self,
        next: Self,
        before: Body<C::BlockId, C::LocalId>,
        after: Body<C::BlockId, C::LocalId>,
        r: RegionView<C::BlockId>,
        machines: Seq<Machine<C::BlockId, C::LocalId>>,
    ) -> bool {
        &&& next.regions@.len() == self.regions@.len() + 1
        &&& next.regions@.drop_last() == self.regions@
        &&& waker_pass(before, after, r, machines, next.regions@.last())
    }

    fn finalize_region(
        &mut self,
        cfg: &mut C,
        region: &Region<C::BlockId>,
        machines: &[Machine<C::BlockId, C::LocalId>],
    ) {
        let exits = build_waker_pass(cfg, region, machines);
        self.regions.push(exits);
        assert(self.regions@.drop_last() =~= old(self).regions@);
    }
}

} // verus!
