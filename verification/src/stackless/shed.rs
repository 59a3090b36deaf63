//! What a rewrite does to the host's own statements: it moves them or erases
//! them, and never adds one or breaks the layout rule.
use vstd::prelude::*;

use crate::stackless::machine::{suspended, Machine};
use crate::stackless::model::{Block, Body, Stmt};
use crate::stackless::placement::{tidy, tidy_stmts};
use crate::stackless::scan::{Reading, SuspKind};
use crate::stackless::tally::{
    any_tag, lemma_tally_cut, lemma_tally_push, lemma_tally_update, lemma_total_add, lemma_total_set,
    tally, tally_body,
};
use crate::vocab::CfgId;

verus! {

/// How many of the statements are the host's own.
pub open spec fn hosts<L>(stmts: Seq<Stmt<L>>) -> nat {
    tally(any_tag(), stmts)
}

/// How many statements of the body are the host's own.
pub open spec fn host_total<B, L>(body: Body<B, L>) -> nat {
    tally_body(any_tag(), body)
}

/// No host statement is added, and a body that keeps the layout rule still does,
/// however the host reads its statements.
pub open spec fn sheds<B, L>(before: Body<B, L>, after: Body<B, L>) -> bool {
    &&& host_total(after) <= host_total(before)
    &&& forall|reading: Reading| tidy(reading, before) ==> #[trigger] tidy(reading, after)
}

/// Nothing of the host's is among the statements.
pub open spec fn hostless<L>(stmts: Seq<Stmt<L>>) -> bool {
    forall|i: int| 0 <= i < stmts.len() ==> !((#[trigger] stmts[i]) is Host)
}

pub proof fn lemma_hostless<L>(stmts: Seq<Stmt<L>>)
    requires
        hostless(stmts),
    ensures
        hosts(stmts) == 0,
        forall|reading: Reading| #[trigger] tidy_stmts(reading, stmts),
    decreases stmts.len(),
{
    if stmts.len() > 0 {
        lemma_hostless(stmts.drop_last());
    }
}

/// `new` adds no host statement to those of `old`, and keeps the layout rule if
/// `old` does.
pub open spec fn leaner<L>(old_stmts: Seq<Stmt<L>>, new_stmts: Seq<Stmt<L>>) -> bool {
    &&& hosts(new_stmts) <= hosts(old_stmts)
    &&& forall|reading: Reading|
        tidy_stmts(reading, old_stmts) ==> #[trigger] tidy_stmts(reading, new_stmts)
}

pub proof fn lemma_leaner_push<L>(s: Seq<Stmt<L>>, x: Stmt<L>)
    requires
        !(x is Host),
    ensures
        leaner(s, s.push(x)),
{
    lemma_tally_push(any_tag(), s, x);
    assert forall|reading: Reading| tidy_stmts(reading, s) implies #[trigger] tidy_stmts(
        reading,
        s.push(x),
    ) by {
        let t = s.push(x);
        assert forall|i: int, j: int|
            0 <= i < j < t.len() && crate::stackless::placement::is_stop(
                crate::stackless::cfg::mark_of(reading, #[trigger] t[i]),
            ) implies crate::stackless::cfg::mark_of(reading, #[trigger] t[j]) is None by {
            assert(t[i] == s[i]);
            if j < s.len() {
                assert(t[j] == s[j]);
            }
        }
    }
}

pub proof fn lemma_leaner_erase<L>(s: Seq<Stmt<L>>, i: int)
    requires
        0 <= i < s.len(),
    ensures
        leaner(s, s.update(i, Stmt::Nop)),
        s[i] is Host ==> hosts(s.update(i, Stmt::Nop)) < hosts(s),
{
    lemma_tally_update(any_tag(), s, i, Stmt::Nop);
}

/// Any stretch of a tidy block is tidy.
pub proof fn lemma_tidy_part<L>(s: Seq<Stmt<L>>, from: int, to: int)
    requires
        0 <= from <= to <= s.len(),
    ensures
        forall|reading: Reading|
            tidy_stmts(reading, s) ==> #[trigger] tidy_stmts(reading, s.subrange(from, to)),
{
    assert forall|reading: Reading| tidy_stmts(reading, s) implies #[trigger] tidy_stmts(
        reading,
        s.subrange(from, to),
    ) by {
        let t = s.subrange(from, to);
        assert forall|i: int, j: int|
            0 <= i < j < t.len() && crate::stackless::placement::is_stop(
                crate::stackless::cfg::mark_of(reading, #[trigger] t[i]),
            ) implies crate::stackless::cfg::mark_of(reading, #[trigger] t[j]) is None by {
            assert(t[i] == s[from + i] && t[j] == s[from + j]);
        }
    }
}

/// Both halves of a cut are leaner than the whole, and together hold as much.
pub proof fn lemma_leaner_cut<L>(s: Seq<Stmt<L>>, i: int)
    requires
        0 <= i <= s.len(),
    ensures
        leaner(s, s.take(i)),
        leaner(s, s.skip(i)),
        hosts(s.take(i)) + hosts(s.skip(i)) == hosts(s),
{
    lemma_tally_cut(any_tag(), s, i);
    lemma_tidy_part(s, 0, i);
    lemma_tidy_part(s, i, s.len() as int);
    assert(s.take(i) =~= s.subrange(0, i));
    assert(s.skip(i) =~= s.subrange(i, s.len() as int));
}

/// A new block with nothing of the host's in it.
pub proof fn lemma_sheds_add<B, L>(body: Body<B, L>, b: B, block: Block<B, L>)
    requires
        body.wf(),
        !body.has(b),
        hostless(block.stmts),
    ensures
        sheds(body, body.add_block(b, block)),
        host_total(body.add_block(b, block)) == host_total(body),
{
    lemma_hostless(block.stmts);
    lemma_total_add(any_tag(), body, b, block);
    let after = body.add_block(b, block);
    assert forall|reading: Reading| tidy(reading, body) implies #[trigger] tidy(reading, after) by {
        assert forall|x: B| #[trigger] after.has(x) implies tidy_stmts(
            reading,
            after.blocks[x].stmts,
        ) by {
            if x != b {
                assert(body.has(x));
            } else {
                assert(tidy_stmts(reading, block.stmts));
            }
        }
    }
}

/// A block replaced by a leaner one.
pub proof fn lemma_sheds_set<B, L>(body: Body<B, L>, b: B, block: Block<B, L>)
    requires
        body.wf(),
        body.has(b),
        leaner(body.blocks[b].stmts, block.stmts),
    ensures
        sheds(body, body.set_block(b, block)),
        hosts(block.stmts) < hosts(body.blocks[b].stmts) ==> host_total(body.set_block(b, block))
            < host_total(body),
{
    lemma_total_set(any_tag(), body, b, block);
    let after = body.set_block(b, block);
    assert forall|reading: Reading| tidy(reading, body) implies #[trigger] tidy(reading, after) by {
        assert forall|x: B| #[trigger] after.has(x) implies tidy_stmts(
            reading,
            after.blocks[x].stmts,
        ) by {
            assert(body.has(x));
            if x == b {
                assert(tidy_stmts(reading, block.stmts));
            }
        }
    }
}

/// A block whose statements are shared out between it and a new block.
pub proof fn lemma_sheds_move<B, L>(
    body: Body<B, L>,
    b: B,
    kept_block: Block<B, L>,
    tail: B,
    tail_block: Block<B, L>,
)
    requires
        body.wf(),
        body.has(b),
        !body.has(tail),
        leaner(body.blocks[b].stmts, kept_block.stmts),
        leaner(body.blocks[b].stmts, tail_block.stmts),
        hosts(kept_block.stmts) + hosts(tail_block.stmts) <= hosts(body.blocks[b].stmts),
    ensures
        sheds(body, body.add_block(tail, tail_block).set_block(b, kept_block)),
{
    let mid = body.add_block(tail, tail_block);
    let after = mid.set_block(b, kept_block);
    crate::stackless::model::lemma_add_block_wf(body, tail, tail_block);
    lemma_total_add(any_tag(), body, tail, tail_block);
    lemma_total_set(any_tag(), mid, b, kept_block);
    assert forall|reading: Reading| tidy(reading, body) implies #[trigger] tidy(reading, after) by {
        assert forall|x: B| #[trigger] after.has(x) implies tidy_stmts(
            reading,
            after.blocks[x].stmts,
        ) by {
            assert(tidy_stmts(reading, body.blocks[b].stmts));
            assert(tidy_stmts(reading, kept_block.stmts));
            assert(tidy_stmts(reading, tail_block.stmts));
            if x != tail {
                assert(body.has(x));
            }
        }
    }
}

pub proof fn lemma_sheds_refl<B, L>(a: Body<B, L>)
    ensures
        sheds(a, a),
{
}

pub proof fn lemma_sheds_compose<B, L>(a: Body<B, L>, b: Body<B, L>, c: Body<B, L>)
    requires
        sheds(a, b),
        sheds(b, c),
    ensures
        sheds(a, c),
{
    assert forall|reading: Reading| tidy(reading, a) implies #[trigger] tidy(reading, c) by {
        assert(tidy(reading, b));
    }
}

/// Only the blocks and the listing count.
pub proof fn lemma_sheds_same<B, L>(a: Body<B, L>, b: Body<B, L>, c: Body<B, L>)
    requires
        sheds(a, b),
        b.order == c.order,
        b.blocks == c.blocks,
    ensures
        sheds(a, c),
{
    assert forall|reading: Reading| tidy(reading, a) implies #[trigger] tidy(reading, c) by {
        assert(tidy(reading, b));
        assert forall|x: B| #[trigger] c.has(x) implies tidy_stmts(reading, c.blocks[x].stmts) by {
            assert(b.has(x));
        }
    }
}

/// Ending a turn at a suspension point moves or erases statements, no more.
pub proof fn lemma_suspended_sheds<B: CfgId, L: CfgId>(
    before: Body<B, L>,
    after: Body<B, L>,
    point: (B, usize, SuspKind),
    state: i64,
    m: Machine<B, L>,
    entry: B,
)
    requires
        before.wf(),
        before.at((point.0, point.1)),
        suspended(before, after, point, state, m, entry),
    ensures
        sheds(before, after),
{
    let b = point.0;
    let i = point.1 as int;
    let whole = before.blocks[b];
    let y = after.order[before.order.len() as int];
    let yielding = before.add_block(y, m.yield_block(state));
    crate::stackless::model::lemma_add_block_wf(before, y, m.yield_block(state));
    lemma_sheds_add(before, y, m.yield_block(state));
    lemma_leaner_cut(whole.stmts, i);
    lemma_leaner_cut(whole.stmts, i + 1);
    match point.2 {
        SuspKind::Yield => {
            let rest = Block { stmts: whole.stmts.skip(i + 1), term: whole.term };
            let head = Block {
                stmts: whole.stmts.take(i).push(Stmt::Nop),
                term: crate::stackless::model::Term::Goto(y),
            };
            lemma_leaner_push(whole.stmts.take(i), Stmt::Nop);
            assert(whole.stmts.take(i + 1) =~= whole.stmts.take(i).push(whole.stmts[i]));
            lemma_tally_push(any_tag(), whole.stmts.take(i), whole.stmts[i]);
            lemma_sheds_move(yielding, b, head, entry, rest);
            lemma_sheds_compose(before, yielding, after);
        },
        SuspKind::ProducingSend => {
            let rest = Block { stmts: whole.stmts.skip(i + 1), term: whole.term };
            let head = Block {
                stmts: whole.stmts.take(i + 1),
                term: crate::stackless::model::Term::Goto(y),
            };
            lemma_sheds_move(yielding, b, head, entry, rest);
            lemma_sheds_compose(before, yielding, after);
        },
        SuspKind::GuardedRecv => {
            let r = after.order.last();
            let ready = after.blocks[entry].term->cond;
            let slot = Block {
                stmts: seq![Stmt::Peek { dest: ready }],
                term: crate::stackless::model::Term::Branch { cond: ready, yes: r, no: y },
            };
            let rest = Block { stmts: whole.stmts.skip(i), term: whole.term };
            lemma_hostless(slot.stmts);
            if i == 0 {
                let want = yielding.add_block(r, rest).set_block(b, slot);
                lemma_sheds_move(yielding, b, slot, r, rest);
                lemma_sheds_same(yielding, want, after);
                lemma_sheds_compose(before, yielding, after);
            } else {
                let head = Block {
                    stmts: whole.stmts.take(i),
                    term: crate::stackless::model::Term::Goto(entry),
                };
                let peeking = yielding.add_block(entry, slot);
                let want = peeking.add_block(r, rest).set_block(b, head);
                crate::stackless::model::lemma_add_block_wf(yielding, entry, slot);
                lemma_sheds_add(yielding, entry, slot);
                lemma_sheds_move(peeking, b, head, r, rest);
                lemma_sheds_same(peeking, want, after);
                lemma_sheds_compose(yielding, peeking, after);
                lemma_sheds_compose(before, yielding, after);
            }
        },
    }
}

} // verus!
