//! Counting the host's own statements.
use vstd::prelude::*;

use crate::stackless::model::{Block, Body, Stmt};

verus! {

/// A choice among the host's statements, by their tags.
pub type Tags = spec_fn(int) -> bool;

/// Every statement of the host's.
pub open spec fn any_tag() -> Tags {
    |tag: int| true
}

/// The host's statements with one tag.
pub open spec fn only(tag: int) -> Tags {
    |t: int| t == tag
}

/// The statement is one of the host's that are chosen.
pub open spec fn counts<L>(p: Tags, s: Stmt<L>) -> bool {
    match s {
        Stmt::Host(tag) => p(tag),
        _ => false,
    }
}

/// How many of the statements are chosen.
pub open spec fn tally<L>(p: Tags, stmts: Seq<Stmt<L>>) -> nat
    decreases stmts.len(),
{
    if stmts.len() == 0 {
        0
    } else {
        tally(p, stmts.drop_last()) + if counts(p, stmts.last()) {
            1nat
        } else {
            0
        }
    }
}

pub open spec fn tally_sum<B, L>(p: Tags, blocks: Map<B, Block<B, L>>, listing: Seq<B>) -> nat
    decreases listing.len(),
{
    if listing.len() == 0 {
        0
    } else {
        tally_sum(p, blocks, listing.drop_last()) + tally(p, blocks[listing.last()].stmts)
    }
}

/// How many statements of the body are chosen.
pub open spec fn tally_body<B, L>(p: Tags, body: Body<B, L>) -> nat {
    tally_sum(p, body.blocks, body.order)
}

pub proof fn lemma_tally_add<L>(p: Tags, s: Seq<Stmt<L>>, t: Seq<Stmt<L>>)
    ensures
        tally(p, s + t) == tally(p, s) + tally(p, t),
    decreases t.len(),
{
    if t.len() == 0 {
        assert(s + t =~= s);
    } else {
        assert((s + t).drop_last() =~= s + t.drop_last());
        lemma_tally_add(p, s, t.drop_last());
    }
}

pub proof fn lemma_tally_push<L>(p: Tags, s: Seq<Stmt<L>>, x: Stmt<L>)
    ensures
        tally(p, s.push(x)) == tally(p, s) + if counts(p, x) {
            1nat
        } else {
            0
        },
{
    assert(s.push(x).drop_last() =~= s);
}

/// Cutting a block in two keeps what it holds.
pub proof fn lemma_tally_cut<L>(p: Tags, s: Seq<Stmt<L>>, i: int)
    requires
        0 <= i <= s.len(),
    ensures
        tally(p, s.take(i)) + tally(p, s.skip(i)) == tally(p, s),
{
    assert(s.take(i) + s.skip(i) =~= s);
    lemma_tally_add(p, s.take(i), s.skip(i));
}

pub proof fn lemma_tally_update<L>(p: Tags, s: Seq<Stmt<L>>, i: int, x: Stmt<L>)
    requires
        0 <= i < s.len(),
    ensures
        tally(p, s.update(i, x)) + (if counts(p, s[i]) {
            1nat
        } else {
            0
        }) == tally(p, s) + (if counts(p, x) {
            1nat
        } else {
            0
        }),
{
    lemma_tally_cut(p, s, i);
    lemma_tally_cut(p, s, i + 1);
    let t = s.update(i, x);
    lemma_tally_cut(p, t, i + 1);
    assert(t.skip(i + 1) =~= s.skip(i + 1));
    assert(t.take(i + 1) =~= s.take(i).push(x));
    assert(s.take(i + 1) =~= s.take(i).push(s[i]));
    lemma_tally_push(p, s.take(i), x);
    lemma_tally_push(p, s.take(i), s[i]);
}

proof fn lemma_sum_elsewhere<B, L>(
    p: Tags,
    blocks: Map<B, Block<B, L>>,
    listing: Seq<B>,
    b: B,
    block: Block<B, L>,
)
    requires
        !listing.contains(b),
    ensures
        tally_sum(p, blocks.insert(b, block), listing) == tally_sum(p, blocks, listing),
    decreases listing.len(),
{
    if listing.len() > 0 {
        assert(listing[listing.len() - 1] == listing.last());
        assert forall|x: B| listing.drop_last().contains(x) implies listing.contains(x) by {
            let k = listing.drop_last().index_of(x);
            assert(listing[k] == x);
        }
        lemma_sum_elsewhere(p, blocks, listing.drop_last(), b, block);
    }
}

proof fn lemma_sum_set<B, L>(
    p: Tags,
    blocks: Map<B, Block<B, L>>,
    listing: Seq<B>,
    b: B,
    block: Block<B, L>,
)
    requires
        listing.no_duplicates(),
        listing.contains(b),
    ensures
        tally_sum(p, blocks.insert(b, block), listing) + tally(p, blocks[b].stmts) == tally_sum(
            p,
            blocks,
            listing,
        ) + tally(p, block.stmts),
    decreases listing.len(),
{
    let front = listing.drop_last();
    assert(front.no_duplicates()) by {
        assert forall|i: int, j: int| 0 <= i < front.len() && 0 <= j < front.len() && i != j implies front[i]
            != front[j] by {
            assert(front[i] == listing[i] && front[j] == listing[j]);
        }
    }
    if listing.last() == b {
        assert(!front.contains(b)) by {
            if front.contains(b) {
                let k = front.index_of(b);
                assert(listing[k] == b && listing[listing.len() - 1] == b);
            }
        }
        lemma_sum_elsewhere(p, blocks, front, b, block);
    } else {
        let k = listing.index_of(b);
        assert(front[k] == b);
        lemma_sum_set(p, blocks, front, b, block);
    }
}

/// A new block adds what it holds.
pub proof fn lemma_total_add<B, L>(p: Tags, body: Body<B, L>, b: B, block: Block<B, L>)
    requires
        body.wf(),
        !body.has(b),
    ensures
        tally_body(p, body.add_block(b, block)) == tally_body(p, body) + tally(p, block.stmts),
{
    let after = body.add_block(b, block);
    assert(after.order.drop_last() =~= body.order);
    assert(!body.order.contains(b));
    lemma_sum_elsewhere(p, body.blocks, body.order, b, block);
}

/// Replacing a block exchanges what it holds.
pub proof fn lemma_total_set<B, L>(p: Tags, body: Body<B, L>, b: B, block: Block<B, L>)
    requires
        body.wf(),
        body.has(b),
    ensures
        tally_body(p, body.set_block(b, block)) + tally(p, body.blocks[b].stmts) == tally_body(p, body)
            + tally(p, block.stmts),
{
    assert(body.order.contains(b));
    lemma_sum_set(p, body.blocks, body.order, b, block);
}

} // verus!
