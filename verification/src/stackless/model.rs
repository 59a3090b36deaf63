//! The mathematical model of a function body: what the CFG traits are specified
//! over, and what the transform's contracts speak of.
use vstd::prelude::*;

use crate::vocab::{id_before, CfgId};

verus! {

/// A statement. The host's own statements are opaque: each is known by a tag.
/// The other forms are those the transform itself puts into a body.
pub enum Stmt<L> {
    /// A statement the host wrote, known by an opaque tag.
    Host(int),
    /// `dest = is_ready(..)`, what a guarded recv leaves at its slot.
    Peek { dest: L },
    /// `local = value`.
    AssignI64 { local: L, value: i64 },
    /// `local = flag`.
    AssignBool { local: L, flag: bool },
    /// `dest = (lhs == rhs)`.
    EqCheckI64 { dest: L, lhs: L, rhs: i64 },
    /// No operation: what an erased marker becomes.
    Nop,
}

/// How a block ends.
#[verifier::ext_equal]
pub enum Term<B, L> {
    /// The host's "unreachable" or equivalent: no terminator set yet.
    Unset,
    Goto(B),
    Branch { cond: L, yes: B, no: B },
    Switch { discr: L, targets: Seq<(i64, B)>, otherwise: B },
    /// A terminator of the host's own (return, call, ..) with its successors.
    Host { tag: int, succs: Seq<B> },
}

#[verifier::ext_equal]
pub struct Block<B, L> {
    pub stmts: Seq<Stmt<L>>,
    pub term: Term<B, L>,
}

/// What a local was allocated as.
pub enum LocalKind {
    I64Mut,
    Bool,
    BoolMut,
    /// A local the host allocated for itself.
    Host,
}

/// A function body: its blocks in the order they are listed, what each holds,
/// and its locals in the order they were allocated.
#[verifier::ext_equal]
#[verifier::reject_recursive_types(B)]
pub struct Body<B, L> {
    pub order: Seq<B>,
    pub blocks: Map<B, Block<B, L>>,
    pub locals: Seq<(L, LocalKind)>,
}

pub open spec fn swap_target<B>(b: B, from: B, to: B) -> B {
    if b == from {
        to
    } else {
        b
    }
}

impl<B, L> Term<B, L> {
    /// The terminator with every reference to `from` pointing to `to`.
    pub open spec fn redirected(self, from: B, to: B) -> Term<B, L> {
        match self {
            Term::Unset => Term::Unset,
            Term::Goto(b) => Term::Goto(swap_target(b, from, to)),
            Term::Branch { cond, yes, no } => Term::Branch {
                cond,
                yes: swap_target(yes, from, to),
                no: swap_target(no, from, to),
            },
            Term::Switch { discr, targets, otherwise } => Term::Switch {
                discr,
                targets: Seq::new(
                    targets.len(),
                    |i: int| (targets[i].0, swap_target(targets[i].1, from, to)),
                ),
                otherwise: swap_target(otherwise, from, to),
            },
            Term::Host { tag, succs } => Term::Host {
                tag,
                succs: Seq::new(succs.len(), |i: int| swap_target(succs[i], from, to)),
            },
        }
    }
}

impl<B, L> Block<B, L> {
    /// A fresh block: no statement, no terminator.
    pub open spec fn blank() -> Block<B, L> {
        Block::bare(Term::Unset)
    }

    /// A block without statements.
    pub open spec fn bare(term: Term<B, L>) -> Block<B, L> {
        Block { stmts: Seq::empty(), term }
    }

    pub open spec fn ending(self, term: Term<B, L>) -> Block<B, L> {
        Block { stmts: self.stmts, term }
    }
}

impl<B, L> Body<B, L> {
    /// A body without blocks and without locals.
    pub open spec fn empty() -> Self {
        Body { order: Seq::empty(), blocks: Map::empty(), locals: Seq::empty() }
    }

    pub open spec fn has(self, b: B) -> bool {
        self.blocks.contains_key(b)
    }

    /// `(b, i)` is the place of a statement.
    pub open spec fn at(self, pos: (B, usize)) -> bool {
        self.has(pos.0) && pos.1 < self.blocks[pos.0].stmts.len()
    }

    pub open spec fn stmt(self, pos: (B, usize)) -> Stmt<L> {
        self.blocks[pos.0].stmts[pos.1 as int]
    }

    pub open spec fn has_local(self, l: L) -> bool {
        exists|i: int| 0 <= i < self.locals.len() && (#[trigger] self.locals[i]).0 == l
    }

    /// Every block is listed once, and nothing else is.
    pub open spec fn wf(self) -> bool {
        &&& self.order.no_duplicates()
        &&& forall|b: B| #[trigger] self.order.contains(b) <==> self.has(b)
    }

    /// The body with one more block, listed last.
    pub open spec fn add_block(self, b: B, block: Block<B, L>) -> Body<B, L> {
        Body {
            order: self.order.push(b),
            blocks: self.blocks.insert(b, block),
            locals: self.locals,
        }
    }

    pub open spec fn with_block(self, b: B) -> Body<B, L> {
        self.add_block(b, Block::blank())
    }

    pub open spec fn with_local(self, l: L, kind: LocalKind) -> Body<B, L> {
        Body { order: self.order, blocks: self.blocks, locals: self.locals.push((l, kind)) }
    }

    pub open spec fn set_block(self, b: B, block: Block<B, L>) -> Body<B, L> {
        Body { order: self.order, blocks: self.blocks.insert(b, block), locals: self.locals }
    }

    pub open spec fn set_stmts(self, b: B, stmts: Seq<Stmt<L>>) -> Body<B, L> {
        self.set_block(b, Block { stmts, term: self.blocks[b].term })
    }

    pub open spec fn append(self, b: B, s: Stmt<L>) -> Body<B, L> {
        self.set_stmts(b, self.blocks[b].stmts.push(s))
    }

    pub open spec fn prepend(self, b: B, s: Stmt<L>) -> Body<B, L> {
        self.set_stmts(b, seq![s] + self.blocks[b].stmts)
    }

    pub open spec fn erase(self, pos: (B, usize)) -> Body<B, L> {
        self.set_stmts(pos.0, self.blocks[pos.0].stmts.update(pos.1 as int, Stmt::Nop))
    }

    pub open spec fn end_with(self, b: B, term: Term<B, L>) -> Body<B, L> {
        self.set_block(b, self.blocks[b].ending(term))
    }

    /// `b` keeps its statements through index `i` and loses its terminator; the
    /// new block `tail` gets the rest and the terminator.
    pub open spec fn split(self, b: B, i: int, tail: B) -> Body<B, L> {
        let whole = self.blocks[b];
        self.add_block(
            tail,
            Block { stmts: whole.stmts.skip(i + 1), term: whole.term },
        ).set_block(b, Block { stmts: whole.stmts.take(i + 1), term: Term::Unset })
    }
}

/// The listing follows the order of the handles.
pub open spec fn in_id_order<B: CfgId>(order: Seq<B>) -> bool {
    forall|i: int, j: int| 0 <= i < j < order.len() ==> id_before(#[trigger] order[i], #[trigger] order[j])
}

pub proof fn lemma_add_block_wf<B, L>(body: Body<B, L>, b: B, block: Block<B, L>)
    requires
        body.wf(),
        !body.has(b),
    ensures
        body.add_block(b, block).wf(),
{
    let after = body.add_block(b, block);
    assert(!body.order.contains(b));
    assert forall|x: B| #[trigger] after.order.contains(x) <==> after.has(x) by {
        if body.order.contains(x) {
            let k = body.order.index_of(x);
            assert(after.order[k] == x);
        }
        assert(after.order[body.order.len() as int] == b);
        if after.order.contains(x) && x != b {
            let k = after.order.index_of(x);
            assert(body.order[k] == x);
        }
    }
}

pub proof fn lemma_set_block_wf<B, L>(body: Body<B, L>, b: B, block: Block<B, L>)
    requires
        body.wf(),
        body.has(b),
    ensures
        body.set_block(b, block).wf(),
{
    let after = body.set_block(b, block);
    assert forall|x: B| #[trigger] after.order.contains(x) <==> after.has(x) by {
        assert(body.order.contains(x) <==> body.has(x));
    }
}

} // verus!
