//! What a host compiler plugs in: read and write access to a function body, and
//! the knowledge of its own IR that the transform cannot have.
use vstd::prelude::*;

use crate::stackless::model::{in_id_order, Body, LocalKind, Stmt, Term};
pub use crate::vocab::{CfgId, Marker};

verus! {

/// The body the transform operates on.
pub trait CoroCfg {
    type BlockId: CfgId;

    type LocalId: CfgId;

    /// What the body is. Only a verified host has to say.
    open spec fn body(&self) -> Body<Self::BlockId, Self::LocalId> {
        Body::empty()
    }

    /// How many blocks does this body have?
    fn block_count(&self) -> (n: usize)
        ensures
            n == self.body().order.len(),
    ;

    /// How many statements live in `bb`?
    fn statement_count(&self, bb: Self::BlockId) -> (n: usize)
        requires
            self.body().has(bb),
        ensures
            n == self.body().blocks[bb].stmts.len(),
    ;

    /// The block ids, in order.
    fn block_ids(&self) -> (ids: Vec<Self::BlockId>)
        ensures
            ids@ == self.body().order,
    ;

    /// Allocate a fresh empty block. Fresh ids come after all the others, so a
    /// listing in id order stays in id order.
    fn new_block(&mut self) -> (bb: Self::BlockId)
        requires
            old(self).body().wf(),
        ensures
            !old(self).body().has(bb),
            final(self).body() == old(self).body().with_block(bb),
            in_id_order(old(self).body().order) ==> in_id_order(final(self).body().order),
    ;

    /// Allocate a fresh i64-typed mutable local.
    fn new_state_local(&mut self) -> (local: Self::LocalId)
        ensures
            !old(self).body().has_local(local),
            final(self).body() == old(self).body().with_local(local, LocalKind::I64Mut),
    ;

    /// Allocate a fresh bool-typed (immutable) local.
    fn new_bool_local(&mut self) -> (local: Self::LocalId)
        ensures
            !old(self).body().has_local(local),
            final(self).body() == old(self).body().with_local(local, LocalKind::Bool),
    ;

    /// Allocate a fresh bool-typed mutable local.
    fn new_mut_bool_local(&mut self) -> (local: Self::LocalId)
        ensures
            !old(self).body().has_local(local),
            final(self).body() == old(self).body().with_local(local, LocalKind::BoolMut),
    ;

    /// Append `local = value` to `bb`.
    fn emit_assign_i64(&mut self, bb: Self::BlockId, local: Self::LocalId, value: i64)
        requires
            old(self).body().has(bb),
        ensures
            final(self).body() == old(self).body().append(bb, Stmt::AssignI64 { local, value }),
    ;

    /// Append `local = value` to `bb`.
    fn emit_assign_bool(&mut self, bb: Self::BlockId, local: Self::LocalId, value: bool)
        requires
            old(self).body().has(bb),
        ensures
            final(self).body() == old(self).body().append(bb, Stmt::AssignBool { local, flag: value }),
    ;

    /// Append `dest = (lhs == rhs)` to `bb`.
    fn emit_eq_check_i64(
        &mut self,
        bb: Self::BlockId,
        dest: Self::LocalId,
        lhs: Self::LocalId,
        rhs: i64,
    )
        requires
            old(self).body().has(bb),
        ensures
            final(self).body() == old(self).body().append(bb, Stmt::EqCheckI64 { dest, lhs, rhs }),
    ;

    /// Replace the statement at `(bb, idx)` with a no-op.
    fn replace_with_nop(&mut self, bb: Self::BlockId, idx: usize)
        requires
            old(self).body().at((bb, idx)),
        ensures
            final(self).body() == old(self).body().erase((bb, idx)),
    ;

    /// Move every statement after `idx` from `src` into a fresh block, along
    /// with `src`'s terminator. `src` then ends at `idx` with no terminator set.
    fn split_after(&mut self, src: Self::BlockId, idx: usize) -> (tail: Self::BlockId)
        requires
            old(self).body().wf(),
            old(self).body().at((src, idx)),
        ensures
            !old(self).body().has(tail),
            final(self).body() == old(self).body().split(src, idx as int, tail),
            in_id_order(old(self).body().order) ==> in_id_order(final(self).body().order),
    ;

    /// Insert `local = value` at the front of `bb`.
    fn prepend_assign_i64(&mut self, bb: Self::BlockId, local: Self::LocalId, value: i64)
        requires
            old(self).body().has(bb),
        ensures
            final(self).body() == old(self).body().prepend(bb, Stmt::AssignI64 { local, value }),
    ;

    /// Set `bb`'s terminator to `goto target`.
    fn set_goto(&mut self, bb: Self::BlockId, target: Self::BlockId)
        requires
            old(self).body().has(bb),
        ensures
            final(self).body() == old(self).body().end_with(bb, Term::Goto(target)),
    ;

    /// Set `bb`'s terminator to a two-way branch on `cond`.
    fn set_branch(
        &mut self,
        bb: Self::BlockId,
        cond: Self::LocalId,
        true_bb: Self::BlockId,
        false_bb: Self::BlockId,
    )
        requires
            old(self).body().has(bb),
        ensures
            final(self).body() == old(self).body().end_with(
                bb,
                Term::Branch { cond, yes: true_bb, no: false_bb },
            ),
    ;

    /// Set `bb`'s terminator to a switch on `discr` with the given
    /// `(value, target)` pairs and an `otherwise` fallthrough.
    fn set_switch(
        &mut self,
        bb: Self::BlockId,
        discr: Self::LocalId,
        targets: Vec<(i64, Self::BlockId)>,
        otherwise: Self::BlockId,
    )
        requires
            old(self).body().has(bb),
        ensures
            final(self).body() == old(self).body().end_with(
                bb,
                Term::Switch { discr, targets: targets@, otherwise },
            ),
    ;

    /// Within `bb`'s terminator, rewrite every reference to `from` so it points
    /// to `to`.
    fn redirect_targets(&mut self, bb: Self::BlockId, from: Self::BlockId, to: Self::BlockId)
        requires
            old(self).body().has(bb),
        ensures
            final(self).body() == old(self).body().end_with(
                bb,
                old(self).body().blocks[bb].term.redirected(from, to),
            ),
    ;
}

/// The marker category of a statement, under a host's reading of its own tags.
/// What the transform itself emits is never a marker.
pub open spec fn mark_of<L>(reading: spec_fn(int) -> Option<Marker>, s: Stmt<L>) -> Option<Marker> {
    match s {
        Stmt::Host(tag) => reading(tag),
        _ => None,
    }
}

/// What a guarded recv becomes: the slot at `(bb, idx)` holds the peek into
/// `dest`, and the recv that was there stands first in `resume_bb`.
pub open spec fn recv_moved<B, L>(
    before: Body<B, L>,
    after: Body<B, L>,
    bb: B,
    idx: usize,
    resume_bb: B,
    dest: L,
) -> bool {
    &&& after.order == before.order
    &&& after.locals.len() >= before.locals.len()
    &&& after.locals.take(before.locals.len() as int) == before.locals
    &&& after.blocks == before.set_stmts(
        bb,
        before.blocks[bb].stmts.update(idx as int, Stmt::Peek { dest }),
    ).prepend(resume_bb, before.stmt((bb, idx))).blocks
}

/// Consumer-side hooks the algorithm cannot perform on its own.
pub trait CoroHooks {
    type Cfg: CoroCfg;

    /// How the host reads the tags of its own statements. Only a verified host has
    /// to say.
    open spec fn reading(&self) -> spec_fn(int) -> Option<Marker> {
        |tag: int| None
    }

    /// Classify the statement at `(bb, idx)` as one of the marker categories, or
    /// `None` if it is a regular statement.
    fn classify_marker(
        &self,
        cfg: &Self::Cfg,
        bb: <Self::Cfg as CoroCfg>::BlockId,
        idx: usize,
    ) -> (mark: Option<Marker>)
        requires
            cfg.body().at((bb, idx)),
        ensures
            mark == mark_of(self.reading(), cfg.body().stmt((bb, idx))),
    ;

    /// At a guarded-recv slot, emit the peek and hand back its bool local. The
    /// block has already been split after `idx`; the recv moves to the front of
    /// `resume_bb`, and the slot becomes the peek.
    fn emit_guarded_recv_peek(
        &mut self,
        cfg: &mut Self::Cfg,
        bb: <Self::Cfg as CoroCfg>::BlockId,
        idx: usize,
        resume_bb: <Self::Cfg as CoroCfg>::BlockId,
    ) -> (is_ready: <Self::Cfg as CoroCfg>::LocalId)
        requires
            old(cfg).body().at((bb, idx)),
            old(cfg).body().has(resume_bb),
            bb != resume_bb,
            mark_of(old(self).reading(), old(cfg).body().stmt((bb, idx))) == Some(
                Marker::GuardedRecv,
            ),
        ensures
            final(self).reading() == old(self).reading(),
            recv_moved(old(cfg).body(), final(cfg).body(), bb, idx, resume_bb, is_ready),
    ;
}

} // verus!
