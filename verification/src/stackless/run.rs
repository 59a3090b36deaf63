//! What a body does when it runs: the meaning that the transform's laws speak of.
//!
//! The host's own statements work on a world that only the host sees; the statements
//! that the transform puts into a body work on locals of their own. Running is a
//! matter of steps from block to block.
use vstd::prelude::*;

use crate::stackless::model::{swap_target, Block, Body, Stmt, Term};

verus! {

/// What a running body remembers.
#[verifier::ext_equal]
#[verifier::reject_recursive_types(L)]
pub struct Memory<L> {
    /// The integer locals that have been assigned.
    pub ints: Map<L, i64>,
    /// The boolean locals that have been assigned.
    pub flags: Map<L, bool>,
    /// Everything that the host holds.
    pub world: int,
}

/// How the host's own parts of a body run.
#[verifier::reject_recursive_types(L)]
pub struct HostCode<L> {
    /// What a host statement makes of the world.
    pub acts: spec_fn(int, int) -> int,
    /// Whether a peek finds something.
    pub peeks: spec_fn(L, int) -> bool,
    /// What the host holds in a local of its own.
    pub int_held: spec_fn(L, int) -> i64,
    pub flag_held: spec_fn(L, int) -> bool,
    /// Which of its successors a host terminator takes.
    pub takes: spec_fn(int, int) -> int,
}

impl<L> HostCode<L> {
    pub open spec fn int_of(self, mem: Memory<L>, l: L) -> i64 {
        if mem.ints.contains_key(l) {
            mem.ints[l]
        } else {
            (self.int_held)(l, mem.world)
        }
    }

    pub open spec fn flag_of(self, mem: Memory<L>, l: L) -> bool {
        if mem.flags.contains_key(l) {
            mem.flags[l]
        } else {
            (self.flag_held)(l, mem.world)
        }
    }

    /// One statement.
    pub open spec fn after_stmt(self, s: Stmt<L>, mem: Memory<L>) -> Memory<L> {
        match s {
            Stmt::Host(tag) => Memory { world: (self.acts)(tag, mem.world), ..mem },
            Stmt::Peek { dest } => Memory {
                flags: mem.flags.insert(dest, (self.peeks)(dest, mem.world)),
                ..mem
            },
            Stmt::AssignI64 { local, value } => Memory {
                ints: mem.ints.insert(local, value),
                ..mem
            },
            Stmt::AssignBool { local, flag } => Memory {
                flags: mem.flags.insert(local, flag),
                ..mem
            },
            Stmt::EqCheckI64 { dest, lhs, rhs } => Memory {
                flags: mem.flags.insert(dest, self.int_of(mem, lhs) == rhs),
                ..mem
            },
            Stmt::Nop => mem,
        }
    }

    /// Statements, one after another.
    pub open spec fn after_stmts(self, stmts: Seq<Stmt<L>>, mem: Memory<L>) -> Memory<L>
        decreases stmts.len(),
    {
        if stmts.len() == 0 {
            mem
        } else {
            self.after_stmt(stmts.last(), self.after_stmts(stmts.drop_last(), mem))
        }
    }

    /// Where a terminator goes, if anywhere in the body.
    pub open spec fn goes<B>(self, term: Term<B, L>, mem: Memory<L>) -> Option<B> {
        match term {
            Term::Unset => None,
            Term::Goto(b) => Some(b),
            Term::Branch { cond, yes, no } => Some(
                if self.flag_of(mem, cond) {
                    yes
                } else {
                    no
                },
            ),
            Term::Switch { discr, targets, otherwise } => Some(
                arm(targets, self.int_of(mem, discr), otherwise),
            ),
            Term::Host { tag, succs } => {
                let i = (self.takes)(tag, mem.world);
                if 0 <= i < succs.len() {
                    Some(succs[i])
                } else {
                    None
                }
            },
        }
    }

    /// A block, from its first statement: what is remembered at its end, and where
    /// it goes.
    pub open spec fn through<B>(
        self,
        block: Block<B, L>,
        mem: Memory<L>,
    ) -> (Option<B>, Memory<L>) {
        let end = self.after_stmts(block.stmts, mem);
        (self.goes(block.term, end), end)
    }
}

/// The first arm for `value`, or else `otherwise`.
pub open spec fn arm<B>(targets: Seq<(i64, B)>, value: i64, otherwise: B) -> B
    decreases targets.len(),
{
    if targets.len() == 0 {
        otherwise
    } else if targets.first().0 == value {
        targets.first().1
    } else {
        arm(targets.drop_first(), value, otherwise)
    }
}

/// Running `body` from the start of a block comes to the start of another after `n`
/// blocks.
pub open spec fn arrives<B, L>(
    body: Body<B, L>,
    host: HostCode<L>,
    from: (B, Memory<L>),
    to: (B, Memory<L>),
    n: nat,
) -> bool
    decreases n,
{
    if n == 0 {
        from == to
    } else {
        let (b, mem) = host.through(body.blocks[from.0], from.1);
        b is Some && arrives(body, host, (b->0, mem), to, (n - 1) as nat)
    }
}

/// Running `body` from the start of a block comes to the start of another, having run
/// a block at least.
pub open spec fn leads<B, L>(
    body: Body<B, L>,
    host: HostCode<L>,
    from: (B, Memory<L>),
    to: (B, Memory<L>),
) -> bool {
    exists|n: nat| n > 0 && #[trigger] arrives(body, host, from, to, n)
}

pub proof fn lemma_arrives_join<B, L>(
    body: Body<B, L>,
    host: HostCode<L>,
    a: (B, Memory<L>),
    b: (B, Memory<L>),
    c: (B, Memory<L>),
    n: nat,
    m: nat,
)
    requires
        arrives(body, host, a, b, n),
        arrives(body, host, b, c, m),
    ensures
        arrives(body, host, a, c, n + m),
    decreases n,
{
    if n > 0 {
        let (x, mem) = host.through(body.blocks[a.0], a.1);
        lemma_arrives_join(body, host, (x->0, mem), b, c, (n - 1) as nat, m);
    }
}

pub proof fn lemma_leads_join<B, L>(
    body: Body<B, L>,
    host: HostCode<L>,
    a: (B, Memory<L>),
    b: (B, Memory<L>),
    c: (B, Memory<L>),
)
    requires
        leads(body, host, a, b),
        leads(body, host, b, c),
    ensures
        leads(body, host, a, c),
{
    let n = choose|n: nat| n > 0 && #[trigger] arrives(body, host, a, b, n);
    let m = choose|m: nat| m > 0 && #[trigger] arrives(body, host, b, c, m);
    lemma_arrives_join(body, host, a, b, c, n, m);
}

/// One block.
pub proof fn lemma_leads_step<B, L>(
    body: Body<B, L>,
    host: HostCode<L>,
    from: (B, Memory<L>),
    to: (B, Memory<L>),
)
    requires
        host.through(body.blocks[from.0], from.1) == (Some(to.0), to.1),
    ensures
        leads(body, host, from, to),
{
    assert(arrives(body, host, to, to, 0));
    assert(arrives(body, host, from, to, 1));
}

/// A block that has no statement, or one, or two.
pub proof fn lemma_few_stmts<L>(host: HostCode<L>, stmts: Seq<Stmt<L>>, mem: Memory<L>)
    ensures
        stmts.len() == 0 ==> host.after_stmts(stmts, mem) == mem,
        stmts.len() == 1 ==> host.after_stmts(stmts, mem) == host.after_stmt(stmts[0], mem),
        stmts.len() == 2 ==> host.after_stmts(stmts, mem) == host.after_stmt(
            stmts[1],
            host.after_stmt(stmts[0], mem),
        ),
{
    if stmts.len() == 1 {
        assert(stmts.drop_last().len() == 0);
        assert(host.after_stmts(stmts.drop_last(), mem) == mem);
    }
    if stmts.len() == 2 {
        let one = stmts.drop_last();
        assert(one.drop_last().len() == 0);
        assert(host.after_stmts(one.drop_last(), mem) == mem);
        assert(one.last() == stmts[0]);
        assert(host.after_stmts(one, mem) == host.after_stmt(stmts[0], mem));
        assert(stmts.last() == stmts[1]);
    }
}

/// Statements can be run in two goes.
pub proof fn lemma_stmts_join<L>(
    host: HostCode<L>,
    a: Seq<Stmt<L>>,
    b: Seq<Stmt<L>>,
    mem: Memory<L>,
)
    ensures
        host.after_stmts(a + b, mem) == host.after_stmts(b, host.after_stmts(a, mem)),
    decreases b.len(),
{
    if b.len() == 0 {
        assert(a + b =~= a);
    } else {
        lemma_stmts_join(host, a, b.drop_last(), mem);
        assert((a + b).drop_last() =~= a + b.drop_last());
        assert((a + b).last() == b.last());
    }
}

/// Two runs of statements that differ only in such as do nothing come out the same.
pub proof fn lemma_same_effect<L>(
    host: HostCode<L>,
    a: Seq<Stmt<L>>,
    b: Seq<Stmt<L>>,
    mem: Memory<L>,
)
    requires
        a.len() == b.len(),
        forall|i: int, x: Memory<L>|
            0 <= i < a.len() ==> #[trigger] host.after_stmt(a[i], x) == host.after_stmt(b[i], x),
    ensures
        host.after_stmts(a, mem) == host.after_stmts(b, mem),
    decreases a.len(),
{
    if a.len() > 0 {
        let n = a.len() - 1;
        assert forall|i: int, x: Memory<L>| 0 <= i < n implies #[trigger] host.after_stmt(
            a.drop_last()[i],
            x,
        ) == host.after_stmt(b.drop_last()[i], x) by {
            assert(host.after_stmt(a[i], x) == host.after_stmt(b[i], x));
        }
        lemma_same_effect(host, a.drop_last(), b.drop_last(), mem);
        let x = host.after_stmts(a.drop_last(), mem);
        assert(host.after_stmt(a[n], x) == host.after_stmt(b[n], x));
    }
}

proof fn lemma_arm_redirected<B>(targets: Seq<(i64, B)>, value: i64, otherwise: B, from: B, to: B)
    ensures
        arm(
            Seq::new(
                targets.len(),
                |i: int| (targets[i].0, swap_target(targets[i].1, from, to)),
            ),
            value,
            swap_target(otherwise, from, to),
        ) == swap_target(arm(targets, value, otherwise), from, to),
    decreases targets.len(),
{
    let moved = Seq::new(
        targets.len(),
        |i: int| (targets[i].0, swap_target(targets[i].1, from, to)),
    );
    if targets.len() > 0 {
        let rest = targets.drop_first();
        lemma_arm_redirected(rest, value, otherwise, from, to);
        assert(moved.drop_first() =~= Seq::new(
            rest.len(),
            |i: int| (rest[i].0, swap_target(rest[i].1, from, to)),
        ));
    }
}

/// A terminator that has been redirected goes where it went, but to `to` where it
/// went to `from`.
pub proof fn law_a_redirected_terminator_goes_elsewhere<B, L>(
    host: HostCode<L>,
    term: Term<B, L>,
    from: B,
    to: B,
    mem: Memory<L>,
)
    ensures
        host.goes(term.redirected(from, to), mem) == match host.goes(term, mem) {
            Some(b) => Some(
                if b == from {
                    to
                } else {
                    b
                },
            ),
            None => None,
        },
{
    match term {
        Term::Switch { discr, targets, otherwise } => {
            lemma_arm_redirected(targets, host.int_of(mem, discr), otherwise, from, to);
        },
        _ => {},
    }
}

} // verus!
