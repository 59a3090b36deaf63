//! A region as a whole: each of its coroutines gets a machine of its own, and no
//! machine is in another's way.
use vstd::prelude::*;

use crate::stackless::cfg::CoroCfg;
use crate::stackless::executor::{
    cooperative_loop, waker_pass, CooperativeExecutor, Executor, WakerExecutor,
};
use crate::stackless::laws::region_touches;
use crate::stackless::machine::{
    arms, lemma_suspended_all_keeps, machine_built, machine_opened, plain_machine, suspended,
    suspended_all, switch_machine, touched, Machine, DONE_STATE,
};
use crate::stackless::model::{in_id_order, Body, LocalKind, Term};
use crate::stackless::passes::machines_apart;
use crate::stackless::placement::{fits, lemma_points_ok, marked, region_ok, tidy};
use crate::stackless::scan::{
    points_of, regions_of, Coroutine, Reading, RegionView, SuspKind,
};
use crate::stackless::transform::{
    is_next, lemma_disjoint, lemma_points_apart, lemma_two_marks, machines_built,
    region_rewritten, regions_rewritten,
};
use crate::stackless::turns::points_placed;
use crate::vocab::{lawful_ids, CfgId, Marker};

verus! {

/// No local is lost.
spec fn locals_kept<B, L>(before: Body<B, L>, after: Body<B, L>) -> bool {
    forall|l: L| #[trigger] before.has_local(l) ==> after.has_local(l)
}

proof fn lemma_longer_locals<B, L>(before: Body<B, L>, after: Body<B, L>)
    requires
        after.locals.len() >= before.locals.len(),
        forall|i: int| 0 <= i < before.locals.len() ==> after.locals[i] == before.locals[i],
    ensures
        locals_kept(before, after),
{
    assert forall|l: L| #[trigger] before.has_local(l) implies after.has_local(l) by {
        let i = choose|i: int| 0 <= i < before.locals.len() && (#[trigger] before.locals[i]).0 == l;
        assert(after.locals[i].0 == l);
    }
}

proof fn lemma_suspended_locals<B: CfgId, L: CfgId>(
    before: Body<B, L>,
    after: Body<B, L>,
    points: Seq<(B, usize, SuspKind)>,
    n: nat,
    m: Machine<B, L>,
    entries: Seq<B>,
)
    requires
        suspended_all(before, after, points, n, m, entries),
    ensures
        locals_kept(before, after),
    decreases n,
{
    if n > 0 {
        let mid = choose|mid: Body<B, L>|
            suspended_all(before, mid, points, (n - 1) as nat, m, entries) && #[trigger] suspended(
                mid,
                after,
                points[n - 1],
                n as i64,
                m,
                entries[n as int],
            );
        lemma_suspended_locals(before, mid, points, (n - 1) as nat, m, entries);
        assert forall|i: int| 0 <= i < mid.locals.len() implies after.locals[i]
            == mid.locals[i] by {
            if points[n - 1].2 is GuardedRecv {
                assert(after.locals.take(mid.locals.len() as int)[i] == mid.locals[i]);
            }
        }
        lemma_longer_locals(mid, after);
    }
}

/// The locals and the blocks of a machine are new, and but for the blocks that its
/// coroutine suspends in and ends in, nothing that was there has changed.
pub open spec fn machine_is_new<B: CfgId, L: CfgId>(
    before: Body<B, L>,
    after: Body<B, L>,
    c: Coroutine<B>,
    points: Seq<(B, usize, SuspKind)>,
    m: Machine<B, L>,
) -> bool {
    &&& !before.has_local(m.state_local)
    &&& !before.has_local(m.poll_result_local)
    &&& m.state_local != m.poll_result_local
    &&& after.has_local(m.state_local)
    &&& after.has_local(m.poll_result_local)
    &&& forall|l: L| #[trigger] before.has_local(l) ==> after.has_local(l)
    &&& !before.has(m.dispatch_bb)
    &&& !before.has(m.exit_bb)
    &&& m.dispatch_bb != m.exit_bb
    &&& after.has(m.dispatch_bb)
    &&& after.has(m.exit_bb)
    &&& after.blocks[m.exit_bb].stmts.len() == 0
    &&& forall|b: B| #[trigger]
        before.has(b) ==> after.has(b) && (!touched(c, points, b) ==> after.blocks[b]
            == before.blocks[b])
}

/// A coroutine is rewritten into a machine that is new, and beside the blocks of its
/// own nothing changes.
pub proof fn law_a_machine_is_new<B: CfgId, L: CfgId>(
    before: Body<B, L>,
    after: Body<B, L>,
    c: Coroutine<B>,
    points: Seq<(B, usize, SuspKind)>,
    m: Machine<B, L>,
)
    requires
        machine_built(before, after, c, points, m),
        before.has(c.end.0),
        forall|k: int| 0 <= k < points.len() ==> before.has((#[trigger] points[k]).0),
    ensures
        machine_is_new(before, after, c, points, m),
{
    let opened = choose|mid: Body<B, L>| #[trigger]
        machine_opened(before, mid, m) && if points.len() == 0 {
            plain_machine(mid, after, c, m)
        } else {
            switch_machine(mid, after, c, points, m)
        };
    let one = before.with_local(m.state_local, LocalKind::I64Mut);
    let two = one.with_local(m.poll_result_local, LocalKind::I64Mut);
    lemma_longer_locals(before, one);
    lemma_longer_locals(one, opened);
    assert(one.locals[before.locals.len() as int].0 == m.state_local);
    assert(one.has_local(m.state_local));
    assert(opened.locals[one.locals.len() as int].0 == m.poll_result_local);
    assert(opened.has_local(m.poll_result_local));
    assert(opened.has_local(m.state_local));
    assert(opened.has(m.exit_bb) && opened.blocks[m.exit_bb].stmts.len() == 0);
    if points.len() == 0 {
        lemma_longer_locals(opened, after);
        assert(opened.has(m.dispatch_bb));
        assert(after.has(m.exit_bb) && after.blocks[m.exit_bb] == opened.blocks[m.exit_bb]);
    } else {
        let (mid, entries) = choose|mid: Body<B, L>, entries: Seq<B>|
            #![trigger suspended_all(opened, mid, points, points.len(), m, entries)]
            {
                let d = after.order.last();
                &&& entries.len() == points.len() + 1
                &&& entries[0] == c.begin.0
                &&& suspended_all(opened, mid, points, points.len(), m, entries)
                &&& !mid.has(d)
                &&& after == mid.add_block(d, m.done_block()).end_with(
                    c.end.0,
                    Term::Goto(d),
                ).end_with(
                    m.dispatch_bb,
                    Term::Switch {
                        discr: m.state_local,
                        targets: arms(entries),
                        otherwise: m.exit_bb,
                    },
                )
            };
        assert forall|k: int| 0 <= k < points.len() implies opened.has(
            (#[trigger] points[k]).0,
        ) by {
            assert(before.has(points[k].0));
        }
        lemma_suspended_all_keeps(opened, mid, points, points.len(), m, entries);
        lemma_suspended_locals(opened, mid, points, points.len(), m, entries);
        lemma_longer_locals(mid, after);
        assert(opened.has(m.dispatch_bb));
        assert(mid.has(m.dispatch_bb) && mid.has(m.exit_bb));
        assert(mid.has_local(m.state_local) && mid.has_local(m.poll_result_local));
        assert forall|l: L| #[trigger] before.has_local(l) implies after.has_local(l) by {
            assert(one.has_local(l));
            assert(opened.has_local(l));
            assert(mid.has_local(l));
        }
        assert forall|b: B| #[trigger] before.has(b) implies after.has(b) && (!touched(
            c,
            points,
            b,
        ) ==> after.blocks[b] == before.blocks[b]) by {
            assert(opened.has(b));
            assert(mid.has(b));
        }
    }
}

/// `m` is what coroutine `c` of `origin` has become in `body`: it was made out of `b`,
/// in which the coroutine stood as it stood in `origin`, and what was made of it, in
/// `a`, is still there.
pub open spec fn stands_for<B: CfgId, L: CfgId>(
    reading: Reading,
    origin: Body<B, L>,
    body: Body<B, L>,
    c: Coroutine<B>,
    m: Machine<B, L>,
    b: Body<B, L>,
    a: Body<B, L>,
) -> bool {
    let points = points_of(reading, origin, c);
    &&& machine_built(b, a, c, points, m)
    &&& points.len() < DONE_STATE ==> points_placed(b, c, points)
    &&& forall|x: B| #[trigger] touched(c, points, x) ==> b.blocks[x] == origin.blocks[x]
    &&& forall|x: B| #[trigger]
        a.has(x) ==> body.has(x) && (!origin.has(x) || touched(c, points, x) ==> body.blocks[x]
            == a.blocks[x])
}

/// Coroutine `c` of `origin` has become machine `m` in `body`.
pub open spec fn has_become<B: CfgId, L: CfgId>(
    reading: Reading,
    origin: Body<B, L>,
    body: Body<B, L>,
    c: Coroutine<B>,
    m: Machine<B, L>,
) -> bool {
    exists|b: Body<B, L>, a: Body<B, L>| #[trigger]
        stands_for(reading, origin, body, c, m, b, a)
}

/// What the first `n` coroutines do not touch is as it was.
#[verifier::opaque]
spec fn rest_kept<B: CfgId, L: CfgId>(
    reading: Reading,
    origin: Body<B, L>,
    body: Body<B, L>,
    cs: Seq<Coroutine<B>>,
    n: int,
) -> bool {
    forall|b: B| #[trigger]
        origin.has(b) ==> body.has(b) && ((forall|j: int|
            0 <= j < n ==> !touched(#[trigger] cs[j], points_of(reading, origin, cs[j]), b))
            ==> body.blocks[b] == origin.blocks[b])
}

/// The first `n` machines are new, and apart.
#[verifier::opaque]
spec fn all_new<B: CfgId, L: CfgId>(
    origin: Body<B, L>,
    body: Body<B, L>,
    machines: Seq<Machine<B, L>>,
    n: int,
) -> bool {
    &&& forall|j: int|
        0 <= j < n ==> {
            let m = #[trigger] machines[j];
            &&& body.has_local(m.state_local)
            &&& body.has_local(m.poll_result_local)
            &&& m.state_local != m.poll_result_local
            &&& body.has(m.dispatch_bb)
            &&& body.has(m.exit_bb)
            &&& !origin.has(m.dispatch_bb)
            &&& !origin.has(m.exit_bb)
            &&& m.dispatch_bb != m.exit_bb
            &&& body.blocks[m.exit_bb].stmts.len() == 0
        }
    &&& forall|j: int, k: int|
        0 <= j < n && 0 <= k < n && j != k ==> {
            let a = #[trigger] machines[j];
            let b = #[trigger] machines[k];
            &&& a.state_local != b.state_local
            &&& a.state_local != b.poll_result_local
            &&& a.poll_result_local != b.poll_result_local
            &&& a.exit_bb != b.exit_bb
            &&& a.exit_bb != b.dispatch_bb
            &&& a.dispatch_bb != b.dispatch_bb
        }
}

proof fn lemma_one_more_new<B: CfgId, L: CfgId>(
    origin: Body<B, L>,
    mid: Body<B, L>,
    body: Body<B, L>,
    c: Coroutine<B>,
    points: Seq<(B, usize, SuspKind)>,
    machines: Seq<Machine<B, L>>,
    i: int,
)
    requires
        0 <= i < machines.len(),
        all_new(origin, mid, machines, i),
        machine_is_new(mid, body, c, points, machines[i]),
        forall|x: B| #[trigger] touched(c, points, x) ==> origin.has(x),
        forall|x: B| #[trigger] origin.has(x) ==> mid.has(x),
    ensures
        all_new(origin, body, machines, i + 1),
{
    reveal(all_new);
    assert forall|j: int| 0 <= j < i implies {
        let m = #[trigger] machines[j];
        &&& body.has_local(m.state_local)
        &&& body.has_local(m.poll_result_local)
        &&& body.has(m.dispatch_bb)
        &&& body.has(m.exit_bb)
        &&& body.blocks[m.exit_bb].stmts.len() == 0
        &&& mid.has_local(m.state_local)
        &&& mid.has_local(m.poll_result_local)
        &&& mid.has(m.dispatch_bb)
        &&& mid.has(m.exit_bb)
    } by {
        let m = machines[j];
        assert(mid.has_local(m.state_local) && mid.has_local(m.poll_result_local));
        assert(mid.has(m.exit_bb) && mid.has(m.dispatch_bb));
        assert(!touched(c, points, m.exit_bb));
    }
}

/// The suspensions of a coroutine stand in blocks of their own, none of which holds
/// its end.
proof fn lemma_placed<B: CfgId, L: CfgId>(
    reading: Reading,
    origin: Body<B, L>,
    r: RegionView<B>,
    j: int,
)
    requires
        lawful_ids::<B>(),
        origin.wf(),
        fits(origin),
        in_id_order(origin.order),
        tidy(reading, origin),
        region_ok(reading, origin, r),
        0 <= j < r.coroutines.len(),
    ensures
        points_of(reading, origin, r.coroutines[j]).len() < DONE_STATE ==> points_placed(
            origin,
            r.coroutines[j],
            points_of(reading, origin, r.coroutines[j]),
        ),
        origin.has(r.coroutines[j].end.0),
        forall|x: B| #[trigger]
            touched(r.coroutines[j], points_of(reading, origin, r.coroutines[j]), x) ==> origin.has(
                x,
            ),
{
    let c = r.coroutines[j];
    let points = points_of(reading, origin, c);
    lemma_points_ok(reading, origin, c);
    lemma_points_apart(reading, origin, c);
    assert(marked(reading, origin, c.end, Marker::CoroutineEnd));
    assert forall|k: int| 0 <= k < points.len() implies origin.at(
        ((#[trigger] points[k]).0, points[k].1),
    ) && points[k].0 != c.end.0 by {
        let p = points[k];
        assert(origin.at((p.0, p.1)));
        if p.0 == c.end.0 {
            if p.1 < c.end.1 {
                lemma_two_marks(reading, origin, p.0, p.1, c.end.1);
            } else if c.end.1 < p.1 {
                lemma_two_marks(reading, origin, p.0, c.end.1, p.1);
            }
        }
    }
}

/// What a coroutine has become stays when the next one is rewritten.
proof fn lemma_become_stays<B: CfgId, L: CfgId>(
    reading: Reading,
    origin: Body<B, L>,
    mid: Body<B, L>,
    body: Body<B, L>,
    r: RegionView<B>,
    m: Machine<B, L>,
    i: int,
    j: int,
)
    requires
        lawful_ids::<B>(),
        origin.wf(),
        fits(origin),
        in_id_order(origin.order),
        tidy(reading, origin),
        region_ok(reading, origin, r),
        0 <= j < i < r.coroutines.len(),
        has_become(reading, origin, mid, r.coroutines[j], m),
        forall|b: B| #[trigger]
            mid.has(b) ==> body.has(b) && (!touched(
                r.coroutines[i],
                points_of(reading, origin, r.coroutines[i]),
                b,
            ) ==> body.blocks[b] == mid.blocks[b]),
        forall|x: B| #[trigger]
            touched(r.coroutines[i], points_of(reading, origin, r.coroutines[i]), x) ==> origin.has(
                x,
            ),
    ensures
        has_become(reading, origin, body, r.coroutines[j], m),
{
    let c = r.coroutines[j];
    let own = points_of(reading, origin, c);
    let (b, a) = choose|b: Body<B, L>, a: Body<B, L>| #[trigger]
        stands_for(reading, origin, mid, c, m, b, a);
    assert forall|x: B| #[trigger] a.has(x) implies body.has(x) && (!origin.has(x) || touched(
        c,
        own,
        x,
    ) ==> body.blocks[x] == a.blocks[x]) by {
        assert(mid.has(x));
        if touched(c, own, x) {
            lemma_disjoint(reading, origin, r, j, i, x);
        }
    }
    assert(stands_for(reading, origin, body, c, m, b, a));
}

/// The next coroutine, still as it was, becomes its machine.
proof fn lemma_becomes<B: CfgId, L: CfgId>(
    reading: Reading,
    origin: Body<B, L>,
    mid: Body<B, L>,
    body: Body<B, L>,
    r: RegionView<B>,
    m: Machine<B, L>,
    i: int,
)
    requires
        lawful_ids::<B>(),
        origin.wf(),
        fits(origin),
        in_id_order(origin.order),
        tidy(reading, origin),
        region_ok(reading, origin, r),
        0 <= i < r.coroutines.len(),
        rest_kept(reading, origin, mid, r.coroutines, i),
        machine_built(
            mid,
            body,
            r.coroutines[i],
            points_of(reading, origin, r.coroutines[i]),
            m,
        ),
    ensures
        has_become(reading, origin, body, r.coroutines[i], m),
        machine_is_new(
            mid,
            body,
            r.coroutines[i],
            points_of(reading, origin, r.coroutines[i]),
            m,
        ),
{
    reveal(rest_kept);
    let cs = r.coroutines;
    let c = cs[i];
    let points = points_of(reading, origin, c);
    lemma_placed(reading, origin, r, i);
    assert forall|x: B| #[trigger] touched(c, points, x) implies mid.blocks[x]
        == origin.blocks[x] && mid.has(x) by {
        assert(origin.has(x));
        assert forall|j: int| 0 <= j < i implies !touched(
            #[trigger] cs[j],
            points_of(reading, origin, cs[j]),
            x,
        ) by {
            lemma_disjoint(reading, origin, r, j, i, x);
        }
    }
    assert forall|k: int| 0 <= k < points.len() implies mid.has((#[trigger] points[k]).0)
        && mid.blocks[points[k].0] == origin.blocks[points[k].0] by {
        assert(touched(c, points, points[k].0));
    }
    assert(touched(c, points, c.end.0));
    law_a_machine_is_new(mid, body, c, points, m);
    if points.len() < DONE_STATE {
        assert forall|k: int| 0 <= k < points.len() implies mid.at(
            ((#[trigger] points[k]).0, points[k].1),
        ) && points[k].0 != c.end.0 by {
            assert(origin.at((points[k].0, points[k].1)));
        }
        assert(points_placed(mid, c, points));
    }
    assert(stands_for(reading, origin, body, c, m, mid, body));
}

proof fn lemma_rest_kept<B: CfgId, L: CfgId>(
    reading: Reading,
    origin: Body<B, L>,
    mid: Body<B, L>,
    body: Body<B, L>,
    cs: Seq<Coroutine<B>>,
    i: int,
)
    requires
        0 <= i < cs.len(),
        rest_kept(reading, origin, mid, cs, i),
        forall|b: B| #[trigger]
            mid.has(b) ==> body.has(b) && (!touched(cs[i], points_of(reading, origin, cs[i]), b)
                ==> body.blocks[b] == mid.blocks[b]),
    ensures
        rest_kept(reading, origin, body, cs, i + 1),
        forall|b: B| #[trigger] origin.has(b) ==> mid.has(b),
{
    reveal(rest_kept);
    assert forall|b: B| #[trigger] origin.has(b) implies body.has(b) && ((forall|j: int|
        0 <= j < i + 1 ==> !touched(#[trigger] cs[j], points_of(reading, origin, cs[j]), b))
        ==> body.blocks[b] == origin.blocks[b]) by {
        assert(mid.has(b));
        if forall|j: int|
            0 <= j < i + 1 ==> !touched(#[trigger] cs[j], points_of(reading, origin, cs[j]), b) {
            assert(!touched(cs[i], points_of(reading, origin, cs[i]), b));
        }
    }
}

/// What holds when the first `n` coroutines have been rewritten.
proof fn lemma_rewritten_so_far<B: CfgId, L: CfgId>(
    reading: Reading,
    origin: Body<B, L>,
    body: Body<B, L>,
    r: RegionView<B>,
    machines: Seq<Machine<B, L>>,
    n: nat,
)
    requires
        lawful_ids::<B>(),
        origin.wf(),
        fits(origin),
        in_id_order(origin.order),
        tidy(reading, origin),
        region_ok(reading, origin, r),
        n <= r.coroutines.len() == machines.len(),
        machines_built(reading, origin, body, r.coroutines, machines, n),
    ensures
        rest_kept(reading, origin, body, r.coroutines, n as int),
        all_new(origin, body, machines, n as int),
        forall|j: int|
            0 <= j < n ==> has_become(
                reading,
                origin,
                body,
                r.coroutines[j],
                #[trigger] machines[j],
            ),
    decreases n,
{
    let cs = r.coroutines;
    if n > 0 {
        let i = n - 1;
        let mid = choose|mid: Body<B, L>|
            machines_built(reading, origin, mid, cs, machines, (n - 1) as nat)
                && #[trigger] machine_built(
                mid,
                body,
                cs[n - 1],
                points_of(reading, origin, cs[n - 1]),
                machines[n - 1],
            );
        let c = cs[i];
        let points = points_of(reading, origin, c);
        lemma_rewritten_so_far(reading, origin, mid, r, machines, i as nat);
        lemma_placed(reading, origin, r, i);
        lemma_becomes(reading, origin, mid, body, r, machines[i], i);
        lemma_rest_kept(reading, origin, mid, body, cs, i);
        lemma_one_more_new(origin, mid, body, c, points, machines, i);
        assert forall|j: int| 0 <= j < n implies has_become(
            reading,
            origin,
            body,
            cs[j],
            #[trigger] machines[j],
        ) by {
            if j < i {
                lemma_become_stays(reading, origin, mid, body, r, machines[j], i, j);
            }
        }
    } else {
        reveal(rest_kept);
        reveal(all_new);
    }
}

/// Every coroutine of a region gets a machine of its own, made out of that coroutine,
/// and the machines are kept apart: none shares a local or a block with another, and
/// what is made of one coroutine is as it was made when the others are.
pub proof fn law_every_coroutine_has_a_machine_of_its_own<C: CoroCfg, E: Executor<C>>(
    reading: Reading,
    e: E,
    next_e: E,
    origin: Body<C::BlockId, C::LocalId>,
    after: Body<C::BlockId, C::LocalId>,
    r: RegionView<C::BlockId>,
)
    requires
        lawful_ids::<C::BlockId>(),
        origin.wf(),
        fits(origin),
        in_id_order(origin.order),
        tidy(reading, origin),
        region_ok(reading, origin, r),
        region_rewritten::<C, E>(reading, e, next_e, origin, after, r),
    ensures
        exists|
            mid: Body<C::BlockId, C::LocalId>,
            machines: Seq<Machine<C::BlockId, C::LocalId>>,
        |
            {
                &&& machines.len() == r.coroutines.len()
                &&& #[trigger] machines_apart(mid, r, machines)
                &&& e.finalized(next_e, mid, after, r, machines)
                &&& forall|j: int|
                    0 <= j < machines.len() ==> has_become(
                        reading,
                        origin,
                        mid,
                        r.coroutines[j],
                        #[trigger] machines[j],
                    )
            },
{
    let (mid, machines) = choose|
        mid: Body<C::BlockId, C::LocalId>,
        machines: Seq<Machine<C::BlockId, C::LocalId>>,
    |
        {
            &&& machines.len() == r.coroutines.len()
            &&& #[trigger] machines_built(
                reading,
                origin,
                mid,
                r.coroutines,
                machines,
                machines.len(),
            )
            &&& e.finalized(next_e, mid, after, r, machines)
        };
    lemma_rewritten_so_far(reading, origin, mid, r, machines, machines.len());
    reveal(all_new);
    assert forall|k: int| 0 <= k < machines.len() implies !region_touches(
        r,
        machines,
        (#[trigger] machines[k]).exit_bb,
    ) by {
        let x = machines[k].exit_bb;
        assert(!origin.has(x));
        assert(marked(reading, origin, r.region_begin, Marker::RegionBegin));
        assert(marked(reading, origin, r.region_end, Marker::RegionEnd));
        assert forall|j: int| 0 <= j < r.coroutines.len() implies (
        #[trigger] r.coroutines[j]).begin.0 != x && r.coroutines[j].end.0 != x by {
            assert(marked(reading, origin, r.coroutines[j].begin, Marker::CoroutineBegin));
        }
        if k != 0 {
            assert(machines[k].exit_bb != machines[0].dispatch_bb);
        }
    }
    assert(machines_apart(mid, r, machines));
}

/// A region that the cooperative executor rewrites becomes one loop over the machines of
/// all its coroutines.
pub proof fn law_a_cooperative_region_polls_every_coroutine<C: CoroCfg>(
    reading: Reading,
    e: CooperativeExecutor,
    next_e: CooperativeExecutor,
    origin: Body<C::BlockId, C::LocalId>,
    after: Body<C::BlockId, C::LocalId>,
    r: RegionView<C::BlockId>,
)
    requires
        lawful_ids::<C::BlockId>(),
        origin.wf(),
        fits(origin),
        in_id_order(origin.order),
        tidy(reading, origin),
        region_ok(reading, origin, r),
        region_rewritten::<C, CooperativeExecutor>(reading, e, next_e, origin, after, r),
    ensures
        exists|
            mid: Body<C::BlockId, C::LocalId>,
            machines: Seq<Machine<C::BlockId, C::LocalId>>,
        |
            {
                &&& machines.len() == r.coroutines.len()
                &&& machines_apart(mid, r, machines)
                &&& #[trigger] cooperative_loop(mid, after, r, machines)
            },
{
    law_every_coroutine_has_a_machine_of_its_own::<C, CooperativeExecutor>(
        reading,
        e,
        next_e,
        origin,
        after,
        r,
    );
    let (mid, machines) = choose|
        mid: Body<C::BlockId, C::LocalId>,
        machines: Seq<Machine<C::BlockId, C::LocalId>>,
    |
        {
            &&& machines.len() == r.coroutines.len()
            &&& #[trigger] machines_apart(mid, r, machines)
            &&& <CooperativeExecutor as Executor<C>>::finalized(
                e,
                next_e,
                mid,
                after,
                r,
                machines,
            )
        };
    assert(cooperative_loop(mid, after, r, machines));
}

/// A region that the waker executor rewrites becomes one pass over the machines of all
/// its coroutines, and the exits of that pass are recorded, behind those of the regions
/// before it.
pub proof fn law_a_waker_region_is_recorded_by_its_exits<C: CoroCfg>(
    reading: Reading,
    e: WakerExecutor<C::BlockId>,
    next_e: WakerExecutor<C::BlockId>,
    origin: Body<C::BlockId, C::LocalId>,
    after: Body<C::BlockId, C::LocalId>,
    r: RegionView<C::BlockId>,
)
    requires
        lawful_ids::<C::BlockId>(),
        origin.wf(),
        fits(origin),
        in_id_order(origin.order),
        tidy(reading, origin),
        region_ok(reading, origin, r),
        region_rewritten::<C, WakerExecutor<C::BlockId>>(
            reading,
            e,
            next_e,
            origin,
            after,
            r,
        ),
    ensures
        next_e.regions@ =~= e.regions@.push(next_e.regions@.last()),
        exists|
            mid: Body<C::BlockId, C::LocalId>,
            machines: Seq<Machine<C::BlockId, C::LocalId>>,
        |
            {
                &&& machines.len() == r.coroutines.len()
                &&& machines_apart(mid, r, machines)
                &&& #[trigger] waker_pass(mid, after, r, machines, next_e.regions@.last())
            },
{
    law_every_coroutine_has_a_machine_of_its_own::<C, WakerExecutor<C::BlockId>>(
        reading,
        e,
        next_e,
        origin,
        after,
        r,
    );
    let (mid, machines) = choose|
        mid: Body<C::BlockId, C::LocalId>,
        machines: Seq<Machine<C::BlockId, C::LocalId>>,
    |
        {
            &&& machines.len() == r.coroutines.len()
            &&& #[trigger] machines_apart(mid, r, machines)
            &&& <WakerExecutor<C::BlockId> as Executor<C>>::finalized(
                e,
                next_e,
                mid,
                after,
                r,
                machines,
            )
        };
    assert(waker_pass(mid, after, r, machines, next_e.regions@.last()));
    assert(next_e.regions@ =~= next_e.regions@.drop_last().push(next_e.regions@.last()));
}

/// Every region that is rewritten is recorded once, and what has been recorded stays.
pub proof fn law_every_region_is_recorded<C: CoroCfg>(
    reading: Reading,
    e: WakerExecutor<C::BlockId>,
    next_e: WakerExecutor<C::BlockId>,
    origin: Body<C::BlockId, C::LocalId>,
    after: Body<C::BlockId, C::LocalId>,
    n: nat,
)
    requires
        regions_rewritten::<C, WakerExecutor<C::BlockId>>(
            reading,
            e,
            next_e,
            origin,
            after,
            n,
        ),
    ensures
        next_e.regions@.len() == e.regions@.len() + n,
        next_e.regions@.take(e.regions@.len() as int) == e.regions@,
    decreases n,
{
    if n > 0 {
        let (mid, mid_e, r) = choose|
            mid: Body<C::BlockId, C::LocalId>,
            mid_e: WakerExecutor<C::BlockId>,
            r: RegionView<C::BlockId>,
        |
            {
                &&& regions_rewritten::<C, WakerExecutor<C::BlockId>>(
                    reading,
                    e,
                    mid_e,
                    origin,
                    mid,
                    (n - 1) as nat,
                )
                &&& is_next(regions_of(reading, mid), r)
                &&& #[trigger] region_rewritten::<C, WakerExecutor<C::BlockId>>(
                    reading,
                    mid_e,
                    next_e,
                    mid,
                    after,
                    r,
                )
            };
        law_every_region_is_recorded::<C>(reading, e, mid_e, origin, mid, (n - 1) as nat);
        assert(next_e.regions@.drop_last() == mid_e.regions@);
        assert forall|i: int| 0 <= i < e.regions@.len() implies next_e.regions@[i]
            == e.regions@[i] by {
            assert(next_e.regions@.drop_last()[i] == next_e.regions@[i]);
            assert(mid_e.regions@.take(e.regions@.len() as int)[i] == mid_e.regions@[i]);
        }
    }
    assert(next_e.regions@.take(e.regions@.len() as int) =~= e.regions@);
}

} // verus!
