//! The transform: one region at a time, until none with coroutines is left.
use vstd::prelude::*;

use crate::stackless::cfg::{mark_of, CoroCfg, CoroHooks};
use crate::stackless::executor::{region_ready, Executor};
use crate::stackless::fence::{
    clear_tail, fenced, fences_left, lemma_left_compose, lemma_machine_left, lemma_padded_left,
    nowhere, region_place, yields_at, Places,
};
use crate::stackless::keep::{lemma_machine_keeps, spared, user_tags};
use crate::stackless::machine::{
    build_state_machine, machine_built, points_apart, stays, touched, Machine,
};
use crate::stackless::model::{in_id_order, Body};
use crate::stackless::nest::{
    cleared, lemma_first_used, lemma_own_tail, lemma_plain, lemma_stays_nested, nested, own_tail,
    plain,
};
use crate::stackless::placement::{
    before, fits, is_stop, lemma_points_ok, lemma_regions_ok, marked, points_ok, region_ok, tidy,
    tidy_stmts,
};
use crate::stackless::scan::{
    find_regions, find_suspension_points, kind_of, points_of, regions_of, Coroutine, Reading, Region,
    RegionView, SuspKind,
};
use crate::stackless::shed::{host_total, lemma_sheds_compose, lemma_sheds_refl, sheds};
use crate::stackless::tally::{counts, only, tally_body};
use crate::vocab::{id_before, lawful_ids, CfgId, Marker};

verus! {

/// Every statement of the host's that the transform is not to erase is there as
/// often as it was.
pub open spec fn keeps_user_statements<B: CfgId, L: CfgId>(
    reading: Reading,
    before: Body<B, L>,
    after: Body<B, L>,
) -> bool {
    forall|tag: int|
        user_tags(reading)(tag) ==> #[trigger] tally_body(only(tag), after) == tally_body(
            only(tag),
            before,
        )
}

/// The first `n` coroutines of a region rewritten one after another, each with
/// the suspension points it had in `origin`.
pub open spec fn machines_built<B: CfgId, L: CfgId>(
    reading: Reading,
    origin: Body<B, L>,
    after: Body<B, L>,
    cs: Seq<Coroutine<B>>,
    machines: Seq<Machine<B, L>>,
    n: nat,
) -> bool
    decreases n,
{
    if n == 0 {
        after == origin
    } else {
        exists|mid: Body<B, L>|
            machines_built(reading, origin, mid, cs, machines, (n - 1) as nat)
                && #[trigger] machine_built(
                mid,
                after,
                cs[n - 1],
                points_of(reading, origin, cs[n - 1]),
                machines[n - 1],
            )
    }
}

/// A region rewritten: its coroutines into machines, then the region itself by
/// the executor.
pub open spec fn region_rewritten<C: CoroCfg, E: Executor<C>>(
    reading: Reading,
    e: E,
    next_e: E,
    origin: Body<C::BlockId, C::LocalId>,
    after: Body<C::BlockId, C::LocalId>,
    r: RegionView<C::BlockId>,
) -> bool {
    exists|
        mid: Body<C::BlockId, C::LocalId>,
        machines: Seq<Machine<C::BlockId, C::LocalId>>,
    |
        {
            &&& machines.len() == r.coroutines.len()
            &&& #[trigger] machines_built(
                reading,
                origin,
                mid,
                r.coroutines,
                machines,
                machines.len(),
            )
            &&& e.finalized(next_e, mid, after, r, machines)
        }
}

/// `r` is the first of the regions that has a coroutine.
pub open spec fn is_next<B: CfgId>(regions: Seq<RegionView<B>>, r: RegionView<B>) -> bool {
    exists|i: int|
        {
            &&& 0 <= i < regions.len()
            &&& #[trigger] regions[i] == r
            &&& r.coroutines.len() > 0
            &&& forall|j: int| 0 <= j < i ==> (#[trigger] regions[j]).coroutines.len() == 0
        }
}

/// No region with a coroutine is left.
pub open spec fn settled<B: CfgId, L: CfgId>(reading: Reading, body: Body<B, L>) -> bool {
    forall|i: int|
        0 <= i < regions_of(reading, body).len() ==> (#[trigger] regions_of(
            reading,
            body,
        )[i]).coroutines.len() == 0
}

/// `n` regions rewritten one after another, each the first that had a coroutine
/// when its turn came.
pub open spec fn regions_rewritten<C: CoroCfg, E: Executor<C>>(
    reading: Reading,
    e: E,
    next_e: E,
    origin: Body<C::BlockId, C::LocalId>,
    after: Body<C::BlockId, C::LocalId>,
    n: nat,
) -> bool
    decreases n,
{
    if n == 0 {
        after == origin && next_e == e
    } else {
        exists|mid: Body<C::BlockId, C::LocalId>, mid_e: E, r: RegionView<C::BlockId>|
            {
                &&& regions_rewritten::<C, E>(reading, e, mid_e, origin, mid, (n - 1) as nat)
                &&& is_next(regions_of(reading, mid), r)
                &&& #[trigger] region_rewritten::<C, E>(reading, mid_e, next_e, mid, after, r)
            }
    }
}

/// Regions are rewritten from the first on: none that comes later is taken before one
/// that has a coroutine, and one without any is not taken at all.
pub proof fn law_the_first_region_goes_first<B: CfgId>(
    regions: Seq<RegionView<B>>,
    r: RegionView<B>,
    j: int,
)
    requires
        is_next(regions, r),
        0 <= j < regions.len(),
        regions[j].coroutines.len() > 0,
    ensures
        r.coroutines.len() > 0,
        exists|i: int| 0 <= i <= j && #[trigger] regions[i] == r,
{
    let i = choose|i: int|
        {
            &&& 0 <= i < regions.len()
            &&& #[trigger] regions[i] == r
            &&& r.coroutines.len() > 0
            &&& forall|j: int| 0 <= j < i ==> (#[trigger] regions[j]).coroutines.len() == 0
        };
    if j < i {
        assert(regions[j].coroutines.len() == 0);
    }
    assert(regions[i] == r);
}

/// Running the transform again on what it has produced changes nothing.
pub proof fn law_transform_is_idempotent<C: CoroCfg, E: Executor<C>>(
    reading: Reading,
    e: E,
    next_e: E,
    origin: Body<C::BlockId, C::LocalId>,
    after: Body<C::BlockId, C::LocalId>,
    n: nat,
)
    requires
        settled(reading, origin),
        regions_rewritten::<C, E>(reading, e, next_e, origin, after, n),
    ensures
        after == origin,
        next_e == e,
        n == 0,
    decreases n,
{
    if n > 0 {
        let (mid, mid_e, r) = choose|
            mid: Body<C::BlockId, C::LocalId>,
            mid_e: E,
            r: RegionView<C::BlockId>,
        |
            {
                &&& regions_rewritten::<C, E>(reading, e, mid_e, origin, mid, (n - 1) as nat)
                &&& is_next(regions_of(reading, mid), r)
                &&& #[trigger] region_rewritten::<C, E>(reading, mid_e, next_e, mid, after, r)
            };
        law_transform_is_idempotent::<C, E>(reading, e, mid_e, origin, mid, (n - 1) as nat);
    }
}

proof fn lemma_machines_grow<B: CfgId, L: CfgId>(
    reading: Reading,
    origin: Body<B, L>,
    after: Body<B, L>,
    cs: Seq<Coroutine<B>>,
    machines: Seq<Machine<B, L>>,
    n: nat,
    more: Seq<Machine<B, L>>,
)
    requires
        machines_built(reading, origin, after, cs, machines, n),
        forall|k: int| 0 <= k < n ==> machines[k] == more[k],
    ensures
        machines_built(reading, origin, after, cs, more, n),
    decreases n,
{
    if n > 0 {
        let mid = choose|mid: Body<B, L>|
            machines_built(reading, origin, mid, cs, machines, (n - 1) as nat)
                && #[trigger] machine_built(
                mid,
                after,
                cs[n - 1],
                points_of(reading, origin, cs[n - 1]),
                machines[n - 1],
            );
        lemma_machines_grow(reading, origin, mid, cs, machines, (n - 1) as nat, more);
    }
}

/// Two markers in one block of a tidy body: the first is neither a suspension
/// nor the end of a coroutine.
pub proof fn lemma_two_marks<B, L>(
    reading: Reading,
    body: Body<B, L>,
    b: B,
    i: usize,
    j: usize,
)
    requires
        tidy(reading, body),
        body.at((b, i)),
        body.at((b, j)),
        i < j,
        mark_of(reading, body.stmt((b, j))) is Some,
    ensures
        !is_stop(mark_of(reading, body.stmt((b, i)))),
{
    assert(body.has(b));
    assert(tidy_stmts(reading, body.blocks[b].stmts));
}

/// A coroutine's suspension points have a block each.
pub proof fn lemma_points_apart<B: CfgId, L: CfgId>(
    reading: Reading,
    body: Body<B, L>,
    c: Coroutine<B>,
)
    requires
        tidy(reading, body),
        points_ok(reading, body, c.begin.0, c.end.0, points_of(reading, body, c)),
        lawful_ids::<B>(),
    ensures
        points_apart(reading, body, points_of(reading, body, c)),
{
    let ps = points_of(reading, body, c);
    assert forall|j: int, k: int| 0 <= j < k < ps.len() implies (#[trigger] ps[j]).0 != (
    #[trigger] ps[k]).0 by {
        if ps[j].0 == ps[k].0 {
            assert(before((ps[j].0, ps[j].1), (ps[k].0, ps[k].1)));
            lemma_two_marks(reading, body, ps[j].0, ps[j].1, ps[k].1);
        }
    }
}

/// The blocks that the rewrites of two coroutines of a region touch are
/// different ones.
pub proof fn lemma_disjoint<B: CfgId, L: CfgId>(
    reading: Reading,
    body: Body<B, L>,
    r: RegionView<B>,
    j: int,
    k: int,
    b: B,
)
    requires
        body.wf(),
        fits(body),
        in_id_order(body.order),
        tidy(reading, body),
        lawful_ids::<B>(),
        region_ok(reading, body, r),
        0 <= j < k < r.coroutines.len(),
    ensures
        !(touched(r.coroutines[j], points_of(reading, body, r.coroutines[j]), b) && touched(
            r.coroutines[k],
            points_of(reading, body, r.coroutines[k]),
            b,
        )),
{
    let c = r.coroutines[j];
    let d = r.coroutines[k];
    let ps = points_of(reading, body, c);
    let qs = points_of(reading, body, d);
    lemma_points_ok(reading, body, c);
    lemma_points_ok(reading, body, d);
    assert(before(c.end, d.begin));
    assert(before(d.begin, d.end));
    assert(c.end.0 != d.begin.0) by {
        if c.end.0 == d.begin.0 {
            lemma_two_marks(reading, body, c.end.0, c.end.1, d.begin.1);
        }
    }
    assert(id_before(c.end.0, d.begin.0));
    if touched(c, ps, b) && touched(d, qs, b) {
        // Not past the end of the first, not before the begin of the second.
        assert(!id_before(c.end.0, b)) by {
            if b != c.end.0 {
                let x = choose|x: int| 0 <= x < ps.len() && (#[trigger] ps[x]).0 == b;
                assert(ps[x].0 == b);
            }
        }
        assert(!id_before(b, d.begin.0)) by {
            if b == d.end.0 {
                assert(id_before(d.begin.0, d.end.0) || d.begin.0 == d.end.0);
            } else {
                let x = choose|x: int| 0 <= x < qs.len() && (#[trigger] qs[x]).0 == b;
                assert(qs[x].0 == b);
            }
        }
        assert(b == c.end.0 || id_before(b, c.end.0));
        assert(id_before(b, d.begin.0));
        assert(false);
    }
}

/// The yields of the first `n` coroutines.
spec fn yields_of<B: CfgId, L: CfgId>(
    reading: Reading,
    origin: Body<B, L>,
    cs: Seq<Coroutine<B>>,
    n: int,
) -> Places<B> {
    |pos: (B, int)|
        exists|j: int|
            0 <= j < n && {
                let points = points_of(reading, origin, #[trigger] cs[j]);
                yields_at(points, points.len() as int)(pos)
            }
}

/// The region's own markers are still where they were found.
spec fn markers_in_place<B: CfgId, L: CfgId>(
    origin: Body<B, L>,
    body: Body<B, L>,
    r: RegionView<B>,
) -> bool {
    &&& body.at(r.region_begin)
    &&& body.stmt(r.region_begin) == origin.stmt(r.region_begin)
    &&& body.at(r.region_end)
    &&& body.stmt(r.region_end) == origin.stmt(r.region_end)
    &&& forall|j: int|
        0 <= j < r.coroutines.len() ==> {
            let c = #[trigger] r.coroutines[j];
            &&& body.at(c.begin)
            &&& body.stmt(c.begin) == origin.stmt(c.begin)
            &&& body.at(c.end)
            &&& body.stmt(c.end) == origin.stmt(c.end)
        }
}

/// A statement that is not to be erased is none of the region's markers.
proof fn lemma_spared<B: CfgId, L: CfgId>(
    reading: Reading,
    origin: Body<B, L>,
    body: Body<B, L>,
    r: RegionView<B>,
    tag: int,
)
    requires
        region_ok(reading, origin, r),
        markers_in_place(origin, body, r),
        user_tags(reading)(tag),
    ensures
        spared(only(tag), body, r),
{
    assert forall|j: int| 0 <= j < r.coroutines.len() implies !counts(
        only(tag),
        body.stmt((#[trigger] r.coroutines[j]).begin),
    ) && !counts(only(tag), body.stmt(r.coroutines[j].end)) by {
        let c = r.coroutines[j];
        assert(marked(reading, origin, c.begin, Marker::CoroutineBegin));
    }
}

/// A marker that is no suspension stays put when a coroutine is rewritten.
proof fn lemma_marker_stays<B: CfgId, L: CfgId>(
    reading: Reading,
    origin: Body<B, L>,
    mid: Body<B, L>,
    after: Body<B, L>,
    points: Seq<(B, usize, SuspKind)>,
    pos: (B, usize),
)
    requires
        tidy(reading, origin),
        origin.at(pos),
        mark_of(reading, origin.stmt(pos)) is Some,
        kind_of(mark_of(reading, origin.stmt(pos))) is None,
        mid.at(pos),
        points_apart(reading, origin, points),
        forall|k: int|
            0 <= k < points.len() ==> mid.blocks[(#[trigger] points[k]).0]
                == origin.blocks[points[k].0],
        stays(mid, after, points),
    ensures
        after.at(pos),
        after.stmt(pos) == mid.stmt(pos),
{
    assert(mid.has(pos.0));
    if exists|k: int| 0 <= k < points.len() && (#[trigger] points[k]).0 == pos.0 {
        let k = choose|k: int| 0 <= k < points.len() && (#[trigger] points[k]).0 == pos.0;
        let p = points[k];
        assert(origin.at((p.0, p.1)));
        if p.1 <= pos.1 {
            assert(p.1 != pos.1);
            lemma_two_marks(reading, origin, p.0, p.1, pos.1);
            assert(false);
        }
        let i = p.1 as int;
        assert(after.blocks[p.0].stmts.take(i)[pos.1 as int] == mid.blocks[p.0].stmts.take(
            i,
        )[pos.1 as int]);
    }
}

/// Rewrite one region: its coroutines into state machines, then the region by
/// the executor.
pub fn transform_region<C, H, E>(
    cfg: &mut C,
    hooks: &mut H,
    executor: &mut E,
    region: &Region<C::BlockId>,
) where C: CoroCfg, H: CoroHooks<Cfg = C>, E: Executor<C>
    requires
        lawful_ids::<C::BlockId>(),
        old(cfg).body().wf(),
        fits(old(cfg).body()),
        in_id_order(old(cfg).body().order),
        tidy(old(hooks).reading(), old(cfg).body()),
        region_ok(old(hooks).reading(), old(cfg).body(), region@),
    ensures
        region_rewritten::<C, E>(
            old(hooks).reading(),
            *old(executor),
            *final(executor),
            old(cfg).body(),
            final(cfg).body(),
            region@,
        ),
        final(hooks).reading() == old(hooks).reading(),
        final(cfg).body().wf(),
        in_id_order(final(cfg).body().order),
        tidy(old(hooks).reading(), final(cfg).body()),
        host_total(final(cfg).body()) < host_total(old(cfg).body()),
        keeps_user_statements(old(hooks).reading(), old(cfg).body(), final(cfg).body()),
        own_tail(old(hooks).reading(), old(cfg).body(), region@) ==> fences_left(
            old(hooks).reading(),
            old(cfg).body(),
            final(cfg).body(),
            cleared(old(hooks).reading(), old(cfg).body(), region@),
        ),
{
    let ghost origin = cfg.body();
    let ghost reading = hooks.reading();
    let ghost r = region@;
    let ghost cs = r.coroutines;

    // Snapshot each coroutine's suspension points before mutating.
    let mut coro_suspensions: Vec<Vec<(C::BlockId, usize, SuspKind)>> = Vec::new();
    let mut n: usize = 0;
    while n < region.coroutines.len()
        invariant
            n <= region.coroutines@.len(),
            cs == region.coroutines@,
            cfg.body() == origin,
            hooks.reading() == reading,
            lawful_ids::<C::BlockId>(),
            origin.wf(),
            coro_suspensions@.len() == n,
            forall|k: int|
                0 <= k < n ==> (#[trigger] coro_suspensions@[k])@ == points_of(
                    reading,
                    origin,
                    cs[k],
                ),
        decreases region.coroutines@.len() - n,
    {
        let points = find_suspension_points(&*cfg, &*hooks, &region.coroutines[n]);
        coro_suspensions.push(points);
        n = n + 1;
    }

    let mut machines: Vec<Machine<C::BlockId, C::LocalId>> = Vec::new();
    let mut idx: usize = 0;
    proof {
        lemma_sheds_refl(origin);
        lemma_padded_left(reading, origin, origin);
        lemma_left_compose(
            reading,
            origin,
            origin,
            origin,
            nowhere(),
            nowhere(),
            yields_of(reading, origin, cs, 0),
        );
    }
    while idx < region.coroutines.len()
        invariant
            idx <= region.coroutines@.len(),
            r == region@,
            cs == region.coroutines@,
            reading == hooks.reading(),
            lawful_ids::<C::BlockId>(),
            origin.wf(),
            fits(origin),
            in_id_order(origin.order),
            tidy(reading, origin),
            region_ok(reading, origin, r),
            coro_suspensions@.len() == cs.len(),
            forall|k: int|
                0 <= k < cs.len() ==> (#[trigger] coro_suspensions@[k])@ == points_of(
                    reading,
                    origin,
                    cs[k],
                ),
            machines@.len() == idx,
            machines_built(reading, origin, cfg.body(), cs, machines@, idx as nat),
            cfg.body().wf(),
            in_id_order(cfg.body().order),
            sheds(origin, cfg.body()),
            keeps_user_statements(reading, origin, cfg.body()),
            fences_left(reading, origin, cfg.body(), yields_of(reading, origin, cs, idx as int)),
            markers_in_place(origin, cfg.body(), r),
            forall|b: C::BlockId| #[trigger] origin.has(b) ==> cfg.body().has(b),
            forall|k: int, b: C::BlockId|
                idx <= k < cs.len() && origin.has(b) && #[trigger] touched(
                    cs[k],
                    points_of(reading, origin, cs[k]),
                    b,
                ) ==> cfg.body().blocks[b] == origin.blocks[b],
            forall|k: int|
                0 <= k < idx ==> cfg.body().has((#[trigger] machines@[k]).dispatch_bb)
                    && cfg.body().has(machines@[k].exit_bb),
        decreases region.coroutines@.len() - idx,
    {
        let ghost mid = cfg.body();
        let ghost built = machines@;
        let ghost c = cs[idx as int];
        let ghost points = points_of(reading, origin, c);
        proof {
            lemma_points_ok(reading, origin, c);
            lemma_points_apart(reading, origin, c);
            assert(origin.has(c.end.0));
            assert forall|k: int| 0 <= k < points.len() implies mid.blocks[(
            #[trigger] points[k]).0] == origin.blocks[points[k].0] && mid.at(
                (points[k].0, points[k].1),
            ) by {
                assert(origin.at((points[k].0, points[k].1)));
                assert(origin.has(points[k].0));
                assert(touched(cs[idx as int], points_of(reading, origin, cs[idx as int]), points[k].0));
            }
            assert(points_apart(reading, mid, points));
        }
        let machine = build_state_machine(
            cfg,
            hooks,
            &region.coroutines[idx],
            coro_suspensions[idx].as_slice(),
        );
        let ghost after = cfg.body();
        machines.push(machine);
        proof {
            lemma_machines_grow(reading, origin, mid, cs, built, idx as nat, machines@);
            assert(machine_built(
                mid,
                after,
                cs[(idx + 1) as nat - 1],
                points_of(reading, origin, cs[(idx + 1) as nat - 1]),
                machines@[(idx + 1) as nat - 1],
            ));
            lemma_sheds_compose(origin, mid, after);
            assert forall|tag: int| user_tags(reading)(tag) implies #[trigger] tally_body(
                only(tag),
                after,
            ) == tally_body(only(tag), origin) by {
                lemma_machine_keeps(only(tag), reading, mid, after, c, points, machine);
            }
            assert(tidy(reading, mid));
            lemma_machine_left(reading, mid, after, c, points, machine);
            let first = yields_of(reading, origin, cs, idx as int);
            let second = yields_at(points, points.len() as int);
            let both = yields_of(reading, origin, cs, idx + 1);
            assert forall|pos: (C::BlockId, int)| #[trigger] both(pos) == (first(pos) || second(
                pos,
            )) by {
                if second(pos) {
                    assert(points_of(reading, origin, cs[idx as int]) == points);
                }
            }
            lemma_left_compose(reading, origin, mid, after, first, second, both);
            lemma_marker_stays(reading, origin, mid, after, points, r.region_begin);
            lemma_marker_stays(reading, origin, mid, after, points, r.region_end);
            assert forall|j: int| 0 <= j < cs.len() implies after.at((#[trigger] cs[j]).begin)
                && after.at(cs[j].end) && after.stmt(cs[j].begin) == origin.stmt(cs[j].begin)
                && after.stmt(cs[j].end) == origin.stmt(cs[j].end) by {
                lemma_marker_stays(reading, origin, mid, after, points, cs[j].begin);
                lemma_marker_stays(reading, origin, mid, after, points, cs[j].end);
            }
            assert forall|k: int, b: C::BlockId|
                idx + 1 <= k < cs.len() && origin.has(b) && #[trigger] touched(
                    cs[k],
                    points_of(reading, origin, cs[k]),
                    b,
                ) implies after.blocks[b] == origin.blocks[b] by {
                lemma_disjoint(reading, origin, r, idx as int, k, b);
                assert(mid.has(b));
            }
            assert forall|k: int| 0 <= k < idx + 1 implies after.has(
                (#[trigger] machines@[k]).dispatch_bb,
            ) && after.has(machines@[k].exit_bb) by {
                if k < idx {
                    assert(mid.has(built[k].dispatch_bb) && mid.has(built[k].exit_bb));
                }
            }
            assert forall|b: C::BlockId| #[trigger] origin.has(b) implies after.has(b) by {
                assert(mid.has(b));
            }
        }
        idx = idx + 1;
    }
    let ghost mid = cfg.body();
    proof {
        assert(origin.stmt(r.region_begin) is Host);
        assert(region_ready(mid, r, machines@));
    }

    // Hand off to the executor strategy.
    executor.finalize_region(cfg, region, machines.as_slice());
    proof {
        lemma_sheds_compose(origin, mid, cfg.body());
        assert forall|tag: int| user_tags(reading)(tag) implies #[trigger] tally_body(
            only(tag),
            cfg.body(),
        ) == tally_body(only(tag), origin) by {
            lemma_spared(reading, origin, mid, r, tag);
            assert(tally_body(only(tag), mid) == tally_body(only(tag), origin));
        }
        assert(machines_built(reading, origin, mid, cs, machines@, machines@.len()));
        if own_tail(reading, origin, r) {
            let yields = yields_of(reading, origin, cs, cs.len() as int);
            assert forall|pos: (C::BlockId, int)| #[trigger]
                fenced(reading, mid, pos) && pos.0 == r.region_begin.0 && pos.1
                    > r.region_begin.1 implies region_place(r)(pos) by {
                assert(fenced(reading, origin, pos));
            }
            assert(clear_tail(reading, mid, r));
            assert(fences_left(reading, mid, cfg.body(), region_place(r)));
            lemma_left_compose(
                reading,
                origin,
                mid,
                cfg.body(),
                yields,
                region_place(r),
                cleared(reading, origin, r),
            );
        }
    }
}

/// Run the transform against a CFG-shaped IR: find and rewrite one region at a
/// time until none with a coroutine is left, so nested regions work. Every host
/// statement that is not to be erased is kept; and of regions and coroutines that
/// are nested as brackets are, no marker is left, and no yield.
///
/// The body must keep the layout rule of IR builders: block ids in listing
/// order, and a suspension point or the end of a coroutine as the last marker of
/// its block.
pub fn run_with<C, H, E>(cfg: &mut C, hooks: &mut H, executor: &mut E) where
    C: CoroCfg,
    H: CoroHooks<Cfg = C>,
    E: Executor<C>,

    requires
        lawful_ids::<C::BlockId>(),
        old(cfg).body().wf(),
        in_id_order(old(cfg).body().order),
        tidy(old(hooks).reading(), old(cfg).body()),
    ensures
        exists|n: nat| #[trigger]
            regions_rewritten::<C, E>(
                old(hooks).reading(),
                *old(executor),
                *final(executor),
                old(cfg).body(),
                final(cfg).body(),
                n,
            ),
        settled(old(hooks).reading(), final(cfg).body()),
        keeps_user_statements(old(hooks).reading(), old(cfg).body(), final(cfg).body()),
        nested(old(hooks).reading(), old(cfg).body()) ==> plain(
            old(hooks).reading(),
            final(cfg).body(),
        ),
        final(hooks).reading() == old(hooks).reading(),
        final(cfg).body().wf(),
        in_id_order(final(cfg).body().order),
        tidy(old(hooks).reading(), final(cfg).body()),
{
    let ghost origin = cfg.body();
    let ghost e = *executor;
    let ghost reading = hooks.reading();
    let ghost mut rounds: nat = 0;
    loop
        invariant
            lawful_ids::<C::BlockId>(),
            cfg.body().wf(),
            in_id_order(cfg.body().order),
            tidy(reading, cfg.body()),
            hooks.reading() == reading,
            keeps_user_statements(reading, origin, cfg.body()),
            nested(reading, origin) ==> nested(reading, cfg.body()),
            regions_rewritten::<C, E>(reading, e, *executor, origin, cfg.body(), rounds),
        ensures
            settled(reading, cfg.body()),
            nested(reading, origin) ==> plain(reading, cfg.body()),
        decreases host_total(cfg.body()),
    {
        let regions = find_regions(&*cfg, &*hooks);
        let ghost mid = cfg.body();
        let ghost mid_e = *executor;
        let ghost found = regions_of(reading, mid);
        let ghost view = |x: Region<C::BlockId>| x@;
        assert(found == regions@.map_values(view));
        let mut i: usize = 0;
        while i < regions.len() && regions[i].coroutines.len() == 0
            invariant
                i <= regions@.len(),
                forall|j: int| 0 <= j < i ==> (#[trigger] regions@[j]).coroutines@.len() == 0,
            decreases regions@.len() - i,
        {
            i = i + 1;
        }
        if i == regions.len() {
            proof {
                assert forall|k: int| 0 <= k < found.len() implies (
                #[trigger] found[k]).coroutines.len() == 0 by {
                    assert(found[k] == regions@[k]@);
                }
                if nested(reading, origin) {
                    lemma_plain(reading, mid);
                }
            }
            break;
        }
        proof {
            assert(found[i as int] == regions@[i as int]@);
            assert forall|j: int| 0 <= j < i implies (#[trigger] found[j]).coroutines.len()
                == 0 by {
                assert(found[j] == regions@[j]@);
            }
            assert(is_next(found, regions@[i as int]@));
            lemma_regions_ok(reading, mid, regions@[i as int]@);
            if nested(reading, origin) {
                lemma_first_used(reading, mid);
                assert(i == 0);
                lemma_own_tail(reading, mid);
            }
        }
        transform_region(cfg, hooks, executor, &regions[i]);
        proof {
            rounds = rounds + 1;
            if nested(reading, origin) {
                lemma_stays_nested(reading, mid, cfg.body(), regions@[i as int]@);
            }
            assert(region_rewritten::<C, E>(
                reading,
                mid_e,
                *executor,
                mid,
                cfg.body(),
                regions@[i as int]@,
            ));
        }
    }
}

} // verus!
