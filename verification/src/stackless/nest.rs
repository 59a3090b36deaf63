//! Regions and coroutines that are nested as brackets are, and why nothing is left
//! of them once they have been rewritten.
use vstd::prelude::*;

use crate::stackless::cfg::mark_of;
use crate::stackless::fence::{
    fenced, fences_left, is_fence, nth, region_place, spot, yields_at, Places,
};
use crate::stackless::model::{in_id_order, Body, Stmt};
use crate::stackless::placement::{
    before, fits, is_stop, lemma_marks, lemma_points_ok, marked, marks_ok, tidy, tidy_stmts,
};
use crate::stackless::scan::{
    block_marks, block_points, kind_of, marks, points_between, points_of, regions_of, scan,
    Coroutine, Mark, Reading, RegionView, SuspKind,
};
use crate::vocab::{id_before, lawful_ids, CfgId, Marker};

verus! {

/// Something that has been opened and not yet closed.
pub enum Level {
    /// A region; `used` once it has held a coroutine.
    Region { used: bool },
    Coroutine,
}

/// What is open after one more marker, from the outside in, if the marker may
/// stand there. Regions stand at the top or in a coroutine, coroutines in a region,
/// yields in a coroutine; a region holds a coroutine at least.
pub open spec fn opened_by(open: Seq<Level>, marker: Marker) -> Option<Seq<Level>> {
    let n = open.len() as int;
    match marker {
        Marker::RegionBegin => if n == 0 || open[n - 1] == Level::Coroutine {
            Some(open.push(Level::Region { used: false }))
        } else {
            None
        },
        Marker::RegionEnd => if n > 0 && open[n - 1] == (Level::Region { used: true }) {
            Some(open.take(n - 1))
        } else {
            None
        },
        Marker::CoroutineBegin => if n > 0 && open[n - 1] is Region {
            Some(open.push(Level::Coroutine))
        } else {
            None
        },
        Marker::CoroutineEnd => if n > 1 && open[n - 1] == Level::Coroutine {
            Some(open.take(n - 2).push(Level::Region { used: true }))
        } else {
            None
        },
        Marker::Yield => if n > 0 && open[n - 1] == Level::Coroutine {
            Some(open)
        } else {
            None
        },
        _ => Some(open),
    }
}

/// What the markers leave open, if each may stand where it does.
pub open spec fn nest<B>(ms: Seq<Mark<B>>) -> Option<Seq<Level>>
    decreases ms.len(),
{
    if ms.len() == 0 {
        Some(Seq::empty())
    } else {
        match nest(ms.drop_last()) {
            Some(open) => opened_by(open, ms.last().marker),
            None => None,
        }
    }
}

/// The regions and coroutines of the body are nested, and all of them are closed.
pub open spec fn nested<B, L>(reading: Reading, body: Body<B, L>) -> bool {
    nest(marks(reading, body, body.order)) == Some(Seq::<Level>::empty())
}

/// No marker is left that delimits a region or a coroutine, and no yield.
pub open spec fn plain<B, L>(reading: Reading, body: Body<B, L>) -> bool {
    forall|pos: (B, int)| !#[trigger] fenced(reading, body, pos)
}

/// The places that rewriting a region clears.
pub open spec fn cleared<B: CfgId, L>(
    reading: Reading,
    body: Body<B, L>,
    r: RegionView<B>,
) -> Places<B> {
    |pos: (B, int)|
        region_place(r)(pos) || exists|j: int|
            0 <= j < r.coroutines.len() && {
                let points = points_of(reading, body, #[trigger] r.coroutines[j]);
                yields_at(points, points.len() as int)(pos)
            }
}

/// What follows the opening marker of a region in its block is cleared with the
/// region.
pub open spec fn own_tail<B: CfgId, L>(
    reading: Reading,
    body: Body<B, L>,
    r: RegionView<B>,
) -> bool {
    forall|pos: (B, int)| #[trigger]
        fenced(reading, body, pos) && pos.0 == r.region_begin.0 && pos.1 > r.region_begin.1
            ==> cleared(reading, body, r)(pos)
}

/// Some of the markers, in order.
pub open spec fn sift<B>(ms: Seq<Mark<B>>, keep: spec_fn(Mark<B>) -> bool) -> Seq<Mark<B>>
    decreases ms.len(),
{
    if ms.len() == 0 {
        Seq::empty()
    } else {
        let front = sift(ms.drop_last(), keep);
        if keep(ms.last()) {
            front.push(ms.last())
        } else {
            front
        }
    }
}

/// The markers that are to be erased.
pub open spec fn erasable<B>() -> spec_fn(Mark<B>) -> bool {
    |m: Mark<B>| is_fence(Some(m.marker))
}

/// The markers of a body that are to be erased, in listing order.
pub open spec fn outline<B, L>(reading: Reading, body: Body<B, L>) -> Seq<Mark<B>> {
    sift(marks(reading, body, body.order), erasable())
}

proof fn lemma_sift_add<B>(a: Seq<Mark<B>>, b: Seq<Mark<B>>, keep: spec_fn(Mark<B>) -> bool)
    ensures
        sift(a + b, keep) == sift(a, keep) + sift(b, keep),
    decreases b.len(),
{
    if b.len() == 0 {
        assert(a + b =~= a);
    } else {
        assert((a + b).drop_last() =~= a + b.drop_last());
        lemma_sift_add(a, b.drop_last(), keep);
        assert(sift(a + b, keep) =~= sift(a, keep) + sift(b, keep));
    }
}

/// Markers that are not to be erased open and close nothing.
proof fn lemma_nest_sift<B: CfgId>(ms: Seq<Mark<B>>)
    ensures
        nest(sift(ms, erasable())) == nest(ms),
        scan(sift(ms, erasable())) == scan(ms),
    decreases ms.len(),
{
    if ms.len() > 0 {
        let front = ms.drop_last();
        lemma_nest_sift(front);
        let s = sift(front, erasable());
        if erasable()(ms.last()) {
            assert(s.push(ms.last()).drop_last() =~= s);
        }
    }
}

proof fn lemma_sift_ok<B: CfgId, L>(reading: Reading, body: Body<B, L>, ms: Seq<Mark<B>>)
    requires
        marks_ok(reading, body, ms),
    ensures
        marks_ok(reading, body, sift(ms, erasable())),
        forall|x: int|
            0 <= x < sift(ms, erasable()).len() ==> ms.contains(
                #[trigger] sift(ms, erasable())[x],
            ) && is_fence(Some(sift(ms, erasable())[x].marker)),
    decreases ms.len(),
{
    if ms.len() > 0 {
        let front = ms.drop_last();
        let m = ms.last();
        assert(ms[ms.len() - 1] == m);
        assert(marks_ok(reading, body, front)) by {
            assert forall|i: int| 0 <= i < front.len() implies marked(
                reading,
                body,
                (#[trigger] front[i]).at,
                front[i].marker,
            ) by {
                assert(front[i] == ms[i]);
            }
            assert forall|i: int, j: int| 0 <= i < j < front.len() implies before(
                (#[trigger] front[i]).at,
                (#[trigger] front[j]).at,
            ) by {
                assert(front[i] == ms[i] && front[j] == ms[j]);
            }
        }
        lemma_sift_ok(reading, body, front);
        let s = sift(front, erasable());
        let t = sift(ms, erasable());
        assert forall|x: int| 0 <= x < s.len() implies ms.contains(#[trigger] s[x]) && before(
            s[x].at,
            m.at,
        ) by {
            let y = front.index_of(s[x]);
            assert(front[y] == ms[y]);
        }
        assert forall|x: int, y: int| 0 <= x < y < t.len() implies before(
            (#[trigger] t[x]).at,
            (#[trigger] t[y]).at,
        ) by {
            assert(t[x] == s[x]);
            if y < s.len() {
                assert(t[y] == s[y]);
            }
        }
    }
}

proof fn lemma_nest_prefix<B>(ms: Seq<Mark<B>>, n: int)
    requires
        0 <= n <= ms.len(),
        nest(ms) is Some,
    ensures
        nest(ms.take(n)) is Some,
    decreases ms.len() - n,
{
    if n < ms.len() {
        lemma_nest_prefix(ms, n + 1);
        assert(ms.take(n + 1).drop_last() =~= ms.take(n));
    } else {
        assert(ms.take(n) =~= ms);
    }
}

/// What follows depends on what is open alone.
proof fn lemma_nest_swap<B>(a: Seq<Mark<B>>, c: Seq<Mark<B>>, rest: Seq<Mark<B>>)
    requires
        nest(a) == nest(c),
    ensures
        nest(a + rest) == nest(c + rest),
    decreases rest.len(),
{
    if rest.len() == 0 {
        assert(a + rest =~= a);
        assert(c + rest =~= c);
    } else {
        lemma_nest_swap(a, c, rest.drop_last());
        assert((a + rest).drop_last() =~= a + rest.drop_last());
        assert((c + rest).drop_last() =~= c + rest.drop_last());
    }
}

/// Regions that have been closed stay closed.
proof fn lemma_closed_stays<B: CfgId>(ms: Seq<Mark<B>>, n: int)
    requires
        0 <= n <= ms.len(),
    ensures
        scan(ms.take(n)).closed.len() <= scan(ms).closed.len(),
        forall|k: int|
            0 <= k < scan(ms.take(n)).closed.len() ==> #[trigger] scan(ms).closed[k] == scan(
                ms.take(n),
            ).closed[k],
    decreases ms.len() - n,
{
    if n < ms.len() {
        lemma_closed_stays(ms, n + 1);
        assert(ms.take(n + 1).drop_last() =~= ms.take(n));
    } else {
        assert(ms.take(n) =~= ms);
    }
}

/// The coroutine lies between the `y`-th and the `z`-th marker.
spec fn spans<B: CfgId>(ms: Seq<Mark<B>>, c: Coroutine<B>, y: int, z: int) -> bool {
    &&& 0 <= y < z < ms.len()
    &&& ms[y].at == c.begin
    &&& ms[y].marker == Marker::CoroutineBegin
    &&& ms[z].at == c.end
    &&& ms[z].marker == Marker::CoroutineEnd
}

/// The coroutine lies between the `i`-th marker and the `n`-th.
spec fn held<B: CfgId>(ms: Seq<Mark<B>>, c: Coroutine<B>, i: int, n: int) -> bool {
    exists|y: int, z: int| i < y && z < n && #[trigger] spans(ms, c, y, z)
}

spec fn owned<B: CfgId>(ms: Seq<Mark<B>>, cs: Seq<Coroutine<B>>, i: int, n: int) -> bool {
    forall|k: int| 0 <= k < cs.len() ==> held(ms, #[trigger] cs[k], i, n)
}

/// The `x`-th marker delimits one of the coroutines, or is a yield in it.
spec fn within<B: CfgId>(ms: Seq<Mark<B>>, cs: Seq<Coroutine<B>>, i: int, n: int, x: int) -> bool {
    exists|k: int, y: int, z: int|
        {
            &&& 0 <= k < cs.len()
            &&& i < y <= x <= z < n
            &&& #[trigger] spans(ms, cs[k], y, z)
            &&& (x == y || x == z || ms[x].marker == Marker::Yield)
        }
}

/// After the first `n` markers, none of which closes a region: the `i`-th opens the
/// innermost region, and the `o`-th the coroutine that is open in it. With `o == i`
/// none is.
spec fn inside<B: CfgId>(ms: Seq<Mark<B>>, n: int, i: int, o: int) -> bool {
    let open = nest(ms.take(n));
    let seen = scan(ms.take(n));
    let outer = nest(ms.take(i));
    let region = outer->0.push(Level::Region { used: seen.coroutines.len() > 0 });
    &&& 0 <= i <= o < n <= ms.len()
    &&& ms[i].marker == Marker::RegionBegin
    &&& outer is Some
    &&& seen.region == Some(ms[i].at)
    &&& seen.closed.len() == 0
    &&& owned(ms, seen.coroutines, i, n)
    &&& if o == i {
        &&& open == Some(region)
        &&& forall|x: int| i < x < n ==> #[trigger] within(ms, seen.coroutines, i, n, x)
    } else {
        &&& open == Some(region.push(Level::Coroutine))
        &&& ms[o].marker == Marker::CoroutineBegin
        &&& seen.coro_begin == Some(ms[o].at)
        &&& forall|x: int| i < x < o ==> #[trigger] within(ms, seen.coroutines, i, n, x)
        &&& forall|x: int| o < x < n ==> (#[trigger] ms[x]).marker == Marker::Yield
    }
}

/// What lies within the coroutines closed so far still does when there are more,
/// further on.
proof fn lemma_within_grows<B: CfgId>(
    ms: Seq<Mark<B>>,
    cs: Seq<Coroutine<B>>,
    more: Seq<Coroutine<B>>,
    i: int,
    n: int,
    x: int,
)
    requires
        within(ms, cs, i, n, x),
        cs.len() <= more.len(),
        forall|k: int| 0 <= k < cs.len() ==> #[trigger] more[k] == cs[k],
    ensures
        within(ms, more, i, n + 1, x),
{
    let (k, y, z) = choose|k: int, y: int, z: int|
        {
            &&& 0 <= k < cs.len()
            &&& i < y <= x <= z < n
            &&& #[trigger] spans(ms, cs[k], y, z)
            &&& (x == y || x == z || ms[x].marker == Marker::Yield)
        };
    assert(spans(ms, more[k], y, z));
}

proof fn lemma_owned_grows<B: CfgId>(ms: Seq<Mark<B>>, cs: Seq<Coroutine<B>>, i: int, n: int)
    requires
        owned(ms, cs, i, n),
    ensures
        owned(ms, cs, i, n + 1),
{
    assert forall|k: int| 0 <= k < cs.len() implies held(ms, #[trigger] cs[k], i, n + 1) by {
        assert(held(ms, cs[k], i, n));
        let (y, z) = choose|y: int, z: int| i < y && z < n && #[trigger] spans(ms, cs[k], y, z);
        assert(spans(ms, cs[k], y, z));
    }
}

proof fn lemma_inside<B: CfgId>(ms: Seq<Mark<B>>, n: int) -> (io: (int, int))
    requires
        0 < n <= ms.len(),
        nest(ms) is Some,
        forall|x: int|
            0 <= x < n ==> is_fence(Some((#[trigger] ms[x]).marker)) && ms[x].marker
                != Marker::RegionEnd,
    ensures
        inside(ms, n, io.0, io.1),
    decreases n,
{
    lemma_nest_prefix(ms, n);
    lemma_nest_prefix(ms, n - 1);
    let front = ms.take(n - 1);
    let all = ms.take(n);
    let m = ms[n - 1];
    assert(all.drop_last() =~= front);
    assert(all.last() == m);
    let st = scan(front);
    let next = scan(all);
    if n == 1 {
        assert(front =~= Seq::empty());
        assert(ms.take(0) =~= Seq::empty());
        (0, 0)
    } else {
        let (i, o) = lemma_inside(ms, n - 1);
        lemma_owned_grows(ms, st.coroutines, i, n - 1);
        match m.marker {
            Marker::RegionBegin => (n - 1, n - 1),
            Marker::CoroutineBegin => {
                assert forall|x: int| i < x < n - 1 implies #[trigger] within(
                    ms,
                    next.coroutines,
                    i,
                    n,
                    x,
                ) by {
                    assert(within(ms, st.coroutines, i, n - 1, x));
                    lemma_within_grows(ms, st.coroutines, next.coroutines, i, n - 1, x);
                }
                (i, n - 1)
            },
            Marker::CoroutineEnd => {
                let c = Coroutine { begin: ms[o].at, end: m.at };
                let outer = nest(ms.take(i))->0;
                let open = nest(front)->0;
                assert(o != i);
                assert(next.coroutines == st.coroutines.push(c));
                assert(spans(ms, c, o, n - 1));
                let k = next.coroutines.len() - 1;
                assert(spans(ms, next.coroutines[k], o, n - 1));
                assert(open.take(open.len() - 2) =~= outer);
                assert forall|x: int| i < x < n implies #[trigger] within(
                    ms,
                    next.coroutines,
                    i,
                    n,
                    x,
                ) by {
                    if x < o {
                        assert(within(ms, st.coroutines, i, n - 1, x));
                        lemma_within_grows(ms, st.coroutines, next.coroutines, i, n - 1, x);
                    }
                }
                assert forall|k: int| 0 <= k < next.coroutines.len() implies held(
                    ms,
                    #[trigger] next.coroutines[k],
                    i,
                    n,
                ) by {
                    if k < st.coroutines.len() {
                        assert(next.coroutines[k] == st.coroutines[k]);
                    }
                }
                (i, i)
            },
            _ => {
                assert(o != i);
                assert forall|x: int| i < x < o implies #[trigger] within(
                    ms,
                    next.coroutines,
                    i,
                    n,
                    x,
                ) by {
                    assert(within(ms, st.coroutines, i, n - 1, x));
                    lemma_within_grows(ms, st.coroutines, next.coroutines, i, n - 1, x);
                }
                (i, o)
            },
        }
    }
}

/// The first marker that closes a region, if there is one among the first `n`.
proof fn lemma_first_end<B>(ms: Seq<Mark<B>>, n: int) -> (j: int)
    requires
        0 <= n <= ms.len(),
    ensures
        0 <= j <= n,
        j < n ==> ms[j].marker == Marker::RegionEnd,
        forall|x: int| 0 <= x < j ==> (#[trigger] ms[x]).marker != Marker::RegionEnd,
    decreases n,
{
    if n == 0 {
        0
    } else {
        let j = lemma_first_end(ms, n - 1);
        if j < n - 1 {
            j
        } else if ms[n - 1].marker == Marker::RegionEnd {
            n - 1
        } else {
            n
        }
    }
}

/// The region `r` lies between the `i`-th and the `j`-th of the markers, with
/// nothing in between that is not its own.
spec fn innermost<B: CfgId>(ms: Seq<Mark<B>>, r: RegionView<B>, i: int, j: int) -> bool {
    &&& 0 <= i < j < ms.len()
    &&& nest(ms.take(j + 1)) == nest(ms.take(i))
    &&& r.region_begin == ms[i].at
    &&& r.region_end == ms[j].at
    &&& r.coroutines.len() > 0
    &&& owned(ms, r.coroutines, i, j)
    &&& forall|x: int| i < x < j ==> #[trigger] within(ms, r.coroutines, i, j, x)
}

/// Of nested markers, the region that is closed first is the first that is found,
/// and it has a coroutine.
proof fn lemma_first_region<B: CfgId>(ms: Seq<Mark<B>>) -> (ij: (int, int))
    requires
        ms.len() > 0,
        nest(ms) == Some(Seq::<Level>::empty()),
        forall|x: int| 0 <= x < ms.len() ==> is_fence(Some((#[trigger] ms[x]).marker)),
    ensures
        scan(ms).closed.len() > 0,
        innermost(ms, scan(ms).closed[0], ij.0, ij.1),
{
    let j = lemma_first_end(ms, ms.len() as int);
    if j == ms.len() {
        let (i, o) = lemma_inside(ms, j);
        assert(ms.take(j) =~= ms);
        assert(nest(ms)->0.len() > 0);
    } else if j == 0 {
        lemma_nest_prefix(ms, 1);
        assert(ms.take(1).drop_last() =~= Seq::empty());
    }
    let (i, o) = lemma_inside(ms, j);
    lemma_nest_prefix(ms, j + 1);
    let front = ms.take(j);
    let all = ms.take(j + 1);
    assert(all.drop_last() =~= front);
    assert(all.last() == ms[j]);
    let outer = nest(ms.take(i))->0;
    let open = nest(front)->0;
    assert(o == i);
    assert(open.take(open.len() - 1) =~= outer);
    assert(scan(all).closed.len() == 1);
    let r = scan(all).closed[0];
    lemma_closed_stays(ms, j + 1);
    assert(scan(ms).closed[0] == r);
    (i, j)
}

/// All that stays where it is not cleared.
spec fn keepers<B>(gone: Places<B>) -> spec_fn(Mark<B>) -> bool {
    |m: Mark<B>| !gone(spot(m.at))
}

spec fn least(a: int, b: int) -> int {
    if a <= b {
        a
    } else {
        b
    }
}

/// The markers of one block that are to be erased, through its first `n`
/// statements.
spec fn block_outline<B, L>(reading: Reading, body: Body<B, L>, b: B, n: int) -> Seq<Mark<B>> {
    let stmts = body.blocks[b].stmts;
    sift(block_marks(reading, b, stmts.take(least(n, stmts.len() as int))), erasable())
}

proof fn lemma_outline_step<B, L>(reading: Reading, body: Body<B, L>, b: B, n: int)
    requires
        0 < n,
    ensures
        ({
            let stmts = body.blocks[b].stmts;
            let front = block_outline(reading, body, b, n - 1);
            block_outline(reading, body, b, n) == if n <= stmts.len() && is_fence(
                mark_of(reading, stmts[n - 1]),
            ) {
                front.push(
                    Mark {
                        at: (b, (n - 1) as usize),
                        marker: mark_of(reading, stmts[n - 1])->0,
                    },
                )
            } else {
                front
            }
        }),
{
    let stmts = body.blocks[b].stmts;
    if n <= stmts.len() {
        let head = stmts.take(n);
        assert(head.drop_last() =~= stmts.take(n - 1));
        assert(head.last() == stmts[n - 1]);
        let ms = block_marks(reading, b, stmts.take(n - 1));
        if let Some(marker) = mark_of(reading, stmts[n - 1]) {
            let m = Mark { at: (b, (n - 1) as usize), marker };
            assert(block_marks(reading, b, head) == ms.push(m));
            assert(ms.push(m).drop_last() =~= ms);
        } else {
            assert(block_marks(reading, b, head) == ms);
        }
    }
}

proof fn lemma_block_left<B, L>(
    reading: Reading,
    before: Body<B, L>,
    after: Body<B, L>,
    gone: Places<B>,
    b: B,
    n: int,
)
    requires
        fences_left(reading, before, after, gone),
        before.has(b),
        after.has(b),
        before.blocks[b].stmts.len() <= usize::MAX,
        0 <= n,
    ensures
        sift(block_outline(reading, before, b, n), keepers(gone)) == block_outline(
            reading,
            after,
            b,
            n,
        ),
    decreases n,
{
    let s = before.blocks[b].stmts;
    let t = after.blocks[b].stmts;
    if n == 0 {
        assert(s.take(0) =~= Seq::empty());
        assert(t.take(0) =~= Seq::empty());
    } else {
        lemma_block_left(reading, before, after, gone, b, n - 1);
        let pos = (b, n - 1);
        lemma_outline_step(reading, before, b, n);
        lemma_outline_step(reading, after, b, n);
        let front = block_outline(reading, before, b, n - 1);
        assert(fenced(reading, before, pos) <==> n <= s.len() && is_fence(
            mark_of(reading, s[n - 1]),
        ));
        assert(fenced(reading, after, pos) <==> n <= t.len() && is_fence(
            mark_of(reading, t[n - 1]),
        ));
        if fenced(reading, before, pos) {
            assert(spot((b, (n - 1) as usize)) == pos);
            let mark = block_outline(reading, before, b, n).last();
            assert(front.push(mark).drop_last() =~= front);
            if !gone(pos) {
                assert(fenced(reading, after, pos));
            }
        }
    }
}

proof fn lemma_listing_left<B, L>(
    reading: Reading,
    before: Body<B, L>,
    after: Body<B, L>,
    gone: Places<B>,
    n: int,
)
    requires
        fences_left(reading, before, after, gone),
        before.wf(),
        after.wf(),
        fits(before),
        0 <= n <= before.order.len(),
    ensures
        sift(
            sift(marks(reading, before, before.order.take(n)), erasable()),
            keepers(gone),
        ) == sift(marks(reading, after, after.order.take(n)), erasable()),
    decreases n,
{
    if n == 0 {
        assert(before.order.take(0) =~= Seq::empty());
        assert(after.order.take(0) =~= Seq::empty());
    } else {
        lemma_listing_left(reading, before, after, gone, n - 1);
        let b = before.order[n - 1];
        assert(after.order[n - 1] == b);
        assert(before.order.take(n).drop_last() =~= before.order.take(n - 1));
        assert(after.order.take(n).drop_last() =~= after.order.take(n - 1));
        assert(before.order.contains(b));
        assert(after.order.contains(b));
        assert(before.has(b) && after.has(b));
        let s = before.blocks[b].stmts;
        let t = after.blocks[b].stmts;
        let len = if s.len() >= t.len() {
            s.len() as int
        } else {
            t.len() as int
        };
        lemma_block_left(reading, before, after, gone, b, len);
        assert(s.take(s.len() as int) =~= s);
        assert(t.take(t.len() as int) =~= t);
        let p = marks(reading, before, before.order.take(n - 1));
        let q = marks(reading, after, after.order.take(n - 1));
        let u = block_marks(reading, b, s);
        let v = block_marks(reading, b, t);
        lemma_sift_add(p, u, erasable());
        lemma_sift_add(q, v, erasable());
        lemma_sift_add(sift(p, erasable()), sift(u, erasable()), keepers(gone));
    }
}

proof fn lemma_block_bare<B, L>(reading: Reading, b: B, stmts: Seq<Stmt<L>>)
    requires
        forall|i: int| 0 <= i < stmts.len() ==> !is_fence(mark_of(reading, #[trigger] stmts[i])),
    ensures
        sift(block_marks(reading, b, stmts), erasable()).len() == 0,
    decreases stmts.len(),
{
    if stmts.len() > 0 {
        let front = stmts.drop_last();
        assert forall|i: int| 0 <= i < front.len() implies !is_fence(
            mark_of(reading, #[trigger] front[i]),
        ) by {
            assert(front[i] == stmts[i]);
        }
        lemma_block_bare(reading, b, front);
        let ms = block_marks(reading, b, front);
        if let Some(marker) = mark_of(reading, stmts.last()) {
            let m = Mark { at: (b, (stmts.len() - 1) as usize), marker };
            assert(ms.push(m).drop_last() =~= ms);
        }
    }
}

/// Blocks that have been added hold none of the markers.
proof fn lemma_outline_left<B, L>(
    reading: Reading,
    before: Body<B, L>,
    after: Body<B, L>,
    gone: Places<B>,
    n: int,
)
    requires
        fences_left(reading, before, after, gone),
        before.wf(),
        after.wf(),
        fits(before),
        before.order.len() <= n <= after.order.len(),
    ensures
        sift(outline(reading, before), keepers(gone)) == sift(
            marks(reading, after, after.order.take(n)),
            erasable(),
        ),
    decreases n,
{
    if n == before.order.len() {
        lemma_listing_left(reading, before, after, gone, n);
        assert(before.order.take(n) =~= before.order);
    } else {
        lemma_outline_left(reading, before, after, gone, n - 1);
        let b = after.order[n - 1];
        let stmts = after.blocks[b].stmts;
        assert(after.order.take(n).drop_last() =~= after.order.take(n - 1));
        assert(!before.has(b)) by {
            if before.has(b) {
                assert(before.order.contains(b));
                let k = before.order.index_of(b);
                assert(after.order[k] == b);
            }
        }
        assert(after.order.contains(b));
        assert forall|i: int| 0 <= i < stmts.len() implies !is_fence(
            mark_of(reading, #[trigger] stmts[i]),
        ) by {
            assert(!fenced(reading, after, (b, i)));
        }
        lemma_block_bare(reading, b, stmts);
        let q = marks(reading, after, after.order.take(n - 1));
        let v = block_marks(reading, b, stmts);
        lemma_sift_add(q, v, erasable());
        assert(sift(q, erasable()) + sift(v, erasable()) =~= sift(q, erasable()));
    }
}

proof fn lemma_block_points_full<B, L>(reading: Reading, b: B, stmts: Seq<Stmt<L>>, i: int)
    requires
        0 <= i < stmts.len(),
        kind_of(mark_of(reading, stmts[i])) is Some,
    ensures
        block_points(reading, b, stmts).contains(
            (b, i as usize, kind_of(mark_of(reading, stmts[i]))->0),
        ),
    decreases stmts.len(),
{
    let point = (b, i as usize, kind_of(mark_of(reading, stmts[i]))->0);
    let all = block_points(reading, b, stmts);
    if i == stmts.len() - 1 {
        assert(all.last() == point);
    } else {
        let front = stmts.drop_last();
        assert(front[i] == stmts[i]);
        lemma_block_points_full(reading, b, front, i);
        let k = block_points(reading, b, front).index_of(point);
        assert(all[k] == point);
    }
}

/// A suspension in the block range of a coroutine is one of its points.
proof fn lemma_points_full<B: CfgId, L>(
    reading: Reading,
    body: Body<B, L>,
    listing: Seq<B>,
    begin: B,
    end: B,
    at: (B, usize),
)
    requires
        lawful_ids::<B>(),
        in_id_order(listing),
        listing.contains(at.0),
        at.1 < body.blocks[at.0].stmts.len(),
        kind_of(mark_of(reading, body.stmt(at))) is Some,
        !id_before(at.0, begin),
        !id_before(end, at.0),
    ensures
        points_between(reading, body, listing, begin, end).contains(
            (at.0, at.1, kind_of(mark_of(reading, body.stmt(at)))->0),
        ),
    decreases listing.len(),
{
    let point = (at.0, at.1, kind_of(mark_of(reading, body.stmt(at)))->0);
    let b = listing.first();
    let rest = listing.drop_first();
    let head = block_points(reading, b, body.blocks[b].stmts);
    let tail = points_between(reading, body, rest, begin, end);
    let all = points_between(reading, body, listing, begin, end);
    if b == at.0 {
        lemma_block_points_full(reading, b, body.blocks[b].stmts, at.1 as int);
        let k = head.index_of(point);
        assert(all == head + tail);
        assert(all[k] == point);
    } else {
        let k = listing.index_of(at.0);
        assert(rest[k - 1] == at.0);
        assert(id_before(listing[0], listing[k]));
        assert forall|i: int, j: int| 0 <= i < j < rest.len() implies id_before(
            #[trigger] rest[i],
            #[trigger] rest[j],
        ) by {
            assert(rest[i] == listing[i + 1] && rest[j] == listing[j + 1]);
        }
        lemma_points_full(reading, body, rest, begin, end, at);
        assert(!id_before(end, b));
        let x = tail.index_of(point);
        if id_before(b, begin) {
            assert(all == tail);
        } else {
            assert(all == head + tail);
            assert(all[head.len() + x] == point);
        }
    }
}

/// What is known of the outline of a tidy body.
spec fn outlined<B: CfgId, L>(reading: Reading, body: Body<B, L>, ms: Seq<Mark<B>>) -> bool {
    &&& lawful_ids::<B>()
    &&& body.wf()
    &&& fits(body)
    &&& in_id_order(body.order)
    &&& tidy(reading, body)
    &&& ms == outline(reading, body)
    &&& marks_ok(reading, body, ms)
    &&& forall|x: int| 0 <= x < ms.len() ==> is_fence(Some((#[trigger] ms[x]).marker))
}

proof fn lemma_outlined<B: CfgId, L>(reading: Reading, body: Body<B, L>)
    requires
        lawful_ids::<B>(),
        body.wf(),
        fits(body),
        in_id_order(body.order),
        tidy(reading, body),
    ensures
        outlined(reading, body, outline(reading, body)),
        nest(outline(reading, body)) == nest(marks(reading, body, body.order)),
        scan(outline(reading, body)).closed == regions_of(reading, body),
{
    assert forall|i: int| 0 <= i < body.order.len() implies body.has(#[trigger] body.order[i]) by {
        assert(body.order.contains(body.order[i]));
    }
    lemma_marks(reading, body, body.order);
    lemma_sift_ok(reading, body, marks(reading, body, body.order));
    lemma_nest_sift(marks(reading, body, body.order));
}

/// Two of the markers stand at different places.
proof fn lemma_apart<B: CfgId, L>(
    reading: Reading,
    body: Body<B, L>,
    ms: Seq<Mark<B>>,
    x: int,
    y: int,
)
    requires
        outlined(reading, body, ms),
        0 <= x < ms.len(),
        0 <= y < ms.len(),
    ensures
        x != y ==> spot(ms[x].at) != spot(ms[y].at),
        before(ms[x].at, ms[y].at) ==> x < y,
{
    if x < y {
        assert(before(ms[x].at, ms[y].at));
    } else if y < x {
        assert(before(ms[y].at, ms[x].at));
    }
}

/// A yield among a coroutine's points lies between the coroutine's markers.
proof fn lemma_yield_between<B: CfgId, L>(
    reading: Reading,
    body: Body<B, L>,
    ms: Seq<Mark<B>>,
    c: Coroutine<B>,
    y: int,
    z: int,
    x: int,
)
    requires
        outlined(reading, body, ms),
        spans(ms, c, y, z),
        0 <= x < ms.len(),
        yields_at(points_of(reading, body, c), points_of(reading, body, c).len() as int)(
            spot(ms[x].at),
        ),
    ensures
        y < x < z,
{
    let ps = points_of(reading, body, c);
    let at = ms[x].at;
    let k = choose|k: int|
        0 <= k < ps.len() && (#[trigger] ps[k]).2 == SuspKind::Yield && spot(at) == (
            ps[k].0,
            ps[k].1 as int,
        );
    lemma_points_ok(reading, body, c);
    assert(at == (ps[k].0, ps[k].1));
    assert(kind_of(mark_of(reading, body.stmt(at))) == Some(SuspKind::Yield));
    assert(marked(reading, body, c.begin, Marker::CoroutineBegin)) by {
        assert(ms[y].at == c.begin);
    }
    assert(marked(reading, body, c.end, Marker::CoroutineEnd)) by {
        assert(ms[z].at == c.end);
    }
    assert(body.has(at.0));
    assert(tidy_stmts(reading, body.blocks[at.0].stmts));
    let stmts = body.blocks[at.0].stmts;
    assert(before(c.begin, at)) by {
        assert(at.0 == c.begin.0 || id_before(c.begin.0, at.0));
        if at.0 == c.begin.0 {
            assert(at.1 != c.begin.1);
            if at.1 < c.begin.1 {
                assert(is_stop(mark_of(reading, stmts[at.1 as int])));
                assert(mark_of(reading, stmts[c.begin.1 as int]) is Some);
            }
        }
    }
    assert(before(at, c.end)) by {
        assert(at.0 == c.end.0 || id_before(at.0, c.end.0));
        if at.0 == c.end.0 {
            assert(at.1 != c.end.1);
            if c.end.1 < at.1 {
                assert(is_stop(mark_of(reading, stmts[c.end.1 as int])));
                assert(mark_of(reading, stmts[at.1 as int]) is Some);
            }
        }
    }
    lemma_apart(reading, body, ms, y, x);
    lemma_apart(reading, body, ms, x, z);
}

/// Rewriting the innermost region clears exactly what lies from its first marker
/// to its last.
proof fn lemma_cleared<B: CfgId, L>(
    reading: Reading,
    body: Body<B, L>,
    ms: Seq<Mark<B>>,
    r: RegionView<B>,
    i: int,
    j: int,
    x: int,
)
    requires
        outlined(reading, body, ms),
        innermost(ms, r, i, j),
        0 <= x < ms.len(),
    ensures
        cleared(reading, body, r)(spot(ms[x].at)) <==> i <= x <= j,
{
    let pos = spot(ms[x].at);
    let at = ms[x].at;
    let cs = r.coroutines;
    if i < x < j {
        assert(within(ms, cs, i, j, x));
        let (k, y, z) = choose|k: int, y: int, z: int|
            {
                &&& 0 <= k < cs.len()
                &&& i < y <= x <= z < j
                &&& #[trigger] spans(ms, cs[k], y, z)
                &&& (x == y || x == z || ms[x].marker == Marker::Yield)
            };
        let c = cs[k];
        if x != y && x != z {
            assert(before(ms[y].at, at));
            assert(before(at, ms[z].at));
            assert(marked(reading, body, at, Marker::Yield));
            assert(body.order.contains(at.0)) by {
                assert(body.has(at.0));
            }
            lemma_points_full(reading, body, body.order, c.begin.0, c.end.0, at);
            let ps = points_of(reading, body, c);
            let q = ps.index_of((at.0, at.1, SuspKind::Yield));
            assert(ps[q].2 == SuspKind::Yield);
            assert(yields_at(ps, ps.len() as int)(pos));
        }
    }
    if cleared(reading, body, r)(pos) {
        lemma_apart(reading, body, ms, x, i);
        lemma_apart(reading, body, ms, x, j);
        if region_place(r)(pos) {
            if x != i && x != j {
                let k = choose|k: int|
                    0 <= k < cs.len() && (spot((#[trigger] cs[k]).begin) == pos || spot(cs[k].end)
                        == pos);
                assert(held(ms, cs[k], i, j));
                let (y, z) = choose|y: int, z: int|
                    i < y && z < j && #[trigger] spans(ms, cs[k], y, z);
                lemma_apart(reading, body, ms, x, y);
                lemma_apart(reading, body, ms, x, z);
            }
        } else {
            let k = choose|k: int|
                0 <= k < cs.len() && {
                    let points = points_of(reading, body, #[trigger] cs[k]);
                    yields_at(points, points.len() as int)(pos)
                };
            assert(held(ms, cs[k], i, j));
            let (y, z) = choose|y: int, z: int|
                i < y && z < j && #[trigger] spans(ms, cs[k], y, z);
            lemma_yield_between(reading, body, ms, cs[k], y, z, x);
        }
    }
}

proof fn lemma_sift_cut<B>(
    ms: Seq<Mark<B>>,
    keep: spec_fn(Mark<B>) -> bool,
    i: int,
    j: int,
    n: int,
)
    requires
        0 <= i <= j < ms.len(),
        0 <= n <= ms.len(),
        forall|x: int| 0 <= x < ms.len() ==> keep(#[trigger] ms[x]) == !(i <= x <= j),
    ensures
        sift(ms.take(n), keep) == if n <= i {
            ms.take(n)
        } else if n <= j + 1 {
            ms.take(i)
        } else {
            ms.take(i) + ms.subrange(j + 1, n)
        },
    decreases n,
{
    if n == 0 {
        assert(ms.take(0) =~= Seq::empty());
    } else {
        lemma_sift_cut(ms, keep, i, j, n - 1);
        assert(ms.take(n).drop_last() =~= ms.take(n - 1));
        assert(ms.take(n).last() == ms[n - 1]);
        if n <= i {
            assert(ms.take(n) =~= ms.take(n - 1).push(ms[n - 1]));
        } else if n == j + 2 {
            assert(ms.take(i).push(ms[n - 1]) =~= ms.take(i) + ms.subrange(j + 1, n));
        } else if n > j + 2 {
            assert((ms.take(i) + ms.subrange(j + 1, n - 1)).push(ms[n - 1]) =~= ms.take(i)
                + ms.subrange(j + 1, n));
        }
    }
}

/// Rewriting the first region of a nested body leaves it nested.
pub proof fn lemma_stays_nested<B: CfgId, L>(
    reading: Reading,
    before: Body<B, L>,
    after: Body<B, L>,
    r: RegionView<B>,
)
    requires
        lawful_ids::<B>(),
        before.wf(),
        fits(before),
        in_id_order(before.order),
        tidy(reading, before),
        nested(reading, before),
        regions_of(reading, before).len() > 0,
        r == regions_of(reading, before)[0],
        after.wf(),
        fences_left(reading, before, after, cleared(reading, before, r)),
    ensures
        nested(reading, after),
{
    let ms = outline(reading, before);
    let gone = cleared(reading, before, r);
    lemma_outlined(reading, before);
    let (i, j) = lemma_first_region(ms);
    assert forall|x: int| 0 <= x < ms.len() implies keepers(gone)(#[trigger] ms[x]) == !(i <= x
        <= j) by {
        lemma_cleared(reading, before, ms, r, i, j, x);
    }
    lemma_sift_cut(ms, keepers(gone), i, j, ms.len() as int);
    assert(ms.take(ms.len() as int) =~= ms);
    let rest = ms.skip(j + 1);
    assert(ms.subrange(j + 1, ms.len() as int) =~= rest);
    assert(sift(ms, keepers(gone)) =~= ms.take(i) + rest) by {
        if ms.len() == j + 1 {
            assert(ms.take(i) + rest =~= ms.take(i));
        }
    }
    lemma_outline_left(reading, before, after, gone, after.order.len() as int);
    assert(after.order.take(after.order.len() as int) =~= after.order);
    assert(outline(reading, after) == ms.take(i) + rest);
    lemma_nest_swap(ms.take(i), ms.take(j + 1), rest);
    assert(ms.take(j + 1) + rest =~= ms);
    lemma_nest_sift(marks(reading, after, after.order));
}

/// The first region of a nested body has a coroutine.
pub proof fn lemma_first_used<B: CfgId, L>(reading: Reading, body: Body<B, L>)
    requires
        lawful_ids::<B>(),
        body.wf(),
        fits(body),
        in_id_order(body.order),
        tidy(reading, body),
        nested(reading, body),
        regions_of(reading, body).len() > 0,
    ensures
        regions_of(reading, body)[0].coroutines.len() > 0,
{
    lemma_outlined(reading, body);
    let (i, j) = lemma_first_region(outline(reading, body));
}

proof fn lemma_block_full<B, L>(reading: Reading, body: Body<B, L>, b: B, i: int, n: int)
    requires
        0 <= i < body.blocks[b].stmts.len(),
        i < n,
        is_fence(mark_of(reading, body.blocks[b].stmts[i])),
    ensures
        block_outline(reading, body, b, n).contains(
            Mark { at: (b, i as usize), marker: mark_of(reading, body.blocks[b].stmts[i])->0 },
        ),
    decreases n,
{
    let m = Mark { at: (b, i as usize), marker: mark_of(reading, body.blocks[b].stmts[i])->0 };
    lemma_outline_step(reading, body, b, n);
    let all = block_outline(reading, body, b, n);
    if n == i + 1 {
        assert(all.last() == m);
    } else {
        lemma_block_full(reading, body, b, i, n - 1);
        let k = block_outline(reading, body, b, n - 1).index_of(m);
        assert(all[k] == m);
    }
}

/// A marker that is to be erased is in the outline.
proof fn lemma_outline_full<B, L>(reading: Reading, body: Body<B, L>, listing: Seq<B>, pos: (B, int))
    requires
        fenced(reading, body, pos),
        listing.contains(pos.0),
    ensures
        sift(marks(reading, body, listing), erasable()).contains(
            Mark { at: (pos.0, pos.1 as usize), marker: mark_of(reading, nth(body, pos))->0 },
        ),
    decreases listing.len(),
{
    let m = Mark { at: (pos.0, pos.1 as usize), marker: mark_of(reading, nth(body, pos))->0 };
    let b = listing.last();
    let stmts = body.blocks[b].stmts;
    let front = marks(reading, body, listing.drop_last());
    let tail = block_marks(reading, b, stmts);
    let head = sift(front, erasable());
    lemma_sift_add(front, tail, erasable());
    if pos.0 == b {
        lemma_block_full(reading, body, b, pos.1, stmts.len() as int);
        assert(stmts.take(stmts.len() as int) =~= stmts);
        let k = sift(tail, erasable()).index_of(m);
        assert((head + sift(tail, erasable()))[head.len() + k] == m);
    } else {
        let k = listing.index_of(pos.0);
        assert(listing.drop_last()[k] == pos.0);
        lemma_outline_full(reading, body, listing.drop_last(), pos);
        let x = head.index_of(m);
        assert((head + sift(tail, erasable()))[x] == m);
    }
}

proof fn lemma_tail_cleared<B: CfgId, L>(
    reading: Reading,
    body: Body<B, L>,
    r: RegionView<B>,
    pos: (B, int),
)
    requires
        lawful_ids::<B>(),
        body.wf(),
        fits(body),
        in_id_order(body.order),
        tidy(reading, body),
        nested(reading, body),
        regions_of(reading, body).len() > 0,
        r == regions_of(reading, body)[0],
        fenced(reading, body, pos),
        pos.0 == r.region_begin.0,
        pos.1 > r.region_begin.1,
    ensures
        cleared(reading, body, r)(pos),
{
    let ms = outline(reading, body);
    lemma_outlined(reading, body);
    let (i, j) = lemma_first_region(ms);
    let m = Mark { at: (pos.0, pos.1 as usize), marker: mark_of(reading, nth(body, pos))->0 };
    assert(body.order.contains(pos.0));
    lemma_outline_full(reading, body, body.order, pos);
    let x = ms.index_of(m);
    assert(body.has(pos.0));
    assert(spot(ms[x].at) == pos);
    assert(before(ms[i].at, ms[x].at));
    lemma_apart(reading, body, ms, i, x);
    if x > j {
        // The region would lie in one block, with the end of a coroutine in it.
        assert(held(ms, r.coroutines[0], i, j));
        let (y, z) = choose|y: int, z: int|
            i < y && z < j && #[trigger] spans(ms, r.coroutines[0], y, z);
        assert(before(ms[i].at, ms[z].at));
        assert(before(ms[z].at, ms[j].at));
        assert(before(ms[j].at, ms[x].at));
        let b = pos.0;
        assert(ms[z].at.0 == b && ms[j].at.0 == b);
        assert(marked(reading, body, ms[z].at, Marker::CoroutineEnd));
        assert(marked(reading, body, ms[j].at, ms[j].marker));
        assert(tidy_stmts(reading, body.blocks[b].stmts));
        let stmts = body.blocks[b].stmts;
        assert(is_stop(mark_of(reading, stmts[ms[z].at.1 as int])));
        assert(mark_of(reading, stmts[ms[j].at.1 as int]) is Some);
        assert(false);
    }
    lemma_cleared(reading, body, ms, r, i, j, x);
}

/// The first region of a nested body owns the tail of its opening block.
pub proof fn lemma_own_tail<B: CfgId, L>(reading: Reading, body: Body<B, L>)
    requires
        lawful_ids::<B>(),
        body.wf(),
        fits(body),
        in_id_order(body.order),
        tidy(reading, body),
        nested(reading, body),
        regions_of(reading, body).len() > 0,
    ensures
        own_tail(reading, body, regions_of(reading, body)[0]),
{
    let r = regions_of(reading, body)[0];
    assert forall|pos: (B, int)| #[trigger]
        fenced(reading, body, pos) && pos.0 == r.region_begin.0 && pos.1
            > r.region_begin.1 implies cleared(reading, body, r)(pos) by {
        lemma_tail_cleared(reading, body, r, pos);
    }
}

/// A nested body in which no region with a coroutine is found has none of the
/// markers left.
pub proof fn lemma_plain<B: CfgId, L>(reading: Reading, body: Body<B, L>)
    requires
        lawful_ids::<B>(),
        body.wf(),
        fits(body),
        in_id_order(body.order),
        tidy(reading, body),
        nested(reading, body),
        forall|k: int|
            0 <= k < regions_of(reading, body).len() ==> (#[trigger] regions_of(
                reading,
                body,
            )[k]).coroutines.len() == 0,
    ensures
        plain(reading, body),
{
    let ms = outline(reading, body);
    lemma_outlined(reading, body);
    if ms.len() > 0 {
        let (i, j) = lemma_first_region(ms);
        assert(regions_of(reading, body)[0].coroutines.len() > 0);
    }
    assert forall|pos: (B, int)| !#[trigger] fenced(reading, body, pos) by {
        if fenced(reading, body, pos) {
            assert(body.order.contains(pos.0));
            lemma_outline_full(reading, body, body.order, pos);
        }
    }
}

} // verus!
