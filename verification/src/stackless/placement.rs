//! What the discovered places have in common: each holds the marker it was
//! found by, and the coroutines of a region do not overlap.
use vstd::prelude::*;

use crate::stackless::cfg::mark_of;
use crate::stackless::model::{in_id_order, Body, Stmt};
use crate::stackless::scan::{
    block_marks, block_points, kind_of, marks, points_between, points_of, regions_of, scan,
    Coroutine, Mark, Reading, RegionView, ScanState, SuspKind,
};
use crate::vocab::{id_before, CfgId, Marker};

verus! {

/// Block sizes fit a statement index.
pub open spec fn fits<B, L>(body: Body<B, L>) -> bool {
    forall|b: B| #[trigger] body.has(b) ==> body.blocks[b].stmts.len() <= usize::MAX
}

/// Place `p` comes before place `q` in a body listed in id order.
pub open spec fn before<B: CfgId>(p: (B, usize), q: (B, usize)) -> bool {
    id_before(p.0, q.0) || (p.0 == q.0 && p.1 < q.1)
}

/// The statement at `p` is a marker of the given category.
pub open spec fn marked<B, L>(
    reading: Reading,
    body: Body<B, L>,
    p: (B, usize),
    marker: Marker,
) -> bool {
    body.at(p) && mark_of(reading, body.stmt(p)) == Some(marker)
}

/// A marker after which control leaves its block for good: a suspension, or the
/// end of a coroutine.
pub open spec fn is_stop(mark: Option<Marker>) -> bool {
    kind_of(mark) is Some || mark == Some(Marker::CoroutineEnd)
}

/// The layout rule for one block: no marker follows a suspension point or the
/// end of a coroutine.
pub open spec fn tidy_stmts<L>(reading: Reading, stmts: Seq<Stmt<L>>) -> bool {
    forall|i: int, j: int|
        0 <= i < j < stmts.len() && is_stop(mark_of(reading, #[trigger] stmts[i])) ==> mark_of(
            reading,
            #[trigger] stmts[j],
        ) is None
}

/// The layout rule a host's IR builder keeps: a suspension point, or the end of
/// a coroutine, is the last marker of its block.
pub open spec fn tidy<B, L>(reading: Reading, body: Body<B, L>) -> bool {
    forall|b: B| #[trigger] body.has(b) ==> tidy_stmts(reading, body.blocks[b].stmts)
}

/// Each mark stands where it says, and the marks come one after another.
pub open spec fn marks_ok<B: CfgId, L>(
    reading: Reading,
    body: Body<B, L>,
    ms: Seq<Mark<B>>,
) -> bool {
    &&& forall|i: int|
        0 <= i < ms.len() ==> marked(reading, body, (#[trigger] ms[i]).at, ms[i].marker)
    &&& forall|i: int, j: int|
        0 <= i < j < ms.len() ==> before((#[trigger] ms[i]).at, (#[trigger] ms[j]).at)
}

pub open spec fn seen<B>(ms: Seq<Mark<B>>, p: (B, usize)) -> bool {
    exists|i: int| 0 <= i < ms.len() && (#[trigger] ms[i]).at == p
}

/// The coroutines lie between their own begin and end markers, one after
/// another.
pub open spec fn coroutines_ok<B: CfgId, L>(
    reading: Reading,
    body: Body<B, L>,
    cs: Seq<Coroutine<B>>,
) -> bool {
    &&& forall|j: int|
        0 <= j < cs.len() ==> {
            &&& marked(reading, body, (#[trigger] cs[j]).begin, Marker::CoroutineBegin)
            &&& marked(reading, body, cs[j].end, Marker::CoroutineEnd)
            &&& before(cs[j].begin, cs[j].end)
        }
    &&& forall|j: int, k: int|
        0 <= j < k < cs.len() ==> before((#[trigger] cs[j]).end, (#[trigger] cs[k]).begin)
}

/// A region lies between its own begin and end markers, and so do its
/// coroutines.
pub open spec fn region_ok<B: CfgId, L>(
    reading: Reading,
    body: Body<B, L>,
    r: RegionView<B>,
) -> bool {
    &&& marked(reading, body, r.region_begin, Marker::RegionBegin)
    &&& marked(reading, body, r.region_end, Marker::RegionEnd)
    &&& before(r.region_begin, r.region_end)
    &&& coroutines_ok(reading, body, r.coroutines)
}

spec fn state_ok<B: CfgId, L>(
    reading: Reading,
    body: Body<B, L>,
    ms: Seq<Mark<B>>,
    st: ScanState<B>,
) -> bool {
    &&& st.region matches Some(p) ==> seen(ms, p) && marked(
        reading,
        body,
        p,
        Marker::RegionBegin,
    )
    &&& coroutines_ok(reading, body, st.coroutines)
    &&& forall|j: int| 0 <= j < st.coroutines.len() ==> seen(ms, (#[trigger] st.coroutines[j]).end)
    &&& st.coro_begin matches Some(p) ==> {
        &&& seen(ms, p)
        &&& marked(reading, body, p, Marker::CoroutineBegin)
        &&& forall|j: int|
            0 <= j < st.coroutines.len() ==> before((#[trigger] st.coroutines[j]).end, p)
    }
    &&& forall|j: int|
        0 <= j < st.closed.len() ==> region_ok(reading, body, #[trigger] st.closed[j])
}

proof fn lemma_block_marks<B, L>(reading: Reading, b: B, stmts: Seq<Stmt<L>>)
    requires
        stmts.len() <= usize::MAX,
    ensures
        ({
            let ms = block_marks(reading, b, stmts);
            &&& forall|i: int|
                0 <= i < ms.len() ==> {
                    &&& (#[trigger] ms[i]).at.0 == b
                    &&& ms[i].at.1 < stmts.len()
                    &&& mark_of(reading, stmts[ms[i].at.1 as int]) == Some(ms[i].marker)
                }
            &&& forall|i: int, j: int|
                0 <= i < j < ms.len() ==> (#[trigger] ms[i]).at.1 < (#[trigger] ms[j]).at.1
        }),
    decreases stmts.len(),
{
    if stmts.len() > 0 {
        lemma_block_marks(reading, b, stmts.drop_last());
    }
}

pub proof fn lemma_marks<B: CfgId, L>(reading: Reading, body: Body<B, L>, listing: Seq<B>)
    requires
        fits(body),
        in_id_order(listing),
        forall|i: int| 0 <= i < listing.len() ==> body.has(#[trigger] listing[i]),
    ensures
        marks_ok(reading, body, marks(reading, body, listing)),
        forall|i: int|
            0 <= i < marks(reading, body, listing).len() ==> listing.contains(
                (#[trigger] marks(reading, body, listing)[i]).at.0,
            ),
    decreases listing.len(),
{
    if listing.len() > 0 {
        let front = listing.drop_last();
        let last = listing.last();
        lemma_marks(reading, body, front);
        lemma_block_marks(reading, last, body.blocks[last].stmts);
        let ms = marks(reading, body, front);
        let tail = block_marks(reading, last, body.blocks[last].stmts);
        let all = ms + tail;
        assert forall|i: int| 0 <= i < all.len() implies listing.contains((#[trigger] all[i]).at.0) by {
            if i < ms.len() {
                assert(all[i] == ms[i]);
                let k = front.index_of(ms[i].at.0);
                assert(listing[k] == ms[i].at.0);
            } else {
                assert(all[i] == tail[i - ms.len()]);
                assert(listing[listing.len() - 1] == last);
            }
        }
        assert forall|i: int, j: int| 0 <= i < j < all.len() implies before(
            (#[trigger] all[i]).at,
            (#[trigger] all[j]).at,
        ) by {
            if j < ms.len() {
                assert(all[i] == ms[i] && all[j] == ms[j]);
            } else if i < ms.len() {
                assert(all[i] == ms[i]);
                assert(all[j] == tail[j - ms.len()]);
                let k = front.index_of(ms[i].at.0);
                assert(id_before(listing[k], listing[listing.len() - 1]));
            } else {
                assert(all[i] == tail[i - ms.len()] && all[j] == tail[j - ms.len()]);
            }
        }
    }
}

proof fn lemma_scan<B: CfgId, L>(reading: Reading, body: Body<B, L>, ms: Seq<Mark<B>>)
    requires
        marks_ok(reading, body, ms),
    ensures
        state_ok(reading, body, ms, scan(ms)),
    decreases ms.len(),
{
    if ms.len() > 0 {
        let front = ms.drop_last();
        let m = ms.last();
        assert(marks_ok(reading, body, front)) by {
            assert forall|i: int| 0 <= i < front.len() implies marked(
                reading,
                body,
                (#[trigger] front[i]).at,
                front[i].marker,
            ) by {
                assert(front[i] == ms[i]);
            }
            assert forall|i: int, j: int| 0 <= i < j < front.len() implies before(
                (#[trigger] front[i]).at,
                (#[trigger] front[j]).at,
            ) by {
                assert(front[i] == ms[i] && front[j] == ms[j]);
            }
        }
        lemma_scan(reading, body, front);
        assert(ms[ms.len() - 1] == m);
        assert forall|p: (B, usize)| seen(front, p) implies #[trigger] seen(ms, p) && before(p, m.at) by {
            let i = choose|i: int| 0 <= i < front.len() && (#[trigger] front[i]).at == p;
            assert(ms[i].at == p);
        }
        assert(seen(ms, m.at));
        let st = scan(front);
        let next = scan(ms);
        assert(next == st.read(m));
    }
}

/// The regions found in a body listed in id order lie between their markers, and
/// their coroutines follow one another.
pub proof fn lemma_regions_ok<B: CfgId, L>(reading: Reading, body: Body<B, L>, r: RegionView<B>)
    requires
        body.wf(),
        fits(body),
        in_id_order(body.order),
        regions_of(reading, body).contains(r),
    ensures
        region_ok(reading, body, r),
{
    assert forall|i: int| 0 <= i < body.order.len() implies body.has(#[trigger] body.order[i]) by {
        assert(body.order.contains(body.order[i]));
    }
    lemma_marks(reading, body, body.order);
    lemma_scan(reading, body, marks(reading, body, body.order));
}

/// Each suspension point stands where it says, with the kind it says.
pub open spec fn points_ok<B: CfgId, L>(
    reading: Reading,
    body: Body<B, L>,
    begin: B,
    end: B,
    ps: Seq<(B, usize, SuspKind)>,
) -> bool {
    &&& forall|i: int|
        0 <= i < ps.len() ==> {
            let p = #[trigger] ps[i];
            &&& body.at((p.0, p.1))
            &&& kind_of(mark_of(reading, body.stmt((p.0, p.1)))) == Some(p.2)
            &&& !id_before(p.0, begin)
            &&& !id_before(end, p.0)
        }
    &&& forall|i: int, j: int|
        0 <= i < j < ps.len() ==> before(
            ((#[trigger] ps[i]).0, ps[i].1),
            ((#[trigger] ps[j]).0, ps[j].1),
        )
}

proof fn lemma_block_points<B, L>(reading: Reading, b: B, stmts: Seq<Stmt<L>>)
    requires
        stmts.len() <= usize::MAX,
    ensures
        ({
            let ps = block_points(reading, b, stmts);
            &&& forall|i: int|
                0 <= i < ps.len() ==> {
                    &&& (#[trigger] ps[i]).0 == b
                    &&& ps[i].1 < stmts.len()
                    &&& kind_of(mark_of(reading, stmts[ps[i].1 as int])) == Some(ps[i].2)
                }
            &&& forall|i: int, j: int|
                0 <= i < j < ps.len() ==> (#[trigger] ps[i]).1 < (#[trigger] ps[j]).1
        }),
    decreases stmts.len(),
{
    if stmts.len() > 0 {
        lemma_block_points(reading, b, stmts.drop_last());
    }
}

proof fn lemma_points_between<B: CfgId, L>(
    reading: Reading,
    body: Body<B, L>,
    listing: Seq<B>,
    begin: B,
    end: B,
)
    requires
        fits(body),
        in_id_order(listing),
        forall|i: int| 0 <= i < listing.len() ==> body.has(#[trigger] listing[i]),
    ensures
        points_ok(reading, body, begin, end, points_between(reading, body, listing, begin, end)),
        forall|i: int|
            0 <= i < points_between(reading, body, listing, begin, end).len() ==> listing.contains(
                (#[trigger] points_between(reading, body, listing, begin, end)[i]).0,
            ),
    decreases listing.len(),
{
    if listing.len() > 0 {
        let b = listing.first();
        let rest = listing.drop_first();
        assert forall|i: int| 0 <= i < rest.len() implies body.has(#[trigger] rest[i]) by {
            assert(rest[i] == listing[i + 1]);
        }
        assert forall|i: int, j: int| 0 <= i < j < rest.len() implies id_before(
            #[trigger] rest[i],
            #[trigger] rest[j],
        ) by {
            assert(rest[i] == listing[i + 1] && rest[j] == listing[j + 1]);
        }
        lemma_points_between(reading, body, rest, begin, end);
        lemma_block_points(reading, b, body.blocks[b].stmts);
        let head = block_points(reading, b, body.blocks[b].stmts);
        let tail = points_between(reading, body, rest, begin, end);
        let all = points_between(reading, body, listing, begin, end);
        assert forall|i: int| 0 <= i < tail.len() implies listing.contains((#[trigger] tail[i]).0)
            && id_before(b, tail[i].0) by {
            let k = rest.index_of(tail[i].0);
            assert(listing[k + 1] == tail[i].0);
            assert(id_before(listing[0], listing[k + 1]));
        }
        if !id_before(b, begin) && !id_before(end, b) {
            assert(all == head + tail);
            assert(listing[0] == b);
            assert forall|i: int| 0 <= i < all.len() implies listing.contains(
                (#[trigger] all[i]).0,
            ) by {
                if i >= head.len() {
                    assert(all[i] == tail[i - head.len()]);
                }
            }
            assert forall|i: int, j: int| 0 <= i < j < all.len() implies before(
                ((#[trigger] all[i]).0, all[i].1),
                ((#[trigger] all[j]).0, all[j].1),
            ) by {
                if i >= head.len() {
                    assert(all[i] == tail[i - head.len()] && all[j] == tail[j - head.len()]);
                } else if j >= head.len() {
                    assert(all[i] == head[i] && all[j] == tail[j - head.len()]);
                } else {
                    assert(all[i] == head[i] && all[j] == head[j]);
                }
            }
        }
    }
}

/// The suspension points of a coroutine stand where they say, inside the
/// coroutine's block range.
pub proof fn lemma_points_ok<B: CfgId, L>(reading: Reading, body: Body<B, L>, c: Coroutine<B>)
    requires
        body.wf(),
        fits(body),
        in_id_order(body.order),
    ensures
        points_ok(reading, body, c.begin.0, c.end.0, points_of(reading, body, c)),
{
    assert forall|i: int| 0 <= i < body.order.len() implies body.has(#[trigger] body.order[i]) by {
        assert(body.order.contains(body.order[i]));
    }
    lemma_points_between(reading, body, body.order, c.begin.0, c.end.0);
}

} // verus!
