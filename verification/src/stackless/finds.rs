//! What the search of a body finds: all the markers and no others, the regions and
//! coroutines that they delimit as brackets do, and all the suspension points.
use vstd::prelude::*;

use crate::stackless::model::{in_id_order, Body, Stmt};
use crate::stackless::placement::{before, fits, lemma_marks, lemma_points_ok};
use crate::stackless::scan::{
    block_marks, block_points, marks, points_between, points_of, scan, Coroutine, Mark, Reading,
    ScanState, SuspKind,
};
use crate::vocab::{id_before, lawful_ids, CfgId, Marker};

verus! {

/// The host reads the statement at `p` as this marker.
pub open spec fn host_reads<B, L>(
    reading: Reading,
    body: Body<B, L>,
    p: (B, usize),
    marker: Marker,
) -> bool {
    &&& body.at(p)
    &&& body.stmt(p) is Host
    &&& reading(body.stmt(p)->Host_0) == Some(marker)
}

/// The marker that a suspension of this kind is.
pub open spec fn marker_of(kind: SuspKind) -> Marker {
    match kind {
        SuspKind::Yield => Marker::Yield,
        SuspKind::GuardedRecv => Marker::GuardedRecv,
        SuspKind::ProducingSend => Marker::ProducingSend,
    }
}

proof fn lemma_block_marks_all<B, L>(reading: Reading, b: B, stmts: Seq<Stmt<L>>)
    requires
        stmts.len() <= usize::MAX,
    ensures
        forall|i: usize|
            i < stmts.len() && (#[trigger] stmts[i as int]) is Host && reading(
                stmts[i as int]->Host_0,
            ) is Some ==> block_marks(reading, b, stmts).contains(
                Mark { at: (b, i), marker: reading(stmts[i as int]->Host_0)->0 },
            ),
    decreases stmts.len(),
{
    if stmts.len() > 0 {
        let front = stmts.drop_last();
        lemma_block_marks_all(reading, b, front);
        let prior = block_marks(reading, b, front);
        let all = block_marks(reading, b, stmts);
        assert forall|i: usize|
            i < stmts.len() && (#[trigger] stmts[i as int]) is Host && reading(
                stmts[i as int]->Host_0,
            ) is Some implies all.contains(
            Mark { at: (b, i), marker: reading(stmts[i as int]->Host_0)->0 },
        ) by {
            let m = Mark { at: (b, i), marker: reading(stmts[i as int]->Host_0)->0 };
            if i < front.len() {
                assert(front[i as int] == stmts[i as int]);
                let k = prior.index_of(m);
                assert(all[k] == m);
            } else {
                assert(all.last() == m);
            }
        }
    }
}

proof fn lemma_marks_all<B, L>(
    reading: Reading,
    body: Body<B, L>,
    listing: Seq<B>,
    p: (B, usize),
    marker: Marker,
)
    requires
        fits(body),
        forall|i: int| 0 <= i < listing.len() ==> body.has(#[trigger] listing[i]),
        listing.contains(p.0),
        host_reads(reading, body, p, marker),
    ensures
        marks(reading, body, listing).contains(Mark { at: p, marker }),
    decreases listing.len(),
{
    let front = listing.drop_last();
    let last = listing.last();
    let m = Mark { at: p, marker };
    let ms = marks(reading, body, front);
    let tail = block_marks(reading, last, body.blocks[last].stmts);
    assert(body.has(listing[listing.len() - 1]));
    if p.0 == last {
        lemma_block_marks_all(reading, last, body.blocks[last].stmts);
        assert(body.blocks[last].stmts[p.1 as int] is Host);
        let k = tail.index_of(m);
        assert((ms + tail)[ms.len() + k] == m);
    } else {
        let k = listing.index_of(p.0);
        assert(front[k] == p.0);
        assert forall|i: int| 0 <= i < front.len() implies body.has(#[trigger] front[i]) by {
            assert(front[i] == listing[i]);
        }
        lemma_marks_all(reading, body, front, p, marker);
        let x = ms.index_of(m);
        assert((ms + tail)[x] == m);
    }
}

/// The markers of a body that are found are those that the host reads, each at its
/// place, in the order of the body, and no others.
pub proof fn law_the_markers_are_found<B: CfgId, L>(
    reading: Reading,
    body: Body<B, L>,
    p: (B, usize),
    marker: Marker,
)
    requires
        body.wf(),
        fits(body),
        in_id_order(body.order),
    ensures
        marks(reading, body, body.order).contains(Mark { at: p, marker }) <==> host_reads(
            reading,
            body,
            p,
            marker,
        ),
        forall|i: int, j: int|
            0 <= i < j < marks(reading, body, body.order).len() ==> before(
                (#[trigger] marks(reading, body, body.order)[i]).at,
                (#[trigger] marks(reading, body, body.order)[j]).at,
            ),
{
    assert forall|i: int| 0 <= i < body.order.len() implies body.has(#[trigger] body.order[i]) by {
        assert(body.order.contains(body.order[i]));
    }
    lemma_marks(reading, body, body.order);
    let ms = marks(reading, body, body.order);
    let m = Mark { at: p, marker };
    if ms.contains(m) {
        let k = ms.index_of(m);
        assert(ms[k] == m);
    }
    if host_reads(reading, body, p, marker) {
        assert(body.order.contains(p.0));
        lemma_marks_all(reading, body, body.order, p, marker);
    }
}

impl<B: CfgId> ScanState<B> {
    /// The state once all of these have been read.
    pub open spec fn reads(self, ms: Seq<Mark<B>>) -> ScanState<B>
        decreases ms.len(),
    {
        if ms.len() == 0 {
            self
        } else {
            self.reads(ms.drop_last()).read(ms.last())
        }
    }
}

/// A body is searched from its first marker to its last: what comes later is read with
/// what came before in mind.
pub proof fn law_a_search_goes_on<B: CfgId>(a: Seq<Mark<B>>, b: Seq<Mark<B>>)
    ensures
        scan(a + b) == scan(a).reads(b),
    decreases b.len(),
{
    if b.len() == 0 {
        assert(a + b =~= a);
    } else {
        law_a_search_goes_on(a, b.drop_last());
        assert((a + b).drop_last() =~= a + b.drop_last());
    }
}

/// None of these opens or closes a region.
pub open spec fn no_region_marks<B>(ms: Seq<Mark<B>>) -> bool {
    forall|i: int|
        0 <= i < ms.len() ==> (#[trigger] ms[i]).marker != Marker::RegionBegin && ms[i].marker
            != Marker::RegionEnd
}

/// None of these opens or closes a coroutine.
pub open spec fn no_coroutine_marks<B>(ms: Seq<Mark<B>>) -> bool {
    forall|i: int|
        0 <= i < ms.len() ==> (#[trigger] ms[i]).marker != Marker::CoroutineBegin && ms[i].marker
            != Marker::CoroutineEnd
}

proof fn lemma_quiet_reading<B: CfgId>(st: ScanState<B>, ms: Seq<Mark<B>>)
    requires
        no_region_marks(ms),
    ensures
        st.reads(ms).region == st.region,
        st.reads(ms).closed == st.closed,
        no_coroutine_marks(ms) ==> st.reads(ms) == st,
    decreases ms.len(),
{
    if ms.len() > 0 {
        let front = ms.drop_last();
        assert(forall|i: int| 0 <= i < front.len() ==> #[trigger] front[i] == ms[i]);
        assert(ms[ms.len() - 1] == ms.last());
        lemma_quiet_reading(st, front);
    }
}

proof fn lemma_reads_one<B: CfgId>(st: ScanState<B>, m: Mark<B>)
    ensures
        st.reads(seq![m]) == st.read(m),
{
    let one = seq![m];
    assert(one.drop_last().len() == 0);
    assert(st.reads(one.drop_last()) == st);
    assert(one.last() == m);
}

/// A region is what stands between a begin and the end that comes next: it is closed
/// with just those two places, and with the coroutines that were closed in between.
/// Regions that were closed before stay as they were, and none is left open.
pub proof fn law_a_region_is_closed_by_its_end<B: CfgId>(
    st: ScanState<B>,
    begin: (B, usize),
    inside: Seq<Mark<B>>,
    end: (B, usize),
)
    requires
        no_region_marks(inside),
    ensures
        ({
            let open = st.reads(seq![Mark { at: begin, marker: Marker::RegionBegin }]);
            let held = open.reads(inside);
            let done = held.reads(seq![Mark { at: end, marker: Marker::RegionEnd }]);
            &&& open.coroutines.len() == 0
            &&& open.closed == st.closed
            &&& done.closed.len() == st.closed.len() + 1
            &&& done.closed.drop_last() == st.closed
            &&& done.closed.last().region_begin == begin
            &&& done.closed.last().region_end == end
            &&& done.closed.last().coroutines == held.coroutines
            &&& done.region is None
            &&& done.coroutines.len() == 0
        }),
{
    let first = seq![Mark::<B> { at: begin, marker: Marker::RegionBegin }];
    let last = seq![Mark { at: end, marker: Marker::RegionEnd }];
    let open = st.reads(first);
    lemma_reads_one(st, first[0]);
    lemma_quiet_reading(open, inside);
    let held = open.reads(inside);
    lemma_reads_one(held, last[0]);
    assert(held.reads(last).closed.drop_last() =~= st.closed);
}

/// A coroutine is what stands between a begin and the end that comes next: it is
/// closed with just those two places, after those that were closed before it. A
/// suspension in between changes nothing.
pub proof fn law_a_coroutine_is_closed_by_its_end<B: CfgId>(
    st: ScanState<B>,
    begin: (B, usize),
    inside: Seq<Mark<B>>,
    end: (B, usize),
)
    requires
        no_region_marks(inside),
        no_coroutine_marks(inside),
    ensures
        ({
            let done = st.reads(seq![Mark { at: begin, marker: Marker::CoroutineBegin }]).reads(
                inside,
            ).reads(seq![Mark { at: end, marker: Marker::CoroutineEnd }]);
            &&& done.coroutines.len() == st.coroutines.len() + 1
            &&& done.coroutines.drop_last() == st.coroutines
            &&& done.coroutines.last().begin == begin
            &&& done.coroutines.last().end == end
            &&& done.coro_begin is None
            &&& done.region == st.region
            &&& done.closed == st.closed
        }),
{
    let first = seq![Mark::<B> { at: begin, marker: Marker::CoroutineBegin }];
    let last = seq![Mark { at: end, marker: Marker::CoroutineEnd }];
    let open = st.reads(first);
    lemma_reads_one(st, first[0]);
    lemma_quiet_reading(open, inside);
    lemma_reads_one(open, last[0]);
    assert(open.reads(last).coroutines.drop_last() =~= st.coroutines);
}

/// An end that nothing was begun for is passed over.
pub proof fn law_a_stray_end_is_passed_over<B: CfgId>(st: ScanState<B>, at: (B, usize))
    ensures
        st.region is None ==> st.read(Mark { at, marker: Marker::RegionEnd }) == st,
        st.coro_begin is None ==> st.read(Mark { at, marker: Marker::CoroutineEnd }) == st,
{
}

proof fn lemma_block_points_all<B, L>(
    reading: Reading,
    b: B,
    stmts: Seq<Stmt<L>>,
    i: usize,
    kind: SuspKind,
)
    requires
        stmts.len() <= usize::MAX,
        i < stmts.len(),
        stmts[i as int] is Host,
        reading(stmts[i as int]->Host_0) == Some(marker_of(kind)),
    ensures
        block_points(reading, b, stmts).contains((b, i, kind)),
    decreases stmts.len(),
{
    let front = stmts.drop_last();
    let prior = block_points(reading, b, front);
    let all = block_points(reading, b, stmts);
    if i < front.len() {
        lemma_block_points_all(reading, b, front, i, kind);
        let k = prior.index_of((b, i, kind));
        assert(all[k] == (b, i, kind));
    } else {
        assert(all.last() == (b, i, kind));
    }
}

proof fn lemma_points_between_all<B: CfgId, L>(
    reading: Reading,
    body: Body<B, L>,
    listing: Seq<B>,
    begin: B,
    end: B,
    p: (B, usize),
    kind: SuspKind,
)
    requires
        lawful_ids::<B>(),
        fits(body),
        in_id_order(listing),
        forall|i: int| 0 <= i < listing.len() ==> body.has(#[trigger] listing[i]),
        listing.contains(p.0),
        !id_before(p.0, begin),
        !id_before(end, p.0),
        host_reads(reading, body, p, marker_of(kind)),
    ensures
        points_between(reading, body, listing, begin, end).contains((p.0, p.1, kind)),
    decreases listing.len(),
{
    let b = listing.first();
    let rest = listing.drop_first();
    let later = points_between(reading, body, rest, begin, end);
    let own = block_points(reading, b, body.blocks[b].stmts);
    let x = (p.0, p.1, kind);
    assert(body.has(listing[0]));
    if p.0 == b {
        lemma_block_points_all(reading, b, body.blocks[b].stmts, p.1, kind);
        let k = own.index_of(x);
        assert((own + later)[k] == x);
    } else {
        let k = listing.index_of(p.0);
        assert(rest[k - 1] == p.0);
        assert(id_before(listing[0], listing[k]));
        assert forall|i: int| 0 <= i < rest.len() implies body.has(#[trigger] rest[i]) by {
            assert(rest[i] == listing[i + 1]);
        }
        assert(in_id_order(rest)) by {
            assert forall|i: int, j: int| 0 <= i < j < rest.len() implies id_before(
                #[trigger] rest[i],
                #[trigger] rest[j],
            ) by {
                assert(rest[i] == listing[i + 1] && rest[j] == listing[j + 1]);
            }
        }
        lemma_points_between_all(reading, body, rest, begin, end, p, kind);
        let y = later.index_of(x);
        if !id_before(b, begin) {
            assert(!id_before(end, b));
            assert((own + later)[own.len() + y] == x);
        }
    }
}

/// The suspension points of a coroutine are all the yields, the recvs that may have to
/// wait and the sends in the blocks from its begin to its end, each with its own kind,
/// in the order of the body, and no others.
pub proof fn law_the_suspensions_are_found<B: CfgId, L>(
    reading: Reading,
    body: Body<B, L>,
    c: Coroutine<B>,
    p: (B, usize),
    kind: SuspKind,
)
    requires
        lawful_ids::<B>(),
        body.wf(),
        fits(body),
        in_id_order(body.order),
    ensures
        points_of(reading, body, c).contains((p.0, p.1, kind)) <==> {
            &&& host_reads(reading, body, p, marker_of(kind))
            &&& !id_before(p.0, c.begin.0)
            &&& !id_before(c.end.0, p.0)
        },
        forall|i: int, j: int|
            0 <= i < j < points_of(reading, body, c).len() ==> before(
                ((#[trigger] points_of(reading, body, c)[i]).0, points_of(reading, body, c)[i].1),
                ((#[trigger] points_of(reading, body, c)[j]).0, points_of(reading, body, c)[j].1),
            ),
{
    let ps = points_of(reading, body, c);
    let x = (p.0, p.1, kind);
    lemma_points_ok(reading, body, c);
    if ps.contains(x) {
        let k = ps.index_of(x);
        assert(ps[k] == x);
    }
    if host_reads(reading, body, p, marker_of(kind)) && !id_before(p.0, c.begin.0) && !id_before(
        c.end.0,
        p.0,
    ) {
        assert forall|i: int| 0 <= i < body.order.len() implies body.has(
            #[trigger] body.order[i],
        ) by {
            assert(body.order.contains(body.order[i]));
        }
        assert(body.order.contains(p.0));
        lemma_points_between_all(reading, body, body.order, c.begin.0, c.end.0, p, kind);
    }
}

} // verus!
