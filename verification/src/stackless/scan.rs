//! Region and suspension discovery: where the markers of a body are, which
//! regions and coroutines they delimit, and where a coroutine may suspend.
use vstd::prelude::*;

use crate::stackless::cfg::{mark_of, CoroCfg, CoroHooks};
use crate::stackless::model::{Body, Stmt};
use crate::vocab::{id_before, lawful_ids, CfgId, Marker};

verus! {

/// Where a region starts and ends, and the coroutines inside it.
#[derive(Debug)]
pub struct Region<B: CfgId> {
    pub region_begin: (B, usize),
    pub region_end: (B, usize),
    pub coroutines: Vec<Coroutine<B>>,
}

/// Where a coroutine starts and ends.
#[derive(Debug)]
pub struct Coroutine<B: CfgId> {
    pub begin: (B, usize),
    pub end: (B, usize),
}

/// What a suspension site does when it is reached.
#[derive(Clone, Copy, Debug, PartialEq, Eq, Structural)]
pub enum SuspKind {
    Yield,
    GuardedRecv,
    ProducingSend,
}

/// A [`Region`] with its coroutines as a sequence.
#[verifier::ext_equal]
pub struct RegionView<B: CfgId> {
    pub region_begin: (B, usize),
    pub region_end: (B, usize),
    pub coroutines: Seq<Coroutine<B>>,
}

impl<B: CfgId> Region<B> {
    pub open spec fn view(&self) -> RegionView<B> {
        RegionView {
            region_begin: self.region_begin,
            region_end: self.region_end,
            coroutines: self.coroutines@,
        }
    }
}

/// A marker statement and its place.
pub struct Mark<B> {
    pub at: (B, usize),
    pub marker: Marker,
}

pub type Reading = spec_fn(int) -> Option<Marker>;

/// The markers of one block, in statement order.
pub open spec fn block_marks<B, L>(reading: Reading, b: B, stmts: Seq<Stmt<L>>) -> Seq<Mark<B>>
    decreases stmts.len(),
{
    if stmts.len() == 0 {
        Seq::empty()
    } else {
        let before = block_marks(reading, b, stmts.drop_last());
        match mark_of(reading, stmts.last()) {
            Some(marker) => before.push(Mark { at: (b, (stmts.len() - 1) as usize), marker }),
            None => before,
        }
    }
}

/// The markers of the listed blocks of a body, in listing order.
pub open spec fn marks<B, L>(reading: Reading, body: Body<B, L>, listing: Seq<B>) -> Seq<Mark<B>>
    decreases listing.len(),
{
    if listing.len() == 0 {
        Seq::empty()
    } else {
        marks(reading, body, listing.drop_last()) + block_marks(
            reading,
            listing.last(),
            body.blocks[listing.last()].stmts,
        )
    }
}

/// What a left-to-right reading of the markers has seen so far.
#[verifier::ext_equal]
pub struct ScanState<B: CfgId> {
    /// The last region begin that has not been closed.
    pub region: Option<(B, usize)>,
    /// Coroutines closed since the last region begin or end.
    pub coroutines: Seq<Coroutine<B>>,
    /// The last coroutine begin that has not been closed.
    pub coro_begin: Option<(B, usize)>,
    /// Regions closed.
    pub closed: Seq<RegionView<B>>,
}

impl<B: CfgId> ScanState<B> {
    pub open spec fn start() -> ScanState<B> {
        ScanState {
            region: None,
            coroutines: Seq::empty(),
            coro_begin: None,
            closed: Seq::empty(),
        }
    }

    /// A begin marker opens, and forgets an earlier one that is still open; an
    /// end marker closes the last begin, and is ignored where none is open.
    pub open spec fn read(self, m: Mark<B>) -> ScanState<B> {
        match m.marker {
            Marker::RegionBegin => ScanState {
                region: Some(m.at),
                coroutines: Seq::empty(),
                ..self
            },
            Marker::RegionEnd => match self.region {
                Some(begin) => ScanState {
                    region: None,
                    coroutines: Seq::empty(),
                    closed: self.closed.push(
                        RegionView {
                            region_begin: begin,
                            region_end: m.at,
                            coroutines: self.coroutines,
                        },
                    ),
                    ..self
                },
                None => self,
            },
            Marker::CoroutineBegin => ScanState { coro_begin: Some(m.at), ..self },
            Marker::CoroutineEnd => match self.coro_begin {
                Some(begin) => ScanState {
                    coro_begin: None,
                    coroutines: self.coroutines.push(Coroutine { begin, end: m.at }),
                    ..self
                },
                None => self,
            },
            _ => self,
        }
    }
}

pub open spec fn scan<B: CfgId>(ms: Seq<Mark<B>>) -> ScanState<B>
    decreases ms.len(),
{
    if ms.len() == 0 {
        ScanState::start()
    } else {
        scan(ms.drop_last()).read(ms.last())
    }
}

/// The regions of a body, in CFG order.
pub open spec fn regions_of<B: CfgId, L>(reading: Reading, body: Body<B, L>) -> Seq<RegionView<B>> {
    scan(marks(reading, body, body.order)).closed
}

/// The suspension kind a marker stands for, if it is one.
pub open spec fn kind_of(mark: Option<Marker>) -> Option<SuspKind> {
    match mark {
        Some(Marker::Yield) => Some(SuspKind::Yield),
        Some(Marker::GuardedRecv) => Some(SuspKind::GuardedRecv),
        Some(Marker::ProducingSend) => Some(SuspKind::ProducingSend),
        _ => None,
    }
}

/// The suspension points of one block, in statement order.
pub open spec fn block_points<B, L>(reading: Reading, b: B, stmts: Seq<Stmt<L>>) -> Seq<
    (B, usize, SuspKind),
>
    decreases stmts.len(),
{
    if stmts.len() == 0 {
        Seq::empty()
    } else {
        let before = block_points(reading, b, stmts.drop_last());
        match kind_of(mark_of(reading, stmts.last())) {
            Some(kind) => before.push((b, (stmts.len() - 1) as usize, kind)),
            None => before,
        }
    }
}

/// The suspension points of the listed blocks from `begin` on, up to the first
/// block that lies past `end`.
pub open spec fn points_between<B: CfgId, L>(
    reading: Reading,
    body: Body<B, L>,
    listing: Seq<B>,
    begin: B,
    end: B,
) -> Seq<(B, usize, SuspKind)>
    decreases listing.len(),
{
    if listing.len() == 0 {
        Seq::empty()
    } else {
        let b = listing.first();
        let rest = points_between(reading, body, listing.drop_first(), begin, end);
        if id_before(b, begin) {
            rest
        } else if id_before(end, b) {
            Seq::empty()
        } else {
            block_points(reading, b, body.blocks[b].stmts) + rest
        }
    }
}

/// The suspension points of a coroutine, in CFG order.
pub open spec fn points_of<B: CfgId, L>(
    reading: Reading,
    body: Body<B, L>,
    coroutine: Coroutine<B>,
) -> Seq<(B, usize, SuspKind)> {
    points_between(reading, body, body.order, coroutine.begin.0, coroutine.end.0)
}

/// Find the regions of a body, in CFG order.
pub fn find_regions<C, H>(cfg: &C, hooks: &H) -> (regions: Vec<Region<C::BlockId>>) where
    C: CoroCfg,
    H: CoroHooks<Cfg = C>,

    requires
        cfg.body().wf(),
    ensures
        regions@.map_values(|r: Region<C::BlockId>| r@) == regions_of(hooks.reading(), cfg.body()),
        forall|b: C::BlockId| #[trigger]
            cfg.body().has(b) ==> cfg.body().blocks[b].stmts.len() <= usize::MAX,
{
    let mut regions: Vec<Region<C::BlockId>> = Vec::new();
    let mut current_region: Option<(C::BlockId, usize)> = None;
    let mut current_coroutines: Vec<Coroutine<C::BlockId>> = Vec::new();
    let mut current_coro_begin: Option<(C::BlockId, usize)> = None;
    let ghost body = cfg.body();
    let ghost reading = hooks.reading();
    let ghost view = |r: Region<C::BlockId>| r@;

    let ids = cfg.block_ids();
    let mut n: usize = 0;
    proof {
        assert(body.order.take(0) =~= Seq::empty());
        assert(regions@.map_values(view) =~= Seq::empty());
    }
    while n < ids.len()
        invariant
            n <= ids.len(),
            ids@ == body.order,
            body == cfg.body(),
            body.wf(),
            reading == hooks.reading(),
            forall|k: int|
                0 <= k < n ==> body.blocks[#[trigger] body.order[k]].stmts.len() <= usize::MAX,
            view == (|r: Region<C::BlockId>| r@),
            scan(marks(reading, body, body.order.take(n as int))) == (ScanState {
                region: current_region,
                coroutines: current_coroutines@,
                coro_begin: current_coro_begin,
                closed: regions@.map_values(view),
            }),
        decreases ids.len() - n,
    {
        let bb = ids[n];
        assert(body.order.contains(bb));
        let count = cfg.statement_count(bb);
        let ghost stmts = body.blocks[bb].stmts;
        let ghost prior = marks(reading, body, body.order.take(n as int));
        let mut idx: usize = 0;
        proof {
            assert(prior + block_marks(reading, bb, stmts.take(0)) =~= prior);
        }
        while idx < count
            invariant
                idx <= count,
                count == stmts.len(),
                body == cfg.body(),
                body.has(bb),
                stmts == body.blocks[bb].stmts,
                reading == hooks.reading(),
                view == (|r: Region<C::BlockId>| r@),
                scan(prior + block_marks(reading, bb, stmts.take(idx as int))) == (ScanState {
                    region: current_region,
                    coroutines: current_coroutines@,
                    coro_begin: current_coro_begin,
                    closed: regions@.map_values(view),
                }),
            decreases count - idx,
        {
            let ghost seen = prior + block_marks(reading, bb, stmts.take(idx as int));
            let mark = hooks.classify_marker(cfg, bb, idx);
            proof {
                assert(stmts.take(idx + 1).drop_last() =~= stmts.take(idx as int));
                if let Some(marker) = mark {
                    let m = Mark { at: (bb, idx), marker };
                    assert(prior + block_marks(reading, bb, stmts.take(idx + 1)) =~= seen.push(m));
                    assert(seen.push(m).drop_last() =~= seen);
                    assert(scan(seen.push(m)) == scan(seen).read(m));
                }
            }
            let ghost before = regions@;
            match mark {
                Some(Marker::RegionBegin) => {
                    current_region = Some((bb, idx));
                    current_coroutines = Vec::new();
                },
                Some(Marker::RegionEnd) => {
                    if let Some(begin) = current_region {
                        current_region = None;
                        let region = Region {
                            region_begin: begin,
                            region_end: (bb, idx),
                            coroutines: current_coroutines,
                        };
                        current_coroutines = Vec::new();
                        regions.push(region);
                        proof {
                            assert(regions@.map_values(view) =~= before.map_values(view).push(
                                region@,
                            ));
                        }
                    }
                },
                Some(Marker::CoroutineBegin) => {
                    current_coro_begin = Some((bb, idx));
                },
                Some(Marker::CoroutineEnd) => {
                    if let Some(begin) = current_coro_begin {
                        current_coro_begin = None;
                        current_coroutines.push(Coroutine { begin, end: (bb, idx) });
                    }
                },
                _ => {},
            }
            idx = idx + 1;
        }
        proof {
            assert(stmts.take(count as int) =~= stmts);
            assert(body.order.take(n + 1).drop_last() =~= body.order.take(n as int));
        }
        n = n + 1;
    }
    proof {
        assert(body.order.take(n as int) =~= body.order);
        assert forall|b: C::BlockId| #[trigger] body.has(b) implies body.blocks[b].stmts.len()
            <= usize::MAX by {
            assert(body.order.contains(b));
            let k = body.order.index_of(b);
            assert(body.order[k] == b);
        }
    }
    regions
}

/// Find the suspension points of a coroutine, in CFG order.
pub fn find_suspension_points<C, H>(
    cfg: &C,
    hooks: &H,
    coroutine: &Coroutine<C::BlockId>,
) -> (points: Vec<(C::BlockId, usize, SuspKind)>) where C: CoroCfg, H: CoroHooks<Cfg = C>
    requires
        lawful_ids::<C::BlockId>(),
        cfg.body().wf(),
    ensures
        points@ == points_of(hooks.reading(), cfg.body(), *coroutine),
{
    let mut points: Vec<(C::BlockId, usize, SuspKind)> = Vec::new();
    let begin = coroutine.begin.0;
    let end = coroutine.end.0;
    let ghost body = cfg.body();
    let ghost reading = hooks.reading();
    let ghost all = points_of(reading, body, *coroutine);
    let ids = cfg.block_ids();
    let mut n: usize = 0;
    proof {
        assert(body.order.skip(0) =~= body.order);
        assert(points@ + all =~= all);
    }
    while n < ids.len()
        invariant
            n <= ids.len(),
            ids@ == body.order,
            body == cfg.body(),
            body.wf(),
            lawful_ids::<C::BlockId>(),
            reading == hooks.reading(),
            all == points_of(reading, body, *coroutine),
            points@ + points_between(reading, body, body.order.skip(n as int), begin, end) == all,
        decreases ids.len() - n,
    {
        let bb = ids[n];
        assert(body.order.contains(bb));
        let ghost rest = body.order.skip(n as int);
        assert(rest.first() == bb);
        assert(rest.drop_first() =~= body.order.skip(n + 1));
        if bb < begin {
            n = n + 1;
            continue;
        }
        if bb > end {
            assert(points@ =~= all);
            return points;
        }
        let count = cfg.statement_count(bb);
        let ghost stmts = body.blocks[bb].stmts;
        let ghost prior = points@;
        let mut idx: usize = 0;
        proof {
            assert(prior =~= prior + block_points(reading, bb, stmts.take(0)));
        }
        while idx < count
            invariant
                idx <= count,
                count == stmts.len(),
                body == cfg.body(),
                body.has(bb),
                stmts == body.blocks[bb].stmts,
                reading == hooks.reading(),
                points@ == prior + block_points(reading, bb, stmts.take(idx as int)),
            decreases count - idx,
        {
            proof {
                assert(stmts.take(idx + 1).drop_last() =~= stmts.take(idx as int));
            }
            match hooks.classify_marker(cfg, bb, idx) {
                Some(Marker::Yield) => points.push((bb, idx, SuspKind::Yield)),
                Some(Marker::GuardedRecv) => points.push((bb, idx, SuspKind::GuardedRecv)),
                Some(Marker::ProducingSend) => points.push((bb, idx, SuspKind::ProducingSend)),
                _ => {},
            }
            assert(points@ =~= prior + block_points(reading, bb, stmts.take(idx + 1)));
            idx = idx + 1;
        }
        proof {
            assert(stmts.take(count as int) =~= stmts);
            let tail = points_between(reading, body, body.order.skip(n + 1), begin, end);
            assert(points@ + tail =~= prior + (block_points(reading, bb, stmts) + tail));
        }
        n = n + 1;
    }
    proof {
        assert(points@ =~= all);
    }
    points
}

} // verus!
