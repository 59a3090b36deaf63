//! The cross-function transform: split a function at its suspension sites, and
//! give the values that live across them slots.
use vstd::prelude::*;

use crate::crossfn::layout::{
    kinds_view, live_at, tables_view, AsyncHooks, BlockKind, FnId, HookBlockId, HookLocalId,
    KindView, LayoutView, LivenessMap, SiteReading, SiteView, SlotTables, StateMachineLayout,
    SuspendingFns, SuspensionSite, TransformOptions, TransformResult,
};
use crate::stackless::cfg::CoroCfg;
use crate::stackless::model::{lemma_add_block_wf, lemma_set_block_wf, Block, Body};
use crate::vocab::{id_before, lawful_eq, lawful_ids, CfgId};

verus! {

/// A suspension site and its place in the body as the host wrote it.
pub struct Site<B, V, F> {
    pub bb: B,
    pub idx: usize,
    pub site: SiteView<F, V>,
}

/// `b` put into a listing in id order, after those that do not come after it.
pub open spec fn insert_id<B: CfgId>(listing: Seq<B>, b: B) -> Seq<B>
    decreases listing.len(),
{
    if listing.len() > 0 && id_before(b, listing.last()) {
        insert_id(listing.drop_last(), b).push(listing.last())
    } else {
        listing.push(b)
    }
}

/// A listing arranged in id order.
pub open spec fn sort_ids<B: CfgId>(listing: Seq<B>) -> Seq<B>
    decreases listing.len(),
{
    if listing.len() == 0 {
        Seq::empty()
    } else {
        insert_id(sort_ids(listing.drop_last()), listing.last())
    }
}

/// The sites among the first `n` statements of a block, in statement order.
pub open spec fn block_sites<B, V, F>(
    reading: SiteReading<B, V, F>,
    b: B,
    n: nat,
) -> Seq<Site<B, V, F>>
    decreases n,
{
    if n == 0 {
        Seq::empty()
    } else {
        let before = block_sites(reading, b, (n - 1) as nat);
        match reading((b, (n - 1) as usize)) {
            Some(site) => before.push(Site { bb: b, idx: (n - 1) as usize, site }),
            None => before,
        }
    }
}

/// The sites of the listed blocks, in listing order.
pub open spec fn listed_sites<B, V, F>(
    reading: SiteReading<B, V, F>,
    body: Body<B, V>,
    listing: Seq<B>,
) -> Seq<Site<B, V, F>>
    decreases listing.len(),
{
    if listing.len() == 0 {
        Seq::empty()
    } else {
        listed_sites(reading, body, listing.drop_last()) + block_sites(
            reading,
            listing.last(),
            body.blocks[listing.last()].stmts.len(),
        )
    }
}

/// The sites of a body, by block id and then by statement.
pub open spec fn sites_of<B: CfgId, V, F>(reading: SiteReading<B, V, F>, body: Body<B, V>) -> Seq<
    Site<B, V, F>,
> {
    listed_sites(reading, body, sort_ids(body.order))
}

/// Site `k` stands in the same original block as the site before it.
pub open spec fn follows<B, V, F>(sites: Seq<Site<B, V, F>>, k: int) -> bool {
    k > 0 && sites[k - 1].bb == sites[k].bb
}

/// The block that site `k` stands in when its turn comes: its own, or what an
/// earlier split of that block has moved it to.
pub open spec fn home<B, V, F>(sites: Seq<Site<B, V, F>>, tails: Seq<B>, k: int) -> B {
    if follows(sites, k) {
        tails[k - 1]
    } else {
        sites[k].bb
    }
}

/// Where in its home block site `k` stands.
pub open spec fn offset<B, V, F>(sites: Seq<Site<B, V, F>>, k: int) -> int {
    if follows(sites, k) {
        sites[k].idx - sites[k - 1].idx - 1
    } else {
        sites[k].idx as int
    }
}

/// A block split at a site. What follows the site goes to `tail`. The dispatcher
/// resumes there after a yield, and in a fresh block of its own after a call.
pub open spec fn site_split<B, V, F>(
    before: Body<B, V>,
    after: Body<B, V>,
    home: B,
    at: int,
    site: SiteView<F, V>,
    tail: B,
    resume: B,
) -> bool {
    &&& !before.has(tail)
    &&& match site {
        SiteView::DirectYield { .. } => {
            &&& resume == tail
            &&& after == before.split(home, at, tail)
        },
        SiteView::CrossFnCall { .. } => {
            &&& !before.split(home, at, tail).has(resume)
            &&& after == before.split(home, at, tail).with_block(resume)
        },
    }
}

/// The first `n` sites split one after another.
pub open spec fn sites_split<B, V, F>(
    before: Body<B, V>,
    after: Body<B, V>,
    sites: Seq<Site<B, V, F>>,
    tails: Seq<B>,
    resumes: Seq<B>,
    n: nat,
) -> bool
    decreases n,
{
    if n == 0 {
        after == before
    } else {
        exists|mid: Body<B, V>|
            sites_split(before, mid, sites, tails, resumes, (n - 1) as nat)
                && #[trigger] site_split(
                mid,
                after,
                home(sites, tails, n - 1),
                offset(sites, n - 1),
                sites[n - 1].site,
                tails[n - 1],
                resumes[n - 1],
            )
    }
}

/// The kinds of the blocks that one site makes.
pub open spec fn site_kinds<B, V, F>(
    site: SiteView<F, V>,
    home: B,
    tail: B,
    resume: B,
) -> Seq<(B, KindView<B, V, F>)> {
    match site {
        SiteView::DirectYield { .. } => seq![(home, KindView::DirectYield)],
        SiteView::CrossFnCall { callee, receiver, args, result } => seq![
            (
                home,
                KindView::CrossFnCallInit {
                    resume_check_block: resume,
                    receiver,
                    args,
                    result,
                    callee,
                },
            ),
            (
                resume,
                KindView::CrossFnCallResume { done_block: tail, receiver, args, result, callee },
            ),
        ],
    }
}

/// The kinds of the blocks that the first `n` sites make.
pub open spec fn kinds_of<B, V, F>(
    sites: Seq<Site<B, V, F>>,
    tails: Seq<B>,
    resumes: Seq<B>,
    n: nat,
) -> Seq<(B, KindView<B, V, F>)>
    decreases n,
{
    if n == 0 {
        Seq::empty()
    } else {
        kinds_of(sites, tails, resumes, (n - 1) as nat) + site_kinds(
            sites[n - 1].site,
            home(sites, tails, n - 1),
            tails[n - 1],
            resumes[n - 1],
        )
    }
}

/// The distinct values of a sequence, in order of first appearance.
pub open spec fn distinct<V>(vs: Seq<V>) -> Seq<V>
    decreases vs.len(),
{
    if vs.len() == 0 {
        Seq::empty()
    } else {
        let before = distinct(vs.drop_last());
        if before.contains(vs.last()) {
            before
        } else {
            before.push(vs.last())
        }
    }
}

/// Everything that lives across the first `n` sites, site by site.
pub open spec fn all_live<B, V, F>(
    sites: Seq<Site<B, V, F>>,
    records: Seq<((B, usize), Vec<V>)>,
    n: nat,
) -> Seq<V>
    decreases n,
{
    if n == 0 {
        Seq::empty()
    } else {
        all_live(sites, records, (n - 1) as nat) + live_at(
            records,
            (sites[n - 1].bb, sites[n - 1].idx),
        )
    }
}

/// The values that need a slot, in slot order.
pub open spec fn captured<B, V, F>(
    sites: Seq<Site<B, V, F>>,
    records: Seq<((B, usize), Vec<V>)>,
) -> Seq<V> {
    distinct(all_live(sites, records, sites.len()))
}

/// The slots of some values, one slot per captured value from `first` on.
pub open spec fn slots_of<V>(captured: Seq<V>, first: u32, live: Seq<V>) -> Seq<(u32, V)> {
    Seq::new(live.len(), |i: int| ((first + captured.index_of(live[i])) as u32, live[i]))
}

/// The slot tables of the first `n` sites, keyed by the block `keys` names for
/// each; a site that nothing lives across has none.
pub open spec fn slot_tables<B, V, F>(
    sites: Seq<Site<B, V, F>>,
    records: Seq<((B, usize), Vec<V>)>,
    first: u32,
    keys: Seq<B>,
    n: nat,
) -> SlotTables<B, V>
    decreases n,
{
    if n == 0 {
        Seq::empty()
    } else {
        let before = slot_tables(sites, records, first, keys, (n - 1) as nat);
        let live = live_at(records, (sites[n - 1].bb, sites[n - 1].idx));
        if live.len() == 0 {
            before
        } else {
            before.push((keys[n - 1], slots_of(captured(sites, records), first, live)))
        }
    }
}

/// The home blocks of all sites.
pub open spec fn homes<B, V, F>(sites: Seq<Site<B, V, F>>, tails: Seq<B>) -> Seq<B> {
    Seq::new(sites.len(), |k: int| home(sites, tails, k))
}

/// The layout for a body split at `sites`.
pub open spec fn layout_of<B, V, F>(
    entry: B,
    sites: Seq<Site<B, V, F>>,
    tails: Seq<B>,
    resumes: Seq<B>,
    records: Seq<((B, usize), Vec<V>)>,
    first: u32,
) -> LayoutView<B, V, F> {
    LayoutView {
        resume_entries: seq![entry] + resumes,
        yield_blocks: Seq::new(sites.len(), |k: int| (home(sites, tails, k), (k + 1) as u32)),
        yield_saves: slot_tables(sites, records, first, homes(sites, tails), sites.len()),
        resume_loads: slot_tables(sites, records, first, resumes, sites.len()),
        block_kinds: kinds_of(sites, tails, resumes, sites.len()),
    }
}

/// A function body split at its sites, and the layout handed back.
pub open spec fn transformed<B: CfgId, V: CfgId, F: FnId>(
    reading: SiteReading<B, V, F>,
    before: Body<B, V>,
    after: Body<B, V>,
    records: Seq<((B, usize), Vec<V>)>,
    first: u32,
    layout: LayoutView<B, V, F>,
) -> bool {
    let sites = sites_of(reading, before);
    exists|tails: Seq<B>, resumes: Seq<B>|
        {
            &&& tails.len() == sites.len()
            &&& resumes.len() == sites.len()
            &&& #[trigger] sites_split(before, after, sites, tails, resumes, sites.len())
            &&& layout == layout_of(before.order[0], sites, tails, resumes, records, first)
        }
}

/// The layout of a function that does not suspend.
pub open spec fn no_layout<B, V, F>() -> LayoutView<B, V, F> {
    LayoutView {
        resume_entries: Seq::empty(),
        yield_blocks: Seq::empty(),
        yield_saves: Seq::empty(),
        resume_loads: Seq::empty(),
        block_kinds: Seq::empty(),
    }
}

/// What the transform may do with a function, with slots from `first` on: nothing
/// with one that does not suspend.
pub open spec fn outcome<B: CfgId, V: CfgId, F: FnId>(
    reading: SiteReading<B, V, F>,
    suspends: bool,
    before: Body<B, V>,
    after: Body<B, V>,
    records: Seq<((B, usize), Vec<V>)>,
    first: u32,
    layout: LayoutView<B, V, F>,
) -> bool {
    if suspends {
        transformed(reading, before, after, records, first, layout)
    } else {
        layout == no_layout::<B, V, F>() && after == before
    }
}

/// The sites as they are found: with what the host said of each.
pub open spec fn sites_view<B: CfgId, V: CfgId, F: FnId>(
    found: Seq<(B, usize, SuspensionSite<F, V>)>,
) -> Seq<Site<B, V, F>> {
    Seq::new(
        found.len(),
        |k: int| Site { bb: found[k].0, idx: found[k].1, site: found[k].2@ },
    )
}

/// Inserting after everything that does not come after.
proof fn lemma_insert_id<B: CfgId>(listing: Seq<B>, b: B, k: int)
    requires
        0 <= k <= listing.len(),
        forall|j: int| k <= j < listing.len() ==> id_before(b, #[trigger] listing[j]),
        k > 0 ==> !id_before(b, listing[k - 1]),
    ensures
        insert_id(listing, b) == listing.insert(k, b),
    decreases listing.len(),
{
    if k == listing.len() {
        assert(listing.insert(k, b) =~= listing.push(b));
    } else {
        let front = listing.drop_last();
        assert(id_before(b, listing[listing.len() - 1]));
        assert forall|j: int| k <= j < front.len() implies id_before(b, #[trigger] front[j]) by {
            assert(front[j] == listing[j]);
        }
        lemma_insert_id(front, b, k);
        assert(front.insert(k, b).push(listing.last()) =~= listing.insert(k, b));
    }
}

/// Arrange block ids in id order.
fn ids_in_order<B: CfgId>(ids: Vec<B>) -> (sorted: Vec<B>)
    requires
        lawful_ids::<B>(),
    ensures
        sorted@ == sort_ids(ids@),
{
    let mut sorted: Vec<B> = Vec::new();
    let mut n: usize = 0;
    assert(ids@.take(0) =~= Seq::empty());
    while n < ids.len()
        invariant
            n <= ids@.len(),
            lawful_ids::<B>(),
            sorted@ == sort_ids(ids@.take(n as int)),
            sorted@.len() == n,
        decreases ids@.len() - n,
    {
        let b = ids[n];
        let mut k: usize = sorted.len();
        while k > 0 && b < sorted[k - 1]
            invariant
                k <= sorted@.len(),
                lawful_ids::<B>(),
                forall|j: int| k <= j < sorted@.len() ==> id_before(b, #[trigger] sorted@[j]),
            decreases k,
        {
            k = k - 1;
        }
        proof {
            lemma_insert_id(sorted@, b, k as int);
            assert(ids@.take(n + 1).drop_last() =~= ids@.take(n as int));
        }
        sorted.insert(k, b);
        n = n + 1;
    }
    assert(ids@.take(n as int) =~= ids@);
    sorted
}

/// Arranging keeps the listing's blocks, once each, and puts them in id order.
pub proof fn lemma_insert_keeps<B: CfgId>(listing: Seq<B>, b: B)
    requires
        lawful_ids::<B>(),
        listing.no_duplicates(),
        !listing.contains(b),
    ensures
        insert_id(listing, b).no_duplicates(),
        forall|x: B| #[trigger]
            insert_id(listing, b).contains(x) <==> listing.contains(x) || x == b,
    decreases listing.len(),
{
    if listing.len() > 0 && id_before(b, listing.last()) {
        let front = listing.drop_last();
        let last = listing.last();
        assert(listing =~= front.push(last));
        assert(forall|x: B| #[trigger] front.contains(x) ==> listing.contains(x)) by {
            assert forall|x: B| #[trigger] front.contains(x) implies listing.contains(x) by {
                let k = front.index_of(x);
                assert(listing[k] == x);
            }
        }
        assert(!front.contains(last)) by {
            if front.contains(last) {
                let k = front.index_of(last);
                assert(listing[k] == listing[listing.len() - 1]);
            }
        }
        lemma_insert_keeps(front, b);
        lemma_push_members(insert_id(front, b), last);
        lemma_push_members(front, last);
    } else {
        lemma_push_members(listing, b);
    }
}

proof fn lemma_push_members<B>(s: Seq<B>, b: B)
    ensures
        forall|x: B| #[trigger] s.push(b).contains(x) <==> s.contains(x) || x == b,
        s.no_duplicates() && !s.contains(b) ==> s.push(b).no_duplicates(),
{
    let t = s.push(b);
    assert forall|x: B| #[trigger] t.contains(x) <==> s.contains(x) || x == b by {
        if t.contains(x) && x != b {
            let k = t.index_of(x);
            assert(s[k] == x);
        }
        if s.contains(x) {
            let k = s.index_of(x);
            assert(t[k] == x);
        }
        assert(t[s.len() as int] == b);
    }
}

pub proof fn lemma_sort_keeps<B: CfgId>(listing: Seq<B>)
    requires
        lawful_ids::<B>(),
        listing.no_duplicates(),
    ensures
        sort_ids(listing).no_duplicates(),
        forall|x: B| #[trigger] sort_ids(listing).contains(x) <==> listing.contains(x),
    decreases listing.len(),
{
    if listing.len() > 0 {
        let front = listing.drop_last();
        let last = listing.last();
        assert(listing =~= front.push(last));
        assert(front.no_duplicates()) by {
            assert forall|i: int, j: int|
                0 <= i < front.len() && 0 <= j < front.len() && i != j implies front[i]
                != front[j] by {
                assert(front[i] == listing[i] && front[j] == listing[j]);
            }
        }
        assert(!front.contains(last)) by {
            if front.contains(last) {
                let k = front.index_of(last);
                assert(listing[k] == listing[listing.len() - 1]);
            }
        }
        lemma_sort_keeps(front);
        lemma_insert_keeps(sort_ids(front), last);
        lemma_push_members(front, last);
    }
}

/// Each site stands where it says; sites of one block come together and in
/// order.
pub open spec fn sites_ok<B, V, F>(body: Body<B, V>, sites: Seq<Site<B, V, F>>) -> bool {
    &&& forall|k: int|
        0 <= k < sites.len() ==> body.at(((#[trigger] sites[k]).bb, sites[k].idx))
    &&& forall|j: int, k: int|
        0 <= j < k < sites.len() && (#[trigger] sites[j]).bb == (#[trigger] sites[k]).bb
            ==> sites[k - 1].bb == sites[k].bb && sites[j].idx < sites[k].idx
}

pub proof fn lemma_block_sites<B, V, F>(reading: SiteReading<B, V, F>, b: B, n: nat)
    requires
        n <= usize::MAX,
    ensures
        ({
            let ss = block_sites(reading, b, n);
            &&& forall|i: int|
                0 <= i < ss.len() ==> (#[trigger] ss[i]).bb == b && ss[i].idx < n
            &&& forall|i: int, j: int|
                0 <= i < j < ss.len() ==> (#[trigger] ss[i]).idx < (#[trigger] ss[j]).idx
        }),
    decreases n,
{
    if n > 0 {
        lemma_block_sites(reading, b, (n - 1) as nat);
    }
}

pub proof fn lemma_listed_sites<B, V, F>(
    reading: SiteReading<B, V, F>,
    body: Body<B, V>,
    listing: Seq<B>,
)
    requires
        listing.no_duplicates(),
        forall|i: int|
            0 <= i < listing.len() ==> body.has(#[trigger] listing[i])
                && body.blocks[listing[i]].stmts.len() <= usize::MAX,
    ensures
        sites_ok(body, listed_sites(reading, body, listing)),
        forall|k: int|
            0 <= k < listed_sites(reading, body, listing).len() ==> listing.contains(
                (#[trigger] listed_sites(reading, body, listing)[k]).bb,
            ),
    decreases listing.len(),
{
    if listing.len() > 0 {
        let front = listing.drop_last();
        let last = listing.last();
        assert(listing[listing.len() - 1] == last);
        assert forall|i: int| 0 <= i < front.len() implies body.has(#[trigger] front[i])
            && body.blocks[front[i]].stmts.len() <= usize::MAX by {
            assert(front[i] == listing[i]);
        }
        assert forall|i: int, j: int|
            0 <= i < front.len() && 0 <= j < front.len() && i != j implies front[i]
            != front[j] by {
            assert(front[i] == listing[i] && front[j] == listing[j]);
        }
        lemma_listed_sites(reading, body, front);
        lemma_block_sites(reading, last, body.blocks[last].stmts.len());
        let ss = listed_sites(reading, body, front);
        let tt = block_sites(reading, last, body.blocks[last].stmts.len());
        let all = ss + tt;
        assert forall|k: int| 0 <= k < all.len() implies listing.contains((#[trigger] all[k]).bb)
            && body.at((all[k].bb, all[k].idx)) && (k < ss.len() ==> all[k].bb != last) by {
            if k < ss.len() {
                assert(all[k] == ss[k]);
                let i = front.index_of(ss[k].bb);
                assert(listing[i] == ss[k].bb);
                if ss[k].bb == last {
                    assert(listing[i] == listing[listing.len() - 1]);
                }
            } else {
                assert(all[k] == tt[k - ss.len()]);
            }
        }
        assert forall|j: int, k: int|
            0 <= j < k < all.len() && (#[trigger] all[j]).bb == (#[trigger] all[k]).bb implies all[k
            - 1].bb == all[k].bb && all[j].idx < all[k].idx by {
            if k < ss.len() {
                assert(all[j] == ss[j] && all[k] == ss[k] && all[k - 1] == ss[k - 1]);
            } else {
                assert(all[k] == tt[k - ss.len()]);
                if j < ss.len() {
                    assert(all[j] == ss[j]);
                } else {
                    assert(all[j] == tt[j - ss.len()]);
                    assert(all[k - 1] == tt[k - 1 - ss.len()]);
                }
            }
        }
    }
}

/// Find the sites of a body, by block id and then by statement.
fn find_sites<H: AsyncHooks>(cfg: &H::Cfg, hooks: &H, listing: &Vec<HookBlockId<H>>) -> (found: Vec<
    (HookBlockId<H>, usize, SuspensionSite<H::FnId, HookLocalId<H>>),
>)
    requires
        forall|i: int| 0 <= i < listing@.len() ==> cfg.body().has(#[trigger] listing@[i]),
    ensures
        sites_view(found@) == listed_sites(hooks.sites(cfg.body()), cfg.body(), listing@),
        forall|i: int|
            0 <= i < listing@.len() ==> cfg.body().blocks[#[trigger] listing@[i]].stmts.len()
                <= usize::MAX,
{
    let mut found: Vec<(HookBlockId<H>, usize, SuspensionSite<H::FnId, HookLocalId<H>>)> =
        Vec::new();
    let ghost body = cfg.body();
    let ghost reading = hooks.sites(body);
    let mut n: usize = 0;
    assert(listing@.take(0) =~= Seq::empty());
    assert(sites_view(found@) =~= Seq::empty());
    while n < listing.len()
        invariant
            n <= listing@.len(),
            body == cfg.body(),
            reading == hooks.sites(body),
            forall|i: int| 0 <= i < listing@.len() ==> body.has(#[trigger] listing@[i]),
            forall|i: int|
                0 <= i < n ==> body.blocks[#[trigger] listing@[i]].stmts.len() <= usize::MAX,
            sites_view(found@) == listed_sites(reading, body, listing@.take(n as int)),
        decreases listing@.len() - n,
    {
        let bb = listing[n];
        let count = cfg.statement_count(bb);
        let ghost stmts = body.blocks[bb].stmts;
        let ghost prior = sites_view(found@);
        let mut idx: usize = 0;
        assert(prior + block_sites(reading, bb, 0) =~= prior);
        while idx < count
            invariant
                idx <= count,
                count == stmts.len(),
                body == cfg.body(),
                body.has(bb),
                stmts == body.blocks[bb].stmts,
                reading == hooks.sites(body),
                sites_view(found@) == prior + block_sites(reading, bb, idx as nat),
            decreases count - idx,
        {
            let ghost seen = found@;
            if let Some(site) = hooks.classify(cfg, bb, idx) {
                let ghost said = site@;
                found.push((bb, idx, site));
                proof {
                    assert(sites_view(found@) =~= sites_view(seen).push(
                        Site { bb, idx, site: said },
                    ));
                }
            }
            assert(sites_view(found@) =~= prior + block_sites(reading, bb, (idx + 1) as nat));
            idx = idx + 1;
        }
        proof {
            assert(listing@.take(n + 1).drop_last() =~= listing@.take(n as int));
        }
        n = n + 1;
    }
    assert(listing@.take(n as int) =~= listing@);
    found
}

/// Copy a list of handles.
fn copy_ids<V: CfgId>(ids: &Vec<V>) -> (copied: Vec<V>)
    ensures
        copied@ == ids@,
{
    let mut copied: Vec<V> = Vec::with_capacity(ids.len());
    let mut i: usize = 0;
    while i < ids.len()
        invariant
            i <= ids@.len(),
            copied@ == ids@.take(i as int),
        decreases ids@.len() - i,
    {
        copied.push(ids[i]);
        assert(copied@ =~= ids@.take(i + 1));
        i = i + 1;
    }
    assert(copied@ =~= ids@);
    copied
}

proof fn lemma_split_grow<B, V, F>(
    before: Body<B, V>,
    after: Body<B, V>,
    sites: Seq<Site<B, V, F>>,
    tails: Seq<B>,
    resumes: Seq<B>,
    n: nat,
    more_tails: Seq<B>,
    more_resumes: Seq<B>,
)
    requires
        sites_split(before, after, sites, tails, resumes, n),
        forall|k: int| 0 <= k < n ==> tails[k] == more_tails[k],
        forall|k: int| 0 <= k < n ==> resumes[k] == more_resumes[k],
    ensures
        sites_split(before, after, sites, more_tails, more_resumes, n),
        kinds_of(sites, tails, resumes, n) == kinds_of(sites, more_tails, more_resumes, n),
    decreases n,
{
    if n > 0 {
        let mid = choose|mid: Body<B, V>|
            sites_split(before, mid, sites, tails, resumes, (n - 1) as nat)
                && #[trigger] site_split(
                mid,
                after,
                home(sites, tails, n - 1),
                offset(sites, n - 1),
                sites[n - 1].site,
                tails[n - 1],
                resumes[n - 1],
            );
        lemma_split_grow(
            before,
            mid,
            sites,
            tails,
            resumes,
            (n - 1) as nat,
            more_tails,
            more_resumes,
        );
        assert(home(sites, tails, n - 1) == home(sites, more_tails, n - 1));
        assert(site_split(
            mid,
            after,
            home(sites, more_tails, n - 1),
            offset(sites, n - 1),
            sites[n - 1].site,
            more_tails[n - 1],
            more_resumes[n - 1],
        ));
    }
}

/// Split the block `home_bb` at one site, and note the kinds of the blocks that
/// makes. Hands back the block that took what followed the site, and the block
/// the dispatcher resumes in.
fn split_site<H: AsyncHooks>(
    cfg: &mut H::Cfg,
    home_bb: HookBlockId<H>,
    idx: usize,
    site: &SuspensionSite<H::FnId, HookLocalId<H>>,
    kinds: &mut Vec<(HookBlockId<H>, BlockKind<HookBlockId<H>, HookLocalId<H>, H::FnId>)>,
) -> (r: (HookBlockId<H>, HookBlockId<H>))
    requires
        old(cfg).body().wf(),
        old(cfg).body().at((home_bb, idx)),
    ensures
        site_split(
            old(cfg).body(),
            final(cfg).body(),
            home_bb,
            idx as int,
            site@,
            r.0,
            r.1,
        ),
        kinds_view(final(kinds)@) == kinds_view(old(kinds)@) + site_kinds(
            site@,
            home_bb,
            r.0,
            r.1,
        ),
        final(cfg).body().wf(),
        forall|b: HookBlockId<H>| #[trigger]
            old(cfg).body().has(b) ==> final(cfg).body().has(b) && (b == home_bb
                || final(cfg).body().blocks[b] == old(cfg).body().blocks[b]),
        final(cfg).body().has(r.0),
        final(cfg).body().blocks[r.0].stmts == old(cfg).body().blocks[home_bb].stmts.skip(idx + 1),
{
    let ghost before = cfg.body();
    let ghost whole = before.blocks[home_bb];
    let ghost seen = kinds_view(kinds@);
    let tail = cfg.split_after(home_bb, idx);
    let ghost split = cfg.body();
    proof {
        let rest = Block { stmts: whole.stmts.skip(idx + 1), term: whole.term };
        lemma_add_block_wf(before, tail, rest);
        lemma_set_block_wf(before.add_block(tail, rest), home_bb, split.blocks[home_bb]);
    }
    match site {
        SuspensionSite::DirectYield { value } => {
            kinds.push((home_bb, BlockKind::DirectYield));
            assert(kinds_view(kinds@) =~= seen + site_kinds(site@, home_bb, tail, tail));
            (tail, tail)
        },
        SuspensionSite::CrossFnCall { callee, receiver, args, result } => {
            // Where the dispatcher lands on resume from a yielded child.
            let resume_check = cfg.new_block();
            proof {
                lemma_add_block_wf(split, resume_check, Block::blank());
            }
            kinds.push(
                (
                    home_bb,
                    BlockKind::CrossFnCallInit {
                        resume_check_block: resume_check,
                        receiver: *receiver,
                        args: copy_ids(args),
                        result: *result,
                        callee: *callee,
                    },
                ),
            );
            kinds.push(
                (
                    resume_check,
                    BlockKind::CrossFnCallResume {
                        done_block: tail,
                        receiver: *receiver,
                        args: copy_ids(args),
                        result: *result,
                        callee: *callee,
                    },
                ),
            );
            assert(kinds_view(kinds@) =~= seen + site_kinds(site@, home_bb, tail, resume_check));
            (tail, resume_check)
        },
    }
}

/// What splitting a body at its sites yields, site by site.
struct Splits<B: CfgId, V: CfgId, F: FnId> {
    /// The block each site stood in when its turn came.
    homes: Vec<B>,
    /// The block that took what followed each site.
    tails: Vec<B>,
    /// The block the dispatcher resumes in after each site.
    resumes: Vec<B>,
    kinds: Vec<(B, BlockKind<B, V, F>)>,
}

/// Split a body at its sites. Sites of one original block share a running home:
/// the tail of each split is the home of the next.
fn split_sites<H: AsyncHooks>(
    cfg: &mut H::Cfg,
    found: &Vec<(HookBlockId<H>, usize, SuspensionSite<H::FnId, HookLocalId<H>>)>,
) -> (r: Splits<HookBlockId<H>, HookLocalId<H>, H::FnId>)
    requires
        lawful_eq::<HookBlockId<H>>(),
        old(cfg).body().wf(),
        sites_ok(old(cfg).body(), sites_view(found@)),
    ensures
        r.tails@.len() == found@.len(),
        r.resumes@.len() == found@.len(),
        sites_split(
            old(cfg).body(),
            final(cfg).body(),
            sites_view(found@),
            r.tails@,
            r.resumes@,
            found@.len(),
        ),
        r.homes@ == homes(sites_view(found@), r.tails@),
        kinds_view(r.kinds@) == kinds_of(
            sites_view(found@),
            r.tails@,
            r.resumes@,
            found@.len(),
        ),
        final(cfg).body().wf(),
{
    let ghost before = cfg.body();
    let ghost sites = sites_view(found@);
    let mut homes_seen: Vec<HookBlockId<H>> = Vec::with_capacity(found.len());
    let mut tails: Vec<HookBlockId<H>> = Vec::with_capacity(found.len());
    let mut resumes: Vec<HookBlockId<H>> = Vec::with_capacity(found.len());
    let mut kinds: Vec<(HookBlockId<H>, BlockKind<HookBlockId<H>, HookLocalId<H>, H::FnId>)> =
        Vec::new();
    let mut n: usize = 0;
    assert(kinds_view(kinds@) =~= Seq::empty());
    while n < found.len()
        invariant
            n <= found@.len(),
            lawful_eq::<HookBlockId<H>>(),
            sites == sites_view(found@),
            sites_ok(before, sites),
            cfg.body().wf(),
            homes_seen@.len() == n,
            tails@.len() == n,
            resumes@.len() == n,
            forall|k: int| 0 <= k < n ==> homes_seen@[k] == home(sites, tails@, k),
            sites_split(before, cfg.body(), sites, tails@, resumes@, n as nat),
            kinds_view(kinds@) == kinds_of(sites, tails@, resumes@, n as nat),
            // Blocks of later sites are as they were, and the last tail holds
            // what followed its site.
            forall|b: HookBlockId<H>| #[trigger] before.has(b) ==> cfg.body().has(b),
            forall|b: HookBlockId<H>| #[trigger]
                before.has(b) && (forall|j: int| 0 <= j < n ==> (#[trigger] sites[j]).bb != b)
                    ==> cfg.body().blocks[b] == before.blocks[b],
            n > 0 ==> {
                let last = sites[n - 1];
                &&& !before.has(tails@[n - 1])
                &&& cfg.body().has(tails@[n - 1])
                &&& cfg.body().blocks[tails@[n - 1]].stmts
                    == before.blocks[last.bb].stmts.skip(last.idx + 1)
            },
        decreases found@.len() - n,
    {
        let ghost mid = cfg.body();
        let ghost old_tails = tails@;
        let ghost old_resumes = resumes@;
        let orig_bb = found[n].0;
        let orig_idx = found[n].1;
        assert(sites[n as int].bb == orig_bb && sites[n as int].idx == orig_idx);
        assert(before.at((sites[n as int].bb, sites[n as int].idx)));
        assert(before.has(orig_bb));

        // A site whose block has been split stands in the last tail by now.
        let mut current_block = orig_bb;
        let mut current_idx = orig_idx;
        if n > 0 && found[n - 1].0 == orig_bb {
            assert(sites[n - 1].bb == sites[n as int].bb);
            current_block = tails[n - 1];
            current_idx = orig_idx - found[n - 1].1 - 1;
        } else {
            proof {
                assert forall|j: int| 0 <= j < n implies (#[trigger] sites[j]).bb != orig_bb by {
                    if sites[j].bb == sites[n as int].bb {
                        assert(sites[n - 1].bb == sites[n as int].bb);
                    }
                }
            }
        }
        assert(current_block == home(sites, tails@, n as int));
        assert(current_idx == offset(sites, n as int));
        assert(mid.at((current_block, current_idx)));

        let (tail, resume) = split_site::<H>(
            cfg,
            current_block,
            current_idx,
            &found[n].2,
            &mut kinds,
        );
        assert(cfg.body().blocks[tail].stmts =~= before.blocks[orig_bb].stmts.skip(orig_idx + 1));
        homes_seen.push(current_block);
        tails.push(tail);
        resumes.push(resume);
        proof {
            lemma_split_grow(
                before,
                mid,
                sites,
                old_tails,
                old_resumes,
                n as nat,
                tails@,
                resumes@,
            );
            let after = cfg.body();
            assert(site_split(
                mid,
                after,
                home(sites, tails@, (n + 1) as nat - 1),
                offset(sites, (n + 1) as nat - 1),
                sites[(n + 1) as nat - 1].site,
                tails@[(n + 1) as nat - 1],
                resumes@[(n + 1) as nat - 1],
            ));
            assert forall|b: HookBlockId<H>| #[trigger]
                before.has(b) && (forall|j: int|
                    0 <= j < n + 1 ==> (#[trigger] sites[j]).bb != b) implies after.blocks[b]
                == before.blocks[b] by {
                assert(sites[n as int].bb != b);
                assert(mid.has(b));
            }
            assert(forall|k: int|
                0 <= k < n ==> home(sites, tails@, k) == #[trigger] home(sites, old_tails, k));
        }
        n = n + 1;
    }
    assert(homes_seen@ =~= homes(sites, tails@));
    Splits { homes: homes_seen, tails, resumes, kinds }
}

pub proof fn lemma_distinct<V>(vs: Seq<V>)
    ensures
        distinct(vs).no_duplicates(),
        forall|v: V| #[trigger] distinct(vs).contains(v) <==> vs.contains(v),
    decreases vs.len(),
{
    if vs.len() > 0 {
        let front = vs.drop_last();
        lemma_distinct(front);
        assert(vs =~= front.push(vs.last()));
        lemma_push_members(front, vs.last());
        lemma_push_members(distinct(front), vs.last());
    }
}

proof fn lemma_distinct_push<V>(vs: Seq<V>, v: V)
    ensures
        distinct(vs.push(v)) == if distinct(vs).contains(v) {
            distinct(vs)
        } else {
            distinct(vs).push(v)
        },
{
    assert(vs.push(v).drop_last() =~= vs);
}

/// Where `v` stands in a list, or the list's length.
fn position<V: CfgId>(list: &Vec<V>, v: V) -> (k: usize)
    requires
        lawful_eq::<V>(),
    ensures
        k <= list@.len(),
        k < list@.len() ==> list@[k as int] == v,
        (k == list@.len()) == !list@.contains(v),
{
    let mut k: usize = 0;
    while k < list.len()
        invariant
            k <= list@.len(),
            lawful_eq::<V>(),
            forall|j: int| 0 <= j < k ==> #[trigger] list@[j] != v,
        decreases list@.len() - k,
    {
        if list[k] == v {
            assert(list@.contains(v));
            return k;
        }
        k = k + 1;
    }
    k
}

/// Collect the values that need a slot, in slot order.
fn collect_captured<B: CfgId, V: CfgId, F: FnId>(
    found: &Vec<(B, usize, SuspensionSite<F, V>)>,
    liveness: &LivenessMap<B, V>,
) -> (values: Vec<V>)
    requires
        lawful_eq::<B>(),
        lawful_eq::<V>(),
    ensures
        values@ == captured(sites_view(found@), liveness.at_site@),
{
    let ghost sites = sites_view(found@);
    let ghost records = liveness.at_site@;
    let mut values: Vec<V> = Vec::new();
    let mut n: usize = 0;
    while n < found.len()
        invariant
            n <= found@.len(),
            lawful_eq::<B>(),
            lawful_eq::<V>(),
            sites == sites_view(found@),
            records == liveness.at_site@,
            values@ == distinct(all_live(sites, records, n as nat)),
        decreases found@.len() - n,
    {
        let live = liveness.lookup(found[n].0, found[n].1);
        let ghost prior = all_live(sites, records, n as nat);
        let mut i: usize = 0;
        assert(prior + live@.take(0) =~= prior);
        while i < live.len()
            invariant
                i <= live@.len(),
                lawful_eq::<V>(),
                values@ == distinct(prior + live@.take(i as int)),
            decreases live@.len() - i,
        {
            let v = live[i];
            proof {
                lemma_distinct_push(prior + live@.take(i as int), v);
                assert((prior + live@.take(i as int)).push(v) =~= prior + live@.take(i + 1));
            }
            if position(&values, v) == values.len() {
                values.push(v);
            }
            i = i + 1;
        }
        assert(live@.take(i as int) =~= live@);
        n = n + 1;
    }
    values
}

/// The slots of the values that live across one site.
fn slots_for<V: CfgId>(values: &Vec<V>, first: u32, live: &[V]) -> (entries: Vec<(u32, V)>)
    requires
        lawful_eq::<V>(),
        values@.no_duplicates(),
        first + values@.len() <= u32::MAX,
        forall|i: int| 0 <= i < live@.len() ==> values@.contains(#[trigger] live@[i]),
    ensures
        entries@ == slots_of(values@, first, live@),
{
    let mut entries: Vec<(u32, V)> = Vec::with_capacity(live.len());
    let mut i: usize = 0;
    while i < live.len()
        invariant
            i <= live@.len(),
            lawful_eq::<V>(),
            values@.no_duplicates(),
            first + values@.len() <= u32::MAX,
            forall|k: int| 0 <= k < live@.len() ==> values@.contains(#[trigger] live@[k]),
            entries@ == slots_of(values@, first, live@).take(i as int),
        decreases live@.len() - i,
    {
        let v = live[i];
        assert(values@.contains(live@[i as int]));
        let k = position(values, v);
        assert(values@.index_of(v) == k);
        entries.push((first + k as u32, v));
        assert(entries@ =~= slots_of(values@, first, live@).take(i + 1));
        i = i + 1;
    }
    assert(entries@ =~= slots_of(values@, first, live@));
    entries
}

/// Copy a slot table.
fn copy_entries<V: CfgId>(entries: &Vec<(u32, V)>) -> (copied: Vec<(u32, V)>)
    ensures
        copied@ == entries@,
{
    let mut copied: Vec<(u32, V)> = Vec::with_capacity(entries.len());
    let mut i: usize = 0;
    while i < entries.len()
        invariant
            i <= entries@.len(),
            copied@ == entries@.take(i as int),
        decreases entries@.len() - i,
    {
        copied.push((entries[i].0, entries[i].1));
        assert(copied@ =~= entries@.take(i + 1));
        i = i + 1;
    }
    assert(copied@ =~= entries@);
    copied
}

/// A value that lives across a site is captured.
pub proof fn lemma_live_captured<B, V, F>(
    sites: Seq<Site<B, V, F>>,
    records: Seq<((B, usize), Vec<V>)>,
    k: int,
    n: nat,
)
    requires
        0 <= k < n <= sites.len(),
    ensures
        forall|v: V| #[trigger]
            live_at(records, (sites[k].bb, sites[k].idx)).contains(v) ==> all_live(
                sites,
                records,
                n,
            ).contains(v),
    decreases n,
{
    let live = live_at(records, (sites[k].bb, sites[k].idx));
    let front = all_live(sites, records, (n - 1) as nat);
    let last = live_at(records, (sites[n - 1].bb, sites[n - 1].idx));
    if k < n - 1 {
        lemma_live_captured(sites, records, k, (n - 1) as nat);
    }
    assert forall|v: V| #[trigger] live.contains(v) implies all_live(sites, records, n).contains(
        v,
    ) by {
        if k < n - 1 {
            let i = front.index_of(v);
            assert((front + last)[i] == v);
        } else {
            let i = last.index_of(v);
            assert((front + last)[front.len() + i] == v);
        }
    }
}

/// Transform a function's CFG into a state-machine layout, with no slots
/// reserved for the host.
pub fn transform_to_state_machine<S, H>(
    cfg: &mut H::Cfg,
    fn_id: H::FnId,
    suspending: &S,
    hooks: &H,
    liveness: &LivenessMap<HookBlockId<H>, HookLocalId<H>>,
) -> (r: TransformResult<H>) where S: SuspendingFns<FnId = H::FnId>, H: AsyncHooks
    requires
        lawful_ids::<HookBlockId<H>>(),
        lawful_eq::<HookLocalId<H>>(),
        old(cfg).body().wf(),
        suspending.suspends(fn_id) ==> {
            &&& old(cfg).body().order.len() > 0
            &&& captured(
                sites_of(hooks.sites(old(cfg).body()), old(cfg).body()),
                liveness.at_site@,
            ).len() <= u32::MAX
        },
    ensures
        r is Ok,
        outcome(
            hooks.sites(old(cfg).body()),
            suspending.suspends(fn_id),
            old(cfg).body(),
            final(cfg).body(),
            liveness.at_site@,
            0,
            r->Ok_0@,
        ),
        final(cfg).body().wf(),
{
    transform_to_state_machine_with_options(
        cfg,
        fn_id,
        suspending,
        hooks,
        liveness,
        TransformOptions { reserved_slots: 0 },
    )
}

/// Transform a function's CFG into a state-machine layout. Slots below
/// `options.reserved_slots` are left to the host.
pub fn transform_to_state_machine_with_options<S, H>(
    cfg: &mut H::Cfg,
    fn_id: H::FnId,
    suspending: &S,
    hooks: &H,
    liveness: &LivenessMap<HookBlockId<H>, HookLocalId<H>>,
    options: TransformOptions,
) -> (r: TransformResult<H>) where S: SuspendingFns<FnId = H::FnId>, H: AsyncHooks
    requires
        lawful_ids::<HookBlockId<H>>(),
        lawful_eq::<HookLocalId<H>>(),
        old(cfg).body().wf(),
        suspending.suspends(fn_id) ==> {
            &&& old(cfg).body().order.len() > 0
            &&& options.reserved_slots + captured(
                sites_of(hooks.sites(old(cfg).body()), old(cfg).body()),
                liveness.at_site@,
            ).len() <= u32::MAX
        },
    ensures
        r is Ok,
        outcome(
            hooks.sites(old(cfg).body()),
            suspending.suspends(fn_id),
            old(cfg).body(),
            final(cfg).body(),
            liveness.at_site@,
            options.reserved_slots,
            r->Ok_0@,
        ),
        final(cfg).body().wf(),
{
    let ghost before = cfg.body();
    let ghost reading = hooks.sites(before);
    let ghost records = liveness.at_site@;
    let first = options.reserved_slots;
    if !suspending.is_suspending(fn_id) {
        let layout = StateMachineLayout {
            resume_entries: Vec::new(),
            yield_blocks: Vec::new(),
            yield_saves: Vec::new(),
            resume_loads: Vec::new(),
            block_kinds: Vec::new(),
        };
        assert(layout@ =~= no_layout());
        return Ok(layout);
    }

    // Snapshot block ids before splitting.
    let original_blocks = cfg.block_ids();
    let entry_block = original_blocks[0];

    // Pass 1: find the sites, in (block, statement) order.
    let listing = ids_in_order(original_blocks);
    proof {
        lemma_sort_keeps(before.order);
        assert forall|i: int| 0 <= i < listing@.len() implies before.has(#[trigger] listing@[i]) by {
            assert(listing@.contains(listing@[i]));
            assert(before.order.contains(listing@[i]));
        }
    }
    let found = find_sites::<H>(&*cfg, hooks, &listing);
    let ghost sites = sites_of(reading, before);
    assert(sites_view(found@) == sites);
    proof {
        lemma_listed_sites(reading, before, listing@);
    }

    // Pass 2: split at each site.
    let splits = split_sites::<H>(cfg, &found);
    let ghost tails = splits.tails@;
    let ghost resumes = splits.resumes@;

    // Pass 3: captures lift. One slot per captured value; saved at each site it
    // lives across, loaded at each resume.
    let values = collect_captured(&found, liveness);
    proof {
        lemma_distinct(all_live(sites, records, sites.len()));
    }
    let mut resume_entries: Vec<HookBlockId<H>> = Vec::new();
    resume_entries.push(entry_block);
    let mut yield_blocks: Vec<(HookBlockId<H>, u32)> = Vec::new();
    let mut yield_saves: Vec<(HookBlockId<H>, Vec<(u32, HookLocalId<H>)>)> = Vec::new();
    let mut resume_loads: Vec<(HookBlockId<H>, Vec<(u32, HookLocalId<H>)>)> = Vec::new();
    let mut n: usize = 0;
    assert(tables_view(yield_saves@) =~= Seq::empty());
    assert(tables_view(resume_loads@) =~= Seq::empty());
    while n < found.len()
        invariant
            n <= found@.len(),
            lawful_eq::<HookBlockId<H>>(),
            lawful_eq::<HookLocalId<H>>(),
            sites == sites_view(found@),
            records == liveness.at_site@,
            values@ == captured(sites, records),
            values@ == distinct(all_live(sites, records, sites.len())),
            values@.no_duplicates(),
            forall|v: HookLocalId<H>| #[trigger]
                values@.contains(v) <==> all_live(sites, records, sites.len()).contains(v),
            first + values@.len() <= u32::MAX,
            splits.homes@ == homes(sites, tails),
            splits.resumes@ == resumes,
            resumes.len() == sites.len(),
            resume_entries@ == seq![entry_block] + resumes.take(n as int),
            yield_blocks@ == Seq::new(
                n as nat,
                |k: int| (home(sites, tails, k), (k + 1) as u32),
            ),
            tables_view(yield_saves@) == slot_tables(
                sites,
                records,
                first,
                homes(sites, tails),
                n as nat,
            ),
            tables_view(resume_loads@) == slot_tables(sites, records, first, resumes, n as nat),
        decreases found@.len() - n,
    {
        let home_bb = splits.homes[n];
        let resume_bb = splits.resumes[n];
        let next_state = (n + 1) as u32;
        resume_entries.push(resume_bb);
        yield_blocks.push((home_bb, next_state));
        assert(resume_entries@ =~= seq![entry_block] + resumes.take(n + 1));
        assert(yield_blocks@ =~= Seq::new(
            (n + 1) as nat,
            |k: int| (home(sites, tails, k), (k + 1) as u32),
        ));
        let live = liveness.lookup(found[n].0, found[n].1);
        let ghost saves = tables_view(yield_saves@);
        let ghost loads = tables_view(resume_loads@);
        if live.len() > 0 {
            proof {
                lemma_live_captured(sites, records, n as int, sites.len());
                assert forall|i: int| 0 <= i < live@.len() implies values@.contains(
                    #[trigger] live@[i],
                ) by {
                    assert(live@.contains(live@[i]));
                }
            }
            let entries = slots_for(&values, first, live);
            let copied = copy_entries(&entries);
            yield_saves.push((home_bb, copied));
            resume_loads.push((resume_bb, entries));
            assert(tables_view(yield_saves@) =~= saves.push((home_bb, entries@)));
            assert(tables_view(resume_loads@) =~= loads.push((resume_bb, entries@)));
        }
        n = n + 1;
    }
    let layout = StateMachineLayout {
        resume_entries,
        yield_blocks,
        yield_saves,
        resume_loads,
        block_kinds: splits.kinds,
    };
    proof {
        assert(resumes.take(n as int) =~= resumes);
        assert(layout@ =~= layout_of(before.order[0], sites, tails, resumes, records, first));
        assert(sites_split(before, cfg.body(), sites, tails, resumes, sites.len()));
    }
    Ok(layout)
}

} // verus!
