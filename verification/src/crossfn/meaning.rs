//! What a layout means: every place that the host names is cut off, described as the
//! host reads it, and resumed right behind; and what lives across it is carried over.
use vstd::prelude::*;

use crate::crossfn::layout::{live_at, FnId, KindView, LayoutView, SiteReading, SlotTables};
use crate::crossfn::transform::{
    block_sites, captured, follows, home, homes, insert_id, kinds_of, layout_of, lemma_block_sites,
    lemma_insert_keeps, lemma_listed_sites, lemma_sort_keeps, listed_sites, offset, outcome,
    site_kinds, site_split, sites_of, sites_ok, sites_split, slot_tables, slots_of, sort_ids,
    transformed, Site,
};
use crate::crossfn::validate::{
    all_matched, audited, table_fault, tables_error, unmatched, EntryFault, LayoutError,
};
use crate::stackless::model::{in_id_order, Block, Body, Term};
use crate::vocab::{id_before, lawful_ids, CfgId};

verus! {

/// Every block can be counted through.
pub open spec fn countable<B, V>(body: Body<B, V>) -> bool {
    forall|b: B| #[trigger] body.has(b) ==> body.blocks[b].stmts.len() <= usize::MAX
}

proof fn lemma_block_sites_read<B, V, F>(reading: SiteReading<B, V, F>, b: B, n: nat)
    requires
        n <= usize::MAX,
    ensures
        ({
            let ss = block_sites(reading, b, n);
            &&& forall|k: int|
                0 <= k < ss.len() ==> (#[trigger] ss[k]).bb == b && ss[k].idx < n && reading(
                    (b, ss[k].idx),
                ) == Some(ss[k].site)
            &&& forall|i: usize|
                i < n && (#[trigger] reading((b, i))) is Some ==> ss.contains(
                    Site { bb: b, idx: i, site: reading((b, i))->0 },
                )
        }),
    decreases n,
{
    if n > 0 {
        lemma_block_sites_read(reading, b, (n - 1) as nat);
        let ss = block_sites(reading, b, n);
        let front = block_sites(reading, b, (n - 1) as nat);
        assert forall|i: usize| i < n && (#[trigger] reading((b, i))) is Some implies ss.contains(
            Site { bb: b, idx: i, site: reading((b, i))->0 },
        ) by {
            let s = Site { bb: b, idx: i, site: reading((b, i))->0 };
            if i < n - 1 {
                let k = front.index_of(s);
                assert(ss[k] == s);
            } else {
                assert(ss.last() == s);
            }
        }
    }
}

proof fn lemma_listed_sites_read<B, V, F>(
    reading: SiteReading<B, V, F>,
    body: Body<B, V>,
    listing: Seq<B>,
)
    requires
        forall|i: int|
            0 <= i < listing.len() ==> body.has(#[trigger] listing[i])
                && body.blocks[listing[i]].stmts.len() <= usize::MAX,
    ensures
        ({
            let ss = listed_sites(reading, body, listing);
            &&& forall|k: int|
                0 <= k < ss.len() ==> reading(((#[trigger] ss[k]).bb, ss[k].idx)) == Some(
                    ss[k].site,
                )
            &&& forall|place: (B, usize)|
                listing.contains(place.0) && body.at(place) && (#[trigger] reading(place)) is Some
                    ==> ss.contains(
                    Site { bb: place.0, idx: place.1, site: reading(place)->0 },
                )
        }),
    decreases listing.len(),
{
    if listing.len() > 0 {
        let front = listing.drop_last();
        let last = listing.last();
        assert(listing[listing.len() - 1] == last);
        assert forall|i: int| 0 <= i < front.len() implies body.has(#[trigger] front[i])
            && body.blocks[front[i]].stmts.len() <= usize::MAX by {
            assert(front[i] == listing[i]);
        }
        lemma_listed_sites_read(reading, body, front);
        lemma_block_sites_read(reading, last, body.blocks[last].stmts.len());
        let ss = listed_sites(reading, body, front);
        let tt = block_sites(reading, last, body.blocks[last].stmts.len());
        let all = ss + tt;
        assert forall|k: int| 0 <= k < all.len() implies reading(
            ((#[trigger] all[k]).bb, all[k].idx),
        ) == Some(all[k].site) by {
            if k < ss.len() {
                assert(all[k] == ss[k]);
            } else {
                assert(all[k] == tt[k - ss.len()]);
            }
        }
        assert forall|place: (B, usize)|
            listing.contains(place.0) && body.at(place) && (#[trigger] reading(place))
                is Some implies all.contains(
            Site { bb: place.0, idx: place.1, site: reading(place)->0 },
        ) by {
            let s = Site { bb: place.0, idx: place.1, site: reading(place)->0 };
            if place.0 == last {
                assert(reading((last, place.1)) is Some);
                let k = tt.index_of(s);
                assert(all[ss.len() + k] == s);
            } else {
                let i = listing.index_of(place.0);
                assert(front[i] == place.0);
                let k = ss.index_of(s);
                assert(all[k] == s);
            }
        }
    }
}

/// The sites of a body are the places that the host reads as suspensions, each with
/// what the host makes of it, and no others; none stands twice, and those of one
/// block stand together, in the order of its statements.
pub proof fn law_sites_are_the_places_the_host_names<B: CfgId, V, F>(
    reading: SiteReading<B, V, F>,
    body: Body<B, V>,
)
    requires
        lawful_ids::<B>(),
        body.wf(),
        countable(body),
    ensures
        forall|place: (B, usize)|
            body.at(place) && (#[trigger] reading(place)) is Some ==> sites_of(
                reading,
                body,
            ).contains(Site { bb: place.0, idx: place.1, site: reading(place)->0 }),
        forall|k: int|
            0 <= k < sites_of(reading, body).len() ==> {
                let s = #[trigger] sites_of(reading, body)[k];
                body.at((s.bb, s.idx)) && reading((s.bb, s.idx)) == Some(s.site)
            },
        forall|j: int, k: int|
            0 <= j < k < sites_of(reading, body).len() && (#[trigger] sites_of(
                reading,
                body,
            )[j]).bb == (#[trigger] sites_of(reading, body)[k]).bb ==> sites_of(
                reading,
                body,
            )[k - 1].bb == sites_of(reading, body)[k].bb && sites_of(reading, body)[j].idx
                < sites_of(reading, body)[k].idx,
{
    let listing = sort_ids(body.order);
    lemma_sort_keeps(body.order);
    assert forall|i: int| 0 <= i < listing.len() implies body.has(#[trigger] listing[i])
        && body.blocks[listing[i]].stmts.len() <= usize::MAX by {
        assert(listing.contains(listing[i]));
        assert(body.order.contains(listing[i]));
    }
    lemma_listed_sites(reading, body, listing);
    lemma_listed_sites_read(reading, body, listing);
    assert forall|place: (B, usize)|
        body.at(place) && (#[trigger] reading(place)) is Some implies sites_of(
        reading,
        body,
    ).contains(Site { bb: place.0, idx: place.1, site: reading(place)->0 }) by {
        assert(body.order.contains(place.0));
        assert(listing.contains(place.0));
    }
}

proof fn lemma_insert_sorts<B: CfgId>(listing: Seq<B>, b: B)
    requires
        lawful_ids::<B>(),
        listing.no_duplicates(),
        in_id_order(listing),
        !listing.contains(b),
    ensures
        in_id_order(insert_id(listing, b)),
    decreases listing.len(),
{
    if listing.len() > 0 {
        let front = listing.drop_last();
        let last = listing.last();
        assert(listing.contains(last));
        assert forall|x: B| #[trigger] front.contains(x) implies listing.contains(x)
            && id_before(x, last) by {
            let k = front.index_of(x);
            assert(listing[k] == x);
            assert(id_before(listing[k], listing[listing.len() - 1]));
        }
        if id_before(b, last) {
            assert(front.no_duplicates());
            lemma_insert_sorts(front, b);
            lemma_insert_keeps(front, b);
            let more = insert_id(front, b);
            assert forall|i: int| 0 <= i < more.len() implies id_before(
                #[trigger] more[i],
                last,
            ) by {
                assert(more.contains(more[i]));
            }
        } else {
            assert(id_before(last, b));
            assert forall|i: int| 0 <= i < listing.len() implies id_before(
                #[trigger] listing[i],
                b,
            ) by {
                if i < listing.len() - 1 {
                    assert(id_before(listing[i], listing[listing.len() - 1]));
                }
            }
        }
    }
}

proof fn lemma_sort_sorts<B: CfgId>(listing: Seq<B>)
    requires
        lawful_ids::<B>(),
        listing.no_duplicates(),
    ensures
        in_id_order(sort_ids(listing)),
    decreases listing.len(),
{
    if listing.len() > 0 {
        let front = listing.drop_last();
        let last = listing.last();
        assert(front.no_duplicates());
        assert(!front.contains(last)) by {
            if front.contains(last) {
                let k = front.index_of(last);
                assert(listing[k] == listing[listing.len() - 1]);
            }
        }
        lemma_sort_sorts(front);
        lemma_sort_keeps(front);
        lemma_insert_sorts(sort_ids(front), last);
    }
}

proof fn lemma_listed_in_order<B: CfgId, V, F>(
    reading: SiteReading<B, V, F>,
    body: Body<B, V>,
    listing: Seq<B>,
)
    requires
        in_id_order(listing),
        listing.no_duplicates(),
        forall|i: int|
            0 <= i < listing.len() ==> body.has(#[trigger] listing[i])
                && body.blocks[listing[i]].stmts.len() <= usize::MAX,
    ensures
        forall|j: int, k: int|
            0 <= j < k < listed_sites(reading, body, listing).len() ==> {
                let a = #[trigger] listed_sites(reading, body, listing)[j];
                let b = #[trigger] listed_sites(reading, body, listing)[k];
                a.bb == b.bb || id_before(a.bb, b.bb)
            },
    decreases listing.len(),
{
    if listing.len() > 0 {
        let front = listing.drop_last();
        let last = listing.last();
        assert(listing[listing.len() - 1] == last);
        assert forall|i: int| 0 <= i < front.len() implies body.has(#[trigger] front[i])
            && body.blocks[front[i]].stmts.len() <= usize::MAX by {
            assert(front[i] == listing[i]);
        }
        assert forall|i: int, j: int| 0 <= i < j < front.len() implies id_before(
            #[trigger] front[i],
            #[trigger] front[j],
        ) by {
            assert(front[i] == listing[i] && front[j] == listing[j]);
        }
        assert(front.no_duplicates());
        lemma_listed_in_order(reading, body, front);
        lemma_listed_sites(reading, body, front);
        lemma_block_sites(reading, last, body.blocks[last].stmts.len());
        let ss = listed_sites(reading, body, front);
        let tt = block_sites(reading, last, body.blocks[last].stmts.len());
        let all = ss + tt;
        assert forall|j: int, k: int| 0 <= j < k < all.len() implies {
            let a = #[trigger] all[j];
            let b = #[trigger] all[k];
            a.bb == b.bb || id_before(a.bb, b.bb)
        } by {
            if k < ss.len() {
                assert(all[j] == ss[j] && all[k] == ss[k]);
            } else {
                assert(all[k] == tt[k - ss.len()]);
                if j < ss.len() {
                    assert(all[j] == ss[j]);
                    let i = front.index_of(ss[j].bb);
                    assert(id_before(listing[i], listing[listing.len() - 1]));
                } else {
                    assert(all[j] == tt[j - ss.len()]);
                }
            }
        }
    }
}

/// The sites are numbered by where they stand: those of a block before those of a block
/// with a later id, however the host lists its blocks.
pub proof fn law_sites_come_in_the_order_of_their_blocks<B: CfgId, V, F>(
    reading: SiteReading<B, V, F>,
    body: Body<B, V>,
    j: int,
    k: int,
)
    requires
        lawful_ids::<B>(),
        body.wf(),
        countable(body),
        0 <= j < sites_of(reading, body).len(),
        0 <= k < sites_of(reading, body).len(),
    ensures
        id_before(sites_of(reading, body)[j].bb, sites_of(reading, body)[k].bb) ==> j < k,
{
    let listing = sort_ids(body.order);
    lemma_sort_keeps(body.order);
    lemma_sort_sorts(body.order);
    assert forall|i: int| 0 <= i < listing.len() implies body.has(#[trigger] listing[i])
        && body.blocks[listing[i]].stmts.len() <= usize::MAX by {
        assert(listing.contains(listing[i]));
        assert(body.order.contains(listing[i]));
    }
    lemma_listed_in_order(reading, body, listing);
    let a = sites_of(reading, body)[j].bb;
    let b = sites_of(reading, body)[k].bb;
    if id_before(a, b) {
        if id_before(b, a) {
            assert(id_before(a, a));
        }
    }
}

/// Where, in its original block, what stands before site `k` begins.
pub open spec fn cut_from<B, V, F>(sites: Seq<Site<B, V, F>>, k: int) -> int {
    if follows(sites, k) {
        sites[k - 1].idx + 1
    } else {
        0
    }
}

/// Each site stands where it says, and those of one block come together, in order.
#[verifier::opaque]
spec fn sited<B, V, F>(body: Body<B, V>, sites: Seq<Site<B, V, F>>) -> bool {
    sites_ok(body, sites)
}

proof fn lemma_sited<B, V, F>(body: Body<B, V>, sites: Seq<Site<B, V, F>>, j: int, k: int)
    requires
        sited(body, sites),
        0 <= j <= k < sites.len(),
    ensures
        body.at((sites[k].bb, sites[k].idx)),
        body.at((sites[j].bb, sites[j].idx)),
        j < k && sites[j].bb == sites[k].bb ==> follows(sites, k) && sites[j].idx < sites[k].idx,
{
    reveal(sited);
}

/// A block without a site among the first `n` is as it was.
#[verifier::opaque]
spec fn uncut_kept<B, V, F>(
    before: Body<B, V>,
    after: Body<B, V>,
    sites: Seq<Site<B, V, F>>,
    n: nat,
    b: B,
) -> bool {
    &&& after.has(b)
    &&& (forall|j: int| 0 <= j < n ==> (#[trigger] sites[j]).bb != b) ==> after.blocks[b]
        == before.blocks[b]
}

/// What has become of site `k` once the first `n` have been split.
#[verifier::opaque]
spec fn site_cut<B, V, F>(
    before: Body<B, V>,
    after: Body<B, V>,
    sites: Seq<Site<B, V, F>>,
    tails: Seq<B>,
    resumes: Seq<B>,
    n: nat,
    k: int,
) -> bool {
    let whole = before.blocks[sites[k].bb];
    let at = sites[k].idx + 1;
    let h = home(sites, tails, k);
    &&& !before.has(tails[k])
    &&& after.has(tails[k])
    &&& !before.has(resumes[k])
    &&& after.has(resumes[k])
    &&& after.has(h)
    &&& after.blocks[h] == (Block {
        stmts: whole.stmts.subrange(cut_from(sites, k), at),
        term: Term::<B, V>::Unset,
    })
    &&& sites[k].site is DirectYield ==> resumes[k] == tails[k]
    &&& sites[k].site is CrossFnCall ==> resumes[k] != tails[k] && after.blocks[resumes[k]]
        == Block::<B, V>::blank()
    &&& !(k + 1 < n && follows(sites, k + 1)) ==> after.blocks[tails[k]] == (Block {
        stmts: whole.stmts.skip(at),
        term: whole.term,
    })
}

/// Two sites make blocks of their own.
#[verifier::opaque]
spec fn blocks_apart<B>(tails: Seq<B>, resumes: Seq<B>, j: int, k: int) -> bool {
    &&& tails[j] != tails[k]
    &&& resumes[j] != tails[k]
    &&& tails[j] != resumes[k]
    &&& resumes[j] != resumes[k]
}

/// The body after the first `n` sites have been split, block by block.
spec fn cut_up<B, V, F>(
    before: Body<B, V>,
    after: Body<B, V>,
    sites: Seq<Site<B, V, F>>,
    tails: Seq<B>,
    resumes: Seq<B>,
    n: nat,
) -> bool {
    &&& forall|b: B| before.has(b) ==> #[trigger] uncut_kept(before, after, sites, n, b)
    &&& forall|k: int|
        0 <= k < n ==> #[trigger] site_cut(before, after, sites, tails, resumes, n, k)
    &&& forall|j: int, k: int|
        0 <= j < k < n ==> #[trigger] blocks_apart(tails, resumes, j, k)
}

/// Where the next site stands when its turn comes.
proof fn lemma_turn_comes<B, V, F>(
    before: Body<B, V>,
    mid: Body<B, V>,
    sites: Seq<Site<B, V, F>>,
    tails: Seq<B>,
    resumes: Seq<B>,
    m: nat,
)
    requires
        m < sites.len(),
        sited(before, sites),
        cut_up(before, mid, sites, tails, resumes, m),
    ensures
        ({
            let s = sites[m as int];
            let h = home(sites, tails, m as int);
            let from = cut_from(sites, m as int);
            &&& mid.has(h)
            &&& mid.blocks[h] == (Block {
                stmts: before.blocks[s.bb].stmts.skip(from),
                term: before.blocks[s.bb].term,
            })
            &&& 0 <= from <= s.idx < before.blocks[s.bb].stmts.len()
            &&& offset(sites, m as int) == s.idx - from
        }),
{
    let s = sites[m as int];
    lemma_sited(before, sites, m as int, m as int);
    if follows(sites, m as int) {
        lemma_sited(before, sites, m - 1, m as int);
        assert(site_cut(before, mid, sites, tails, resumes, m, m - 1));
        reveal(site_cut);
    } else {
        assert(uncut_kept(before, mid, sites, m, s.bb));
        reveal(uncut_kept);
        assert forall|j: int| 0 <= j < m implies (#[trigger] sites[j]).bb != s.bb by {
            lemma_sited(before, sites, j, m as int);
        }
        assert(before.blocks[s.bb].stmts.skip(0) =~= before.blocks[s.bb].stmts);
    }
}

/// No home is split twice, and no tail or resume but the last tail is.
proof fn lemma_split_once<B, V, F>(
    before: Body<B, V>,
    mid: Body<B, V>,
    sites: Seq<Site<B, V, F>>,
    tails: Seq<B>,
    resumes: Seq<B>,
    m: nat,
    k: int,
)
    requires
        0 <= k < m < sites.len(),
        sited(before, sites),
        cut_up(before, mid, sites, tails, resumes, m),
    ensures
        ({
            let h = home(sites, tails, m as int);
            &&& home(sites, tails, k) != h
            &&& resumes[k] == h ==> k == m - 1 && follows(sites, m as int) && resumes[k]
                == tails[k]
            &&& tails[k] == h ==> k == m - 1 && follows(sites, m as int)
        }),
{
    lemma_sited(before, sites, k, m as int);
    assert(site_cut(before, mid, sites, tails, resumes, m, k));
    if k > 0 {
        assert(site_cut(before, mid, sites, tails, resumes, m, k - 1));
    }
    assert(site_cut(before, mid, sites, tails, resumes, m, m - 1));
    if k < m - 1 {
        assert(blocks_apart(tails, resumes, k, m - 1));
    }
    if 0 < k {
        assert(blocks_apart(tails, resumes, k - 1, m - 1));
    }
    reveal(site_cut);
    reveal(blocks_apart);
}

proof fn lemma_cut_up<B, V, F>(
    before: Body<B, V>,
    after: Body<B, V>,
    sites: Seq<Site<B, V, F>>,
    tails: Seq<B>,
    resumes: Seq<B>,
    n: nat,
)
    requires
        n <= sites.len(),
        sited(before, sites),
        sites_split(before, after, sites, tails, resumes, n),
    ensures
        cut_up(before, after, sites, tails, resumes, n),
    decreases n,
{
    if n == 0 {
        reveal(uncut_kept);
    } else {
        let mid = choose|mid: Body<B, V>|
            sites_split(before, mid, sites, tails, resumes, (n - 1) as nat)
                && #[trigger] site_split(
                mid,
                after,
                home(sites, tails, n - 1),
                offset(sites, n - 1),
                sites[n - 1].site,
                tails[n - 1],
                resumes[n - 1],
            );
        let m = (n - 1) as nat;
        lemma_cut_up(before, mid, sites, tails, resumes, m);
        lemma_turn_comes(before, mid, sites, tails, resumes, m);
        lemma_sited(before, sites, m as int, m as int);
        let s = sites[n - 1];
        let h = home(sites, tails, n - 1);
        let t = tails[n - 1];
        let whole = before.blocks[s.bb].stmts;
        let from = cut_from(sites, n - 1);
        let at = offset(sites, n - 1);
        assert(whole.skip(from).take(at + 1) =~= whole.subrange(from, s.idx + 1));
        assert(whole.skip(from).skip(at + 1) =~= whole.skip(s.idx + 1));
        assert forall|b: B| before.has(b) implies #[trigger] uncut_kept(
            before,
            after,
            sites,
            n,
            b,
        ) by {
            assert(uncut_kept(before, mid, sites, m, b));
            reveal(uncut_kept);
            if forall|j: int| 0 <= j < n ==> (#[trigger] sites[j]).bb != b {
                assert(sites[n - 1].bb != b);
                if follows(sites, n - 1) {
                    assert(site_cut(before, mid, sites, tails, resumes, m, n - 2));
                    reveal(site_cut);
                }
            }
        }
        assert(uncut_kept(before, after, sites, n, s.bb));
        assert(!before.has(t) && !before.has(resumes[n - 1])) by {
            if before.has(t) {
                assert(uncut_kept(before, mid, sites, m, t));
            }
            if before.has(resumes[n - 1]) {
                assert(uncut_kept(before, mid, sites, m, resumes[n - 1]));
            }
            reveal(uncut_kept);
        }
        assert(site_cut(before, after, sites, tails, resumes, n, n - 1)) by {
            reveal(site_cut);
        }
        assert forall|k: int| 0 <= k < n implies #[trigger] site_cut(
            before,
            after,
            sites,
            tails,
            resumes,
            n,
            k,
        ) by {
            if k < m {
                assert(site_cut(before, mid, sites, tails, resumes, m, k));
                lemma_split_once(before, mid, sites, tails, resumes, m, k);
                reveal(site_cut);
            }
        }
        assert forall|j: int, k: int| 0 <= j < k < n implies #[trigger] blocks_apart(
            tails,
            resumes,
            j,
            k,
        ) by {
            if k < m {
                assert(blocks_apart(tails, resumes, j, k));
            } else {
                assert(site_cut(before, mid, sites, tails, resumes, m, j));
                reveal(site_cut);
                reveal(blocks_apart);
            }
        }
    }
}

/// Between two sites of a block that follow one another there is no third.
proof fn lemma_none_between<B: CfgId, V, F>(
    reading: SiteReading<B, V, F>,
    body: Body<B, V>,
    a: int,
    x: usize,
)
    requires
        lawful_ids::<B>(),
        body.wf(),
        countable(body),
        sited(body, sites_of(reading, body)),
        0 <= a < sites_of(reading, body).len(),
        cut_from(sites_of(reading, body), a) <= x < sites_of(reading, body)[a].idx,
    ensures
        reading((sites_of(reading, body)[a].bb, x)) is None,
{
    let sites = sites_of(reading, body);
    let b = sites[a].bb;
    lemma_sited(body, sites, a, a);
    if reading((b, x)) is Some {
        law_sites_are_the_places_the_host_names(reading, body);
        let found = Site { bb: b, idx: x, site: reading((b, x))->0 };
        assert(body.at((b, x)));
        assert(sites.contains(found));
        let y = sites.index_of(found);
        assert(sites[y] == found);
        if y < a {
            lemma_sited(body, sites, y, a);
            lemma_sited(body, sites, y, a - 1);
        } else {
            lemma_sited(body, sites, a, y);
        }
    }
}

proof fn lemma_kinds_listed<B, V, F>(
    sites: Seq<Site<B, V, F>>,
    tails: Seq<B>,
    resumes: Seq<B>,
    n: nat,
)
    ensures
        forall|k: int, x: int|
            0 <= k < n && 0 <= x < site_kinds(
                sites[k].site,
                home(sites, tails, k),
                tails[k],
                resumes[k],
            ).len() ==> kinds_of(sites, tails, resumes, n).contains(
                #[trigger] site_kinds(
                    sites[k].site,
                    home(sites, tails, k),
                    tails[k],
                    resumes[k],
                )[x],
            ),
        forall|y: int|
            0 <= y < kinds_of(sites, tails, resumes, n).len() ==> exists|k: int|
                0 <= k < n && (#[trigger] site_kinds(
                    sites[k].site,
                    home(sites, tails, k),
                    tails[k],
                    resumes[k],
                )).contains(#[trigger] kinds_of(sites, tails, resumes, n)[y]),
    decreases n,
{
    if n > 0 {
        lemma_kinds_listed(sites, tails, resumes, (n - 1) as nat);
        let front = kinds_of(sites, tails, resumes, (n - 1) as nat);
        let own = site_kinds(
            sites[n - 1].site,
            home(sites, tails, n - 1),
            tails[n - 1],
            resumes[n - 1],
        );
        let all = kinds_of(sites, tails, resumes, n);
        assert(all == front + own);
        assert forall|k: int, x: int|
            0 <= k < n && 0 <= x < site_kinds(
                sites[k].site,
                home(sites, tails, k),
                tails[k],
                resumes[k],
            ).len() implies all.contains(
            #[trigger] site_kinds(
                sites[k].site,
                home(sites, tails, k),
                tails[k],
                resumes[k],
            )[x],
        ) by {
            let e = site_kinds(sites[k].site, home(sites, tails, k), tails[k], resumes[k])[x];
            if k < n - 1 {
                let y = front.index_of(e);
                assert(all[y] == e);
            } else {
                assert(all[front.len() + x] == e);
            }
        }
        assert forall|y: int| 0 <= y < all.len() implies exists|k: int|
            0 <= k < n && (#[trigger] site_kinds(
                sites[k].site,
                home(sites, tails, k),
                tails[k],
                resumes[k],
            )).contains(#[trigger] all[y]) by {
            if y < front.len() {
                assert(all[y] == front[y]);
            } else {
                assert(own[y - front.len()] == all[y]);
                assert(own.contains(all[y]));
            }
        }
    }
}

/// What a layout says of one suspension: the block that it ends and the state stored
/// there, and where that state resumes.
pub struct Cut<B> {
    /// The block that ends with the suspension.
    pub ends: B,
    /// Where the dispatcher goes on.
    pub resumes: B,
    /// What followed the suspension.
    pub rest: B,
}

/// The `k`-th suspension of a layout is cut as `c` says: the state that is stored at
/// its end selects its resume.
pub open spec fn is_cut<B, V, F>(layout: LayoutView<B, V, F>, k: int, c: Cut<B>) -> bool {
    &&& 0 <= k < layout.yield_blocks.len()
    &&& layout.yield_blocks[k].0 == c.ends
    &&& 0 < layout.yield_blocks[k].1 < layout.resume_entries.len()
    &&& layout.resume_entries[layout.yield_blocks[k].1 as int] == c.resumes
}

/// `piece` is what `whole` holds from place `from` up to place `to`.
pub open spec fn is_piece<S>(piece: Seq<S>, whole: Seq<S>, from: int, to: int) -> bool {
    piece == whole.subrange(from, to)
}

/// Everything that a transformed function keeps of the place `(b, i)`:
///
/// - Its statement is the last of the block `c.ends`, which is left to the host to
///   end. That block is `b`, or what an earlier suspension of `b` has left.
/// - What followed it starts in `c.rest`, up to and with the next suspension of the
///   block, or else to its end, with the terminator that `b` had.
pub open spec fn place_is_cut<B, V>(
    before: Body<B, V>,
    after: Body<B, V>,
    reading_at: spec_fn(usize) -> bool,
    b: B,
    i: usize,
    c: Cut<B>,
) -> bool {
    let whole = before.blocks[b].stmts;
    let here = i + 1;
    &&& after.has(c.ends)
    &&& after.blocks[c.ends].term is Unset
    &&& exists|from: int|
        {
            &&& 0 <= from <= i
            &&& #[trigger] is_piece(after.blocks[c.ends].stmts, whole, from, here)
            &&& forall|x: usize| from <= x < i ==> !#[trigger] reading_at(x)
            &&& from == 0 ==> c.ends == b
            &&& from > 0 ==> reading_at((from - 1) as usize) && !before.has(c.ends)
        }
    &&& !before.has(c.rest)
    &&& after.has(c.rest)
    &&& exists|to: int|
        {
            &&& i + 1 <= to <= whole.len()
            &&& #[trigger] is_piece(after.blocks[c.rest].stmts, whole, here, to)
            &&& if after.blocks[c.rest].term is Unset && before.blocks[b].term !is Unset {
                to > i + 1 && reading_at((to - 1) as usize) && forall|x: usize|
                    i < x < to - 1 ==> !#[trigger] reading_at(x)
            } else {
                after.blocks[c.rest].term == before.blocks[b].term
            }
        }
}

proof fn lemma_place_cut<B: CfgId, V: CfgId, F: FnId>(
    reading: SiteReading<B, V, F>,
    before: Body<B, V>,
    after: Body<B, V>,
    tails: Seq<B>,
    resumes: Seq<B>,
    k: int,
)
    requires
        lawful_ids::<B>(),
        before.wf(),
        countable(before),
        ({
            let sites = sites_of(reading, before);
            &&& 0 <= k < sites.len()
            &&& sited(before, sites)
            &&& cut_up(before, after, sites, tails, resumes, sites.len())
        }),
    ensures
        ({
            let sites = sites_of(reading, before);
            let s = sites[k];
            place_is_cut(
                before,
                after,
                |x: usize| reading((s.bb, x)) is Some,
                s.bb,
                s.idx,
                Cut { ends: home(sites, tails, k), resumes: resumes[k], rest: tails[k] },
            )
        }),
{
    let sites = sites_of(reading, before);
    let n = sites.len();
    let s = sites[k];
    let whole = before.blocks[s.bb].stmts;
    let h = home(sites, tails, k);
    let reading_at = |x: usize| reading((s.bb, x)) is Some;
    let from = cut_from(sites, k);
    let here = s.idx + 1;
    lemma_sited(before, sites, k, k);
    assert(site_cut(before, after, sites, tails, resumes, n, k));
    assert(is_piece(after.blocks[h].stmts, whole, from, here) && after.has(h)
        && after.blocks[h].term is Unset && !before.has(tails[k]) && after.has(tails[k])) by {
        reveal(site_cut);
    }
    assert forall|x: usize| from <= x < s.idx implies !#[trigger] reading_at(x) by {
        lemma_none_between(reading, before, k, x);
    }
    if follows(sites, k) {
        lemma_sited(before, sites, k - 1, k);
        lemma_site_is_read(reading, before, k - 1);
        assert(reading_at((from - 1) as usize));
        assert(site_cut(before, after, sites, tails, resumes, n, k - 1));
        assert(!before.has(h)) by {
            reveal(site_cut);
        }
    }
    if k + 1 < n && follows(sites, k + 1) {
        let u = sites[k + 1];
        lemma_sited(before, sites, k, k + 1);
        lemma_site_is_read(reading, before, k + 1);
        let to = u.idx + 1;
        assert(site_cut(before, after, sites, tails, resumes, n, k + 1));
        assert(is_piece(after.blocks[tails[k]].stmts, whole, here, to)
            && after.blocks[tails[k]].term is Unset) by {
            reveal(site_cut);
        }
        assert(reading_at(u.idx));
        assert forall|x: usize| s.idx < x < to - 1 implies !#[trigger] reading_at(x) by {
            lemma_none_between(reading, before, k + 1, x);
        }
    } else {
        assert(whole.skip(here) =~= whole.subrange(here, whole.len() as int));
        assert(is_piece(after.blocks[tails[k]].stmts, whole, here, whole.len() as int)
            && after.blocks[tails[k]].term == before.blocks[s.bb].term) by {
            reveal(site_cut);
        }
    }
}

proof fn lemma_site_is_read<B: CfgId, V, F>(
    reading: SiteReading<B, V, F>,
    body: Body<B, V>,
    k: int,
)
    requires
        lawful_ids::<B>(),
        body.wf(),
        countable(body),
        0 <= k < sites_of(reading, body).len(),
    ensures
        reading((sites_of(reading, body)[k].bb, sites_of(reading, body)[k].idx)) == Some(
            sites_of(reading, body)[k].site,
        ),
{
    law_sites_are_the_places_the_host_names(reading, body);
    let s = sites_of(reading, body)[k];
}

proof fn lemma_all_sited<B: CfgId, V, F>(reading: SiteReading<B, V, F>, body: Body<B, V>)
    requires
        lawful_ids::<B>(),
        body.wf(),
        countable(body),
    ensures
        sited(body, sites_of(reading, body)),
{
    let listing = sort_ids(body.order);
    lemma_sort_keeps(body.order);
    assert forall|i: int| 0 <= i < listing.len() implies body.has(#[trigger] listing[i])
        && body.blocks[listing[i]].stmts.len() <= usize::MAX by {
        assert(listing.contains(listing[i]));
        assert(body.order.contains(listing[i]));
    }
    lemma_listed_sites(reading, body, listing);
    reveal(sited);
}

/// The suspension at a place that the host reads, in the layout.
proof fn lemma_find_cut<B: CfgId, V: CfgId, F: FnId>(
    reading: SiteReading<B, V, F>,
    before: Body<B, V>,
    after: Body<B, V>,
    records: Seq<((B, usize), Vec<V>)>,
    first: u32,
    layout: LayoutView<B, V, F>,
    place: (B, usize),
) -> (r: (Cut<B>, int))
    requires
        lawful_ids::<B>(),
        before.wf(),
        countable(before),
        transformed(reading, before, after, records, first, layout),
        layout.yield_blocks.len() < u32::MAX,
        before.at(place),
        reading(place) is Some,
    ensures
        ({
            let (c, k) = r;
            let site = reading(place)->0;
            let own = site_kinds(site, c.ends, c.rest, c.resumes);
            &&& is_cut(layout, k, c)
            &&& place_is_cut(
                before,
                after,
                |x: usize| reading((place.0, x)) is Some,
                place.0,
                place.1,
                c,
            )
            &&& forall|x: int|
                0 <= x < own.len() ==> layout.block_kinds.contains(#[trigger] own[x])
            &&& site is DirectYield ==> c.resumes == c.rest
            &&& site is CrossFnCall ==> {
                &&& c.resumes != c.rest
                &&& !before.has(c.resumes)
                &&& after.has(c.resumes)
                &&& after.blocks[c.resumes] == Block::<B, V>::blank()
            }
        }),
{
    let sites = sites_of(reading, before);
    let (tails, resumes) = choose|tails: Seq<B>, resumes: Seq<B>|
        {
            &&& tails.len() == sites.len()
            &&& resumes.len() == sites.len()
            &&& #[trigger] sites_split(before, after, sites, tails, resumes, sites.len())
            &&& layout == layout_of(before.order[0], sites, tails, resumes, records, first)
        };
    lemma_all_sited(reading, before);
    lemma_cut_up(before, after, sites, tails, resumes, sites.len());
    let site = Site { bb: place.0, idx: place.1, site: reading(place)->0 };
    assert(sites.contains(site)) by {
        law_sites_are_the_places_the_host_names(reading, before);
    }
    let k = sites.index_of(site);
    assert(sites[k] == site);
    lemma_place_cut(reading, before, after, tails, resumes, k);
    lemma_kinds_listed(sites, tails, resumes, sites.len());
    let c = Cut { ends: home(sites, tails, k), resumes: resumes[k], rest: tails[k] };
    assert(site_cut(before, after, sites, tails, resumes, sites.len(), k));
    reveal(site_cut);
    (c, k)
}

/// Every call that the host reads as suspending is cut off and described as it is:
/// the layout has a block that ends with the call, whose description has the callee,
/// the receiver, the arguments and the result that the host gave, and names the block
/// that the stored state resumes in; and that block's description has the same, and
/// names the block that holds what follows the call. The resuming block is a fresh
/// one, for the host to fill.
pub proof fn law_every_call_is_described_as_it_is<B: CfgId, V: CfgId, F: FnId>(
    reading: SiteReading<B, V, F>,
    before: Body<B, V>,
    after: Body<B, V>,
    records: Seq<((B, usize), Vec<V>)>,
    first: u32,
    layout: LayoutView<B, V, F>,
    place: (B, usize),
)
    requires
        lawful_ids::<B>(),
        before.wf(),
        countable(before),
        transformed(reading, before, after, records, first, layout),
        layout.yield_blocks.len() < u32::MAX,
        before.at(place),
        reading(place) is Some,
        reading(place)->0 is CrossFnCall,
    ensures
        exists|c: Cut<B>, k: int|
            {
                let call = reading(place)->0;
                &&& #[trigger] is_cut(layout, k, c)
                &&& place_is_cut(
                    before,
                    after,
                    |x: usize| reading((place.0, x)) is Some,
                    place.0,
                    place.1,
                    c,
                )
                &&& layout.block_kinds.contains(
                    (
                        c.ends,
                        KindView::CrossFnCallInit {
                            resume_check_block: c.resumes,
                            receiver: call->receiver,
                            args: call->args,
                            result: call->result,
                            callee: call->callee,
                        },
                    ),
                )
                &&& layout.block_kinds.contains(
                    (
                        c.resumes,
                        KindView::CrossFnCallResume {
                            done_block: c.rest,
                            receiver: call->receiver,
                            args: call->args,
                            result: call->result,
                            callee: call->callee,
                        },
                    ),
                )
                &&& !before.has(c.resumes)
                &&& c.resumes != c.rest
                &&& after.has(c.resumes)
                &&& after.blocks[c.resumes] == Block::<B, V>::blank()
            },
{
    let (c, k) = lemma_find_cut(reading, before, after, records, first, layout, place);
    let own = site_kinds(reading(place)->0, c.ends, c.rest, c.resumes);
    assert(layout.block_kinds.contains(own[0]));
    assert(layout.block_kinds.contains(own[1]));
    assert(is_cut(layout, k, c));
}

/// Every yield that the host reads is cut off and described as one: a block ends with
/// it, and the stored state resumes right behind it.
pub proof fn law_every_yield_resumes_behind_itself<B: CfgId, V: CfgId, F: FnId>(
    reading: SiteReading<B, V, F>,
    before: Body<B, V>,
    after: Body<B, V>,
    records: Seq<((B, usize), Vec<V>)>,
    first: u32,
    layout: LayoutView<B, V, F>,
    place: (B, usize),
)
    requires
        lawful_ids::<B>(),
        before.wf(),
        countable(before),
        transformed(reading, before, after, records, first, layout),
        layout.yield_blocks.len() < u32::MAX,
        before.at(place),
        reading(place) is Some,
        reading(place)->0 is DirectYield,
    ensures
        exists|c: Cut<B>, k: int|
            {
                &&& #[trigger] is_cut(layout, k, c)
                &&& place_is_cut(
                    before,
                    after,
                    |x: usize| reading((place.0, x)) is Some,
                    place.0,
                    place.1,
                    c,
                )
                &&& layout.block_kinds.contains((c.ends, KindView::DirectYield))
                &&& c.resumes == c.rest
            },
{
    let (c, k) = lemma_find_cut(reading, before, after, records, first, layout, place);
    let own = site_kinds(reading(place)->0, c.ends, c.rest, c.resumes);
    assert(layout.block_kinds.contains(own[0]));
    assert(is_cut(layout, k, c));
}

/// A layout has as many suspensions as the host reads places, no more: each stands
/// for one place of the body. Blocks without one are as they were, and none is lost.
pub proof fn law_nothing_else_is_cut<B: CfgId, V: CfgId, F: FnId>(
    reading: SiteReading<B, V, F>,
    before: Body<B, V>,
    after: Body<B, V>,
    records: Seq<((B, usize), Vec<V>)>,
    first: u32,
    layout: LayoutView<B, V, F>,
)
    requires
        lawful_ids::<B>(),
        before.wf(),
        countable(before),
        transformed(reading, before, after, records, first, layout),
    ensures
        forall|k: int|
            0 <= k < layout.yield_blocks.len() ==> exists|place: (B, usize)|
                before.at(place) && (#[trigger] reading(place)) is Some && after.blocks[(
                #[trigger] layout.yield_blocks[k]).0].stmts.last() == before.stmt(place),
        forall|b: B| #[trigger]
            before.has(b) ==> after.has(b) && ((forall|i: usize|
                i < before.blocks[b].stmts.len() ==> (#[trigger] reading((b, i))) is None)
                ==> after.blocks[b] == before.blocks[b]),
        layout.resume_entries.len() == layout.yield_blocks.len() + 1,
        layout.resume_entries[0] == before.order[0],
{
    let sites = sites_of(reading, before);
    let n = sites.len();
    let (tails, resumes) = choose|tails: Seq<B>, resumes: Seq<B>|
        {
            &&& tails.len() == sites.len()
            &&& resumes.len() == sites.len()
            &&& #[trigger] sites_split(before, after, sites, tails, resumes, sites.len())
            &&& layout == layout_of(before.order[0], sites, tails, resumes, records, first)
        };
    lemma_all_sited(reading, before);
    lemma_cut_up(before, after, sites, tails, resumes, n);
    assert forall|k: int| 0 <= k < layout.yield_blocks.len() implies exists|place: (B, usize)|
        before.at(place) && (#[trigger] reading(place)) is Some && after.blocks[(
        #[trigger] layout.yield_blocks[k]).0].stmts.last() == before.stmt(place) by {
        let s = sites[k];
        let place = (s.bb, s.idx);
        lemma_sited(before, sites, k, k);
        lemma_site_is_read(reading, before, k);
        assert(reading(place) is Some);
        assert(site_cut(before, after, sites, tails, resumes, n, k));
        reveal(site_cut);
        if follows(sites, k) {
            lemma_sited(before, sites, k - 1, k);
        }
    }
    assert forall|b: B| #[trigger] before.has(b) implies after.has(b) && ((forall|i: usize|
        i < before.blocks[b].stmts.len() ==> (#[trigger] reading((b, i))) is None)
        ==> after.blocks[b] == before.blocks[b]) by {
        assert(uncut_kept(before, after, sites, n, b));
        reveal(uncut_kept);
        if forall|i: usize|
            i < before.blocks[b].stmts.len() ==> (#[trigger] reading((b, i))) is None {
            assert forall|j: int| 0 <= j < n implies (#[trigger] sites[j]).bb != b by {
                lemma_sited(before, sites, j, j);
                lemma_site_is_read(reading, before, j);
            }
        }
    }
}

/// The values that live across a place are those of the first record for it; a place
/// without a record has none.
pub proof fn law_the_first_record_counts<B, V>(
    records: Seq<((B, usize), Vec<V>)>,
    place: (B, usize),
    j: int,
)
    ensures
        0 <= j < records.len() && records[j].0 == place && (forall|i: int|
            0 <= i < j ==> (#[trigger] records[i]).0 != place) ==> live_at(records, place)
            == records[j].1@,
        (forall|i: int| 0 <= i < records.len() ==> (#[trigger] records[i]).0 != place) ==> live_at(
            records,
            place,
        ).len() == 0,
    decreases records.len(),
{
    if records.len() > 0 {
        let rest = records.drop_first();
        law_the_first_record_counts(rest, place, j - 1);
        assert(records[0] == records.first());
        assert(forall|i: int| 0 <= i < rest.len() ==> #[trigger] rest[i] == records[i + 1]);
        if 0 < j < records.len() && (forall|i: int|
            0 <= i < j ==> (#[trigger] records[i]).0 != place) {
            assert(records[0].0 != place);
            assert forall|i: int| 0 <= i < j - 1 implies (#[trigger] rest[i]).0 != place by {
                assert(records[i + 1].0 != place);
            }
        }
        if forall|i: int| 0 <= i < records.len() ==> (#[trigger] records[i]).0 != place {
            assert(records[0].0 != place);
            assert forall|i: int| 0 <= i < rest.len() implies (#[trigger] rest[i]).0 != place by {
                assert(records[i + 1].0 != place);
            }
        }
    }
}

proof fn lemma_site_table<B, V, F>(
    sites: Seq<Site<B, V, F>>,
    records: Seq<((B, usize), Vec<V>)>,
    first: u32,
    keys: Seq<B>,
    other: Seq<B>,
    n: nat,
    k: int,
) -> (i: int)
    requires
        0 <= k < n <= sites.len(),
        live_at(records, (sites[k].bb, sites[k].idx)).len() > 0,
    ensures
        ({
            let live = live_at(records, (sites[k].bb, sites[k].idx));
            let table = slots_of(captured(sites, records), first, live);
            &&& 0 <= i < slot_tables(sites, records, first, keys, n).len()
            &&& slot_tables(sites, records, first, keys, n).len() == slot_tables(
                sites,
                records,
                first,
                other,
                n,
            ).len()
            &&& slot_tables(sites, records, first, keys, n)[i] == (keys[k], table)
            &&& slot_tables(sites, records, first, other, n)[i] == (other[k], table)
        }),
    decreases n,
{
    lemma_tables_level(sites, records, first, keys, other, n);
    lemma_tables_level(sites, records, first, keys, other, (n - 1) as nat);
    if k == n - 1 {
        slot_tables(sites, records, first, keys, (n - 1) as nat).len() as int
    } else {
        lemma_site_table(sites, records, first, keys, other, (n - 1) as nat, k)
    }
}

proof fn lemma_tables_level<B, V, F>(
    sites: Seq<Site<B, V, F>>,
    records: Seq<((B, usize), Vec<V>)>,
    first: u32,
    keys: Seq<B>,
    other: Seq<B>,
    n: nat,
)
    ensures
        slot_tables(sites, records, first, keys, n).len() == slot_tables(
            sites,
            records,
            first,
            other,
            n,
        ).len(),
    decreases n,
{
    if n > 0 {
        lemma_tables_level(sites, records, first, keys, other, (n - 1) as nat);
    }
}

/// A table holds just these values, in this order.
pub open spec fn holds_values<V>(table: Seq<(u32, V)>, values: Seq<V>) -> bool {
    &&& table.len() == values.len()
    &&& forall|x: int| 0 <= x < values.len() ==> (#[trigger] table[x]).1 == values[x]
}

/// What lives across a suspension is carried over: the block that ends with it saves
/// just those values, and the block that it resumes in loads each from the slot that
/// it was saved to.
pub proof fn law_what_lives_across_is_carried_over<B: CfgId, V: CfgId, F: FnId>(
    reading: SiteReading<B, V, F>,
    before: Body<B, V>,
    after: Body<B, V>,
    records: Seq<((B, usize), Vec<V>)>,
    first: u32,
    layout: LayoutView<B, V, F>,
    place: (B, usize),
)
    requires
        lawful_ids::<B>(),
        before.wf(),
        countable(before),
        transformed(reading, before, after, records, first, layout),
        layout.yield_blocks.len() < u32::MAX,
        before.at(place),
        reading(place) is Some,
        live_at(records, place).len() > 0,
    ensures
        exists|c: Cut<B>, k: int, i: int|
            {
                &&& #[trigger] is_cut(layout, k, c)
                &&& place_is_cut(
                    before,
                    after,
                    |x: usize| reading((place.0, x)) is Some,
                    place.0,
                    place.1,
                    c,
                )
                &&& 0 <= i < layout.yield_saves.len()
                &&& i < layout.resume_loads.len()
                &&& (#[trigger] layout.yield_saves[i]).0 == c.ends
                &&& layout.resume_loads[i].0 == c.resumes
                &&& holds_values(layout.yield_saves[i].1, live_at(records, place))
                &&& layout.resume_loads[i].1 == layout.yield_saves[i].1
            },
{
    let sites = sites_of(reading, before);
    let (tails, resumes) = choose|tails: Seq<B>, resumes: Seq<B>|
        {
            &&& tails.len() == sites.len()
            &&& resumes.len() == sites.len()
            &&& #[trigger] sites_split(before, after, sites, tails, resumes, sites.len())
            &&& layout == layout_of(before.order[0], sites, tails, resumes, records, first)
        };
    lemma_all_sited(reading, before);
    lemma_cut_up(before, after, sites, tails, resumes, sites.len());
    let site = Site { bb: place.0, idx: place.1, site: reading(place)->0 };
    assert(sites.contains(site)) by {
        law_sites_are_the_places_the_host_names(reading, before);
    }
    let k = sites.index_of(site);
    assert(sites[k] == site);
    lemma_place_cut(reading, before, after, tails, resumes, k);
    let c = Cut { ends: home(sites, tails, k), resumes: resumes[k], rest: tails[k] };
    assert(is_cut(layout, k, c));
    let i = lemma_site_table(
        sites,
        records,
        first,
        homes(sites, tails),
        resumes,
        sites.len(),
        k,
    );
    assert(layout.yield_saves[i].0 == c.ends);
}

proof fn lemma_table_has_a_site<B, V, F>(
    sites: Seq<Site<B, V, F>>,
    records: Seq<((B, usize), Vec<V>)>,
    first: u32,
    keys: Seq<B>,
    n: nat,
    i: int,
) -> (k: int)
    requires
        n <= sites.len(),
        0 <= i < slot_tables(sites, records, first, keys, n).len(),
    ensures
        0 <= k < n,
        slot_tables(sites, records, first, keys, n)[i].0 == keys[k],
        live_at(records, (sites[k].bb, sites[k].idx)).len() > 0,
    decreases n,
{
    let front = slot_tables(sites, records, first, keys, (n - 1) as nat);
    if i < front.len() {
        lemma_table_has_a_site(sites, records, first, keys, (n - 1) as nat, i)
    } else {
        n - 1
    }
}

/// Nothing is saved or loaded but at a suspension that something lives across.
pub proof fn law_nothing_else_is_carried<B: CfgId, V: CfgId, F: FnId>(
    reading: SiteReading<B, V, F>,
    before: Body<B, V>,
    after: Body<B, V>,
    records: Seq<((B, usize), Vec<V>)>,
    first: u32,
    layout: LayoutView<B, V, F>,
    i: int,
)
    requires
        transformed(reading, before, after, records, first, layout),
    ensures
        0 <= i < layout.yield_saves.len() ==> exists|k: int|
            0 <= k < layout.yield_blocks.len() && layout.yield_saves[i].0 == (
            #[trigger] layout.yield_blocks[k]).0,
        0 <= i < layout.resume_loads.len() ==> exists|k: int|
            1 <= k < layout.resume_entries.len() && layout.resume_loads[i].0
                == #[trigger] layout.resume_entries[k],
{
    let sites = sites_of(reading, before);
    let (tails, resumes) = choose|tails: Seq<B>, resumes: Seq<B>|
        {
            &&& tails.len() == sites.len()
            &&& resumes.len() == sites.len()
            &&& #[trigger] sites_split(before, after, sites, tails, resumes, sites.len())
            &&& layout == layout_of(before.order[0], sites, tails, resumes, records, first)
        };
    if 0 <= i < layout.yield_saves.len() {
        let k = lemma_table_has_a_site(
            sites,
            records,
            first,
            homes(sites, tails),
            sites.len(),
            i,
        );
        assert(layout.yield_blocks[k].0 == layout.yield_saves[i].0);
    }
    if 0 <= i < layout.resume_loads.len() {
        let k = lemma_table_has_a_site(sites, records, first, resumes, sites.len(), i);
        assert(layout.resume_entries[k + 1] == layout.resume_loads[i].0);
    }
}

/// A function that does not suspend is left as it was, and has no state at all; one
/// that may has its entry for a first state, even without a suspension of its own.
pub proof fn law_only_what_suspends_is_transformed<B: CfgId, V: CfgId, F: FnId>(
    reading: SiteReading<B, V, F>,
    suspends: bool,
    before: Body<B, V>,
    after: Body<B, V>,
    records: Seq<((B, usize), Vec<V>)>,
    first: u32,
    layout: LayoutView<B, V, F>,
)
    requires
        outcome(reading, suspends, before, after, records, first, layout),
    ensures
        !suspends ==> {
            &&& after == before
            &&& layout.resume_entries.len() == 0
            &&& layout.yield_blocks.len() == 0
            &&& layout.yield_saves.len() == 0
            &&& layout.resume_loads.len() == 0
            &&& layout.block_kinds.len() == 0
        },
        suspends ==> layout.resume_entries.len() == layout.yield_blocks.len() + 1
            && layout.resume_entries[0] == before.order[0],
{
}

/// Some table has an entry for the slot.
pub open spec fn slot_used<B, V>(tables: SlotTables<B, V>, slot: u32) -> bool {
    exists|i: int, x: int|
        0 <= i < tables.len() && 0 <= x < tables[i].1.len() && (#[trigger] tables[i].1[x]).0
            == slot
}

/// No table has a slot twice, and no slot lies past the bound, where there is one.
pub open spec fn tables_sound<B, V>(tables: SlotTables<B, V>, next_slot: u32) -> bool {
    &&& forall|i: int, x: int, y: int|
        0 <= i < tables.len() && 0 <= x < y < tables[i].1.len() ==> (#[trigger] tables[i].1[x]).0
            != (#[trigger] tables[i].1[y]).0
    &&& next_slot != u32::MAX ==> forall|i: int, x: int|
        0 <= i < tables.len() && 0 <= x < tables[i].1.len() ==> (#[trigger] tables[i].1[x]).0
            < next_slot
}

/// A table that has the slot twice.
pub open spec fn twice_in<B, V>(tables: SlotTables<B, V>, block: B, slot: u32) -> bool {
    exists|i: int, x: int, y: int|
        {
            &&& 0 <= i < tables.len()
            &&& tables[i].0 == block
            &&& 0 <= x < y < tables[i].1.len()
            &&& (#[trigger] tables[i].1[x]).0 == slot
            &&& (#[trigger] tables[i].1[y]).0 == slot
        }
}

proof fn lemma_table_fault<V>(entries: Seq<(u32, V)>, next_slot: u32, n: nat)
    requires
        n <= entries.len(),
    ensures
        match table_fault(entries, next_slot, n) {
            None => {
                &&& forall|x: int, y: int|
                    0 <= x < y < n ==> (#[trigger] entries[x]).0 != (#[trigger] entries[y]).0
                &&& next_slot != u32::MAX ==> forall|x: int|
                    0 <= x < n ==> (#[trigger] entries[x]).0 < next_slot
            },
            Some((k, EntryFault::Duplicate)) => 0 <= k < n && exists|x: int|
                0 <= x < k && (#[trigger] entries[x]).0 == entries[k].0,
            Some((k, EntryFault::OutOfRange)) => 0 <= k < n && next_slot != u32::MAX
                && entries[k].0 >= next_slot,
        },
    decreases n,
{
    if n > 0 {
        lemma_table_fault(entries, next_slot, (n - 1) as nat);
    }
}

/// What an error of the tables says is so.
spec fn says_so<B: CfgId, V>(
    tables: SlotTables<B, V>,
    next_slot: u32,
    saving: bool,
    e: LayoutError<B>,
) -> bool {
    match e {
        LayoutError::DuplicateSaveSlot { block, slot } => saving && twice_in(tables, block, slot),
        LayoutError::DuplicateLoadSlot { block, slot } => !saving && twice_in(
            tables,
            block,
            slot,
        ),
        LayoutError::SlotOutOfRange { slot, next_slot: bound } => bound == next_slot && next_slot
            != u32::MAX && slot >= next_slot && slot_used(tables, slot),
        _ => false,
    }
}

proof fn lemma_tables_error<B: CfgId, V>(
    tables: SlotTables<B, V>,
    next_slot: u32,
    saving: bool,
    n: nat,
)
    requires
        n <= tables.len(),
    ensures
        match tables_error(tables, next_slot, saving, n) {
            None => tables_sound(tables.take(n as int), next_slot),
            Some(e) => says_so(tables, next_slot, saving, e) && !tables_sound(tables, next_slot),
        },
    decreases n,
{
    if n > 0 {
        lemma_tables_error(tables, next_slot, saving, (n - 1) as nat);
        let t = tables[n - 1];
        lemma_table_fault(t.1, next_slot, t.1.len());
        let front = tables.take(n - 1);
        let some = tables.take(n as int);
        match tables_error(tables, next_slot, saving, (n - 1) as nat) {
            Some(e) => {},
            None => match table_fault(t.1, next_slot, t.1.len()) {
                None => {
                    assert forall|i: int, x: int, y: int|
                        0 <= i < some.len() && 0 <= x < y < some[i].1.len() implies (
                    #[trigger] some[i].1[x]).0 != (#[trigger] some[i].1[y]).0 by {
                        if i < n - 1 {
                            assert(front[i].1[x].0 != front[i].1[y].0);
                        }
                    }
                    if next_slot != u32::MAX {
                        assert forall|i: int, x: int|
                            0 <= i < some.len() && 0 <= x < some[i].1.len() implies (
                        #[trigger] some[i].1[x]).0 < next_slot by {
                            if i < n - 1 {
                                assert(front[i].1[x].0 < next_slot);
                            }
                        }
                    }
                },
                Some((k, EntryFault::Duplicate)) => {
                    let x = choose|x: int| 0 <= x < k && (#[trigger] t.1[x]).0 == t.1[k].0;
                    assert(tables[n - 1].1[x].0 == tables[n - 1].1[k].0);
                    assert(twice_in(tables, t.0, t.1[k].0));
                },
                Some((k, EntryFault::OutOfRange)) => {
                    assert(tables[n - 1].1[k].0 >= next_slot);
                    assert(slot_used(tables, t.1[k].0));
                },
            },
        }
    }
}

/// The audit passes a layout exactly when it has one entry more than suspensions, no
/// table has a slot twice or past the bound, and the slots that are saved are those
/// that are loaded.
pub proof fn law_the_audit_passes_what_is_sound<B: CfgId, V, F>(
    layout: LayoutView<B, V, F>,
    next_slot: u32,
    r: Result<(), LayoutError<B>>,
)
    requires
        audited(layout, next_slot, r),
    ensures
        r is Ok <==> {
            &&& layout.resume_entries.len() == layout.yield_blocks.len() + 1
            &&& tables_sound(layout.yield_saves, next_slot)
            &&& tables_sound(layout.resume_loads, next_slot)
            &&& forall|slot: u32| #[trigger]
                slot_used(layout.yield_saves, slot) == slot_used(layout.resume_loads, slot)
        },
{
    let saves = layout.yield_saves;
    let loads = layout.resume_loads;
    lemma_tables_error(saves, next_slot, true, saves.len());
    lemma_tables_error(loads, next_slot, false, loads.len());
    assert(saves.take(saves.len() as int) =~= saves);
    assert(loads.take(loads.len() as int) =~= loads);
    if all_matched(saves, loads) && all_matched(loads, saves) {
        assert forall|slot: u32| #[trigger] slot_used(saves, slot) == slot_used(loads, slot) by {
            assert(!unmatched(saves, loads, slot));
            assert(!unmatched(loads, saves, slot));
        }
    } else if !all_matched(saves, loads) {
        let slot = choose|slot: u32| #[trigger] unmatched(saves, loads, slot);
        assert(slot_used(saves, slot) != slot_used(loads, slot));
    } else {
        let slot = choose|slot: u32| #[trigger] unmatched(loads, saves, slot);
        assert(slot_used(saves, slot) != slot_used(loads, slot));
    }
}

/// What the audit says is wrong is wrong: the counts that it names differ from what
/// they should be; the slot that it names is twice in a table of the block that it
/// names, or lies past the bound, or is saved and not loaded, or loaded and not saved,
/// the least such one.
pub proof fn law_the_audit_tells_the_truth<B: CfgId, V, F>(
    layout: LayoutView<B, V, F>,
    next_slot: u32,
    e: LayoutError<B>,
)
    requires
        audited(layout, next_slot, Err(e)),
        layout.resume_entries.len() <= usize::MAX,
        layout.yield_blocks.len() <= usize::MAX,
    ensures
        match e {
            LayoutError::EntryCountMismatch { resume_entries, yield_blocks } => {
                &&& resume_entries == layout.resume_entries.len()
                &&& yield_blocks == layout.yield_blocks.len()
                &&& resume_entries != yield_blocks + 1
            },
            LayoutError::DuplicateSaveSlot { block, slot } => twice_in(
                layout.yield_saves,
                block,
                slot,
            ),
            LayoutError::DuplicateLoadSlot { block, slot } => twice_in(
                layout.resume_loads,
                block,
                slot,
            ),
            LayoutError::SlotOutOfRange { slot, next_slot: bound } => {
                &&& bound == next_slot
                &&& next_slot != u32::MAX
                &&& slot >= next_slot
                &&& slot_used(layout.yield_saves, slot) || slot_used(layout.resume_loads, slot)
            },
            LayoutError::SaveWithoutLoad { slot } => {
                &&& slot_used(layout.yield_saves, slot)
                &&& !slot_used(layout.resume_loads, slot)
                &&& forall|s: u32|
                    s < slot && #[trigger] slot_used(layout.yield_saves, s) ==> slot_used(
                        layout.resume_loads,
                        s,
                    )
            },
            LayoutError::LoadWithoutSave { slot } => {
                &&& slot_used(layout.resume_loads, slot)
                &&& !slot_used(layout.yield_saves, slot)
                &&& forall|s: u32|
                    s < slot && #[trigger] slot_used(layout.resume_loads, s) ==> slot_used(
                        layout.yield_saves,
                        s,
                    )
            },
        },
{
    let saves = layout.yield_saves;
    let loads = layout.resume_loads;
    lemma_tables_error(saves, next_slot, true, saves.len());
    lemma_tables_error(loads, next_slot, false, loads.len());
    if e is SaveWithoutLoad {
        assert forall|s: u32| s < e->SaveWithoutLoad_slot && #[trigger] slot_used(
            saves,
            s,
        ) implies slot_used(loads, s) by {
            if !slot_used(loads, s) {
                assert(unmatched(saves, loads, s));
            }
        }
    }
    if e is LoadWithoutSave {
        assert forall|s: u32| s < e->LoadWithoutSave_slot && #[trigger] slot_used(
            loads,
            s,
        ) implies slot_used(saves, s) by {
            if !slot_used(saves, s) {
                assert(unmatched(loads, saves, s));
            }
        }
    }
}

} // verus!
