//! What holds of every layout the transform hands back.
use vstd::prelude::*;

use crate::crossfn::layout::{
    live_at, LayoutView, SiteReading, SiteView, SlotTables, TransformOptions,
};
use crate::crossfn::transform::{
    all_live, captured, home, homes, layout_of, lemma_distinct, lemma_live_captured,
    no_layout, offset, outcome, site_split, sites_of, sites_split, slot_tables, slots_of, transformed, Site,
};
use crate::crossfn::validate::{
    all_matched, audited, in_tables, lemma_error_stays, lemma_fault_stays, out_of_range,
    table_fault, tables_error, unmatched, EntryFault, LayoutError,
};
use crate::crossfn::FnId;
use crate::stackless::model::Body;
use crate::vocab::CfgId;

verus! {

/// The entry count: one resume entry per suspension, and the original entry.
pub proof fn law_one_entry_more_than_yields<B: CfgId, V: CfgId, F: FnId>(
    reading: SiteReading<B, V, F>,
    before: Body<B, V>,
    after: Body<B, V>,
    records: Seq<((B, usize), Vec<V>)>,
    first: u32,
    layout: LayoutView<B, V, F>,
)
    requires
        transformed(reading, before, after, records, first, layout),
    ensures
        layout.resume_entries.len() == layout.yield_blocks.len() + 1,
        layout.resume_entries[0] == before.order[0],
        layout.yield_blocks.len() == sites_of(reading, before).len(),
{
}

/// A yield block stores the state whose entry resumes after it, as long as the
/// states can be told apart.
pub proof fn law_yield_state_selects_its_resume<B: CfgId, V: CfgId, F: FnId>(
    reading: SiteReading<B, V, F>,
    before: Body<B, V>,
    after: Body<B, V>,
    records: Seq<((B, usize), Vec<V>)>,
    first: u32,
    layout: LayoutView<B, V, F>,
    k: int,
)
    requires
        transformed(reading, before, after, records, first, layout),
        0 <= k < layout.yield_blocks.len(),
        layout.yield_blocks.len() < u32::MAX,
    ensures
        layout.yield_blocks[k].1 == k + 1,
        0 < layout.yield_blocks[k].1 < layout.resume_entries.len(),
{
}

/// Splitting a block at a site loses no statement and keeps their order, and the
/// terminator goes with the tail.
pub proof fn law_split_keeps_statements<B, V, F>(
    before: Body<B, V>,
    after: Body<B, V>,
    home_bb: B,
    at: int,
    site: SiteView<F, V>,
    tail: B,
    resume: B,
)
    requires
        site_split(before, after, home_bb, at, site, tail, resume),
        before.has(home_bb),
        0 <= at < before.blocks[home_bb].stmts.len(),
    ensures
        after.blocks[home_bb].stmts + after.blocks[tail].stmts == before.blocks[home_bb].stmts,
        after.blocks[home_bb].stmts.len() == at + 1,
        after.blocks[home_bb].term is Unset,
        after.blocks[tail].term == before.blocks[home_bb].term,
        forall|b: B| #[trigger]
            before.has(b) && b != home_bb ==> after.blocks[b] == before.blocks[b],
{
    assert(after.blocks[home_bb].stmts + after.blocks[tail].stmts
        =~= before.blocks[home_bb].stmts);
}

/// Every table of the first `n` sites is that of some site, and holds the slots
/// of what lives across it.
proof fn lemma_tables<B, V, F>(
    sites: Seq<Site<B, V, F>>,
    records: Seq<((B, usize), Vec<V>)>,
    first: u32,
    keys: Seq<B>,
    n: nat,
    i: int,
)
    requires
        n <= sites.len(),
        0 <= i < slot_tables(sites, records, first, keys, n).len(),
    ensures
        exists|k: int|
            0 <= k < n && slot_tables(sites, records, first, keys, n)[i] == (
                keys[k],
                slots_of(
                    captured(sites, records),
                    first,
                    #[trigger] live_at(records, (sites[k].bb, sites[k].idx)),
                ),
            ),
    decreases n,
{
    let prior = slot_tables(sites, records, first, keys, (n - 1) as nat);
    let live = live_at(records, (sites[n - 1].bb, sites[n - 1].idx));
    if live.len() > 0 && i == prior.len() {
        assert(slot_tables(sites, records, first, keys, n)[i] == (
            keys[n - 1],
            slots_of(captured(sites, records), first, live),
        ));
    } else {
        lemma_tables(sites, records, first, keys, (n - 1) as nat, i);
    }
}

/// Keying does not change what the tables hold.
proof fn lemma_same_tables<B, V, F>(
    sites: Seq<Site<B, V, F>>,
    records: Seq<((B, usize), Vec<V>)>,
    first: u32,
    keys: Seq<B>,
    other: Seq<B>,
    n: nat,
)
    ensures
        slot_tables(sites, records, first, keys, n).len() == slot_tables(
            sites,
            records,
            first,
            other,
            n,
        ).len(),
        forall|i: int|
            0 <= i < slot_tables(sites, records, first, keys, n).len() ==> (#[trigger] slot_tables(
                sites,
                records,
                first,
                keys,
                n,
            )[i]).1 == slot_tables(sites, records, first, other, n)[i].1,
    decreases n,
{
    if n > 0 {
        lemma_same_tables(sites, records, first, keys, other, (n - 1) as nat);
    }
}

/// What is saved at a suspension is what is loaded at its resume, slot for slot.
pub proof fn law_saves_match_loads<B: CfgId, V: CfgId, F: FnId>(
    reading: SiteReading<B, V, F>,
    before: Body<B, V>,
    after: Body<B, V>,
    records: Seq<((B, usize), Vec<V>)>,
    first: u32,
    layout: LayoutView<B, V, F>,
)
    requires
        transformed(reading, before, after, records, first, layout),
    ensures
        layout.yield_saves.len() == layout.resume_loads.len(),
        forall|i: int|
            0 <= i < layout.yield_saves.len() ==> (#[trigger] layout.yield_saves[i]).1
                == layout.resume_loads[i].1,
        all_matched(layout.yield_saves, layout.resume_loads),
        all_matched(layout.resume_loads, layout.yield_saves),
{
    let sites = sites_of(reading, before);
    let (tails, resumes) = choose|tails: Seq<B>, resumes: Seq<B>|
        {
            &&& tails.len() == sites.len()
            &&& resumes.len() == sites.len()
            &&& #[trigger] sites_split(before, after, sites, tails, resumes, sites.len())
            &&& layout == layout_of(before.order[0], sites, tails, resumes, records, first)
        };
    let saves = layout.yield_saves;
    let loads = layout.resume_loads;
    lemma_same_tables(sites, records, first, homes(sites, tails), resumes, sites.len());
    lemma_matched(saves, loads);
    lemma_same_tables(sites, records, first, resumes, homes(sites, tails), sites.len());
    lemma_matched(loads, saves);
}

proof fn lemma_matched<B, V>(a: SlotTables<B, V>, b: SlotTables<B, V>)
    requires
        a.len() == b.len(),
        forall|i: int| 0 <= i < a.len() ==> (#[trigger] a[i]).1 == b[i].1,
    ensures
        all_matched(a, b),
{
    assert forall|s: u32| !#[trigger] unmatched(a, b, s) by {
        if in_tables(a, s) {
            let (i, k) = choose|i: int, k: int|
                0 <= i < a.len() && 0 <= k < a[i].1.len() && (#[trigger] a[i].1[k]).0 == s;
            assert(b[i].1[k].0 == s);
        }
    }
}

/// Every slot of a layout lies past the host's reservation, and within one slot
/// per captured value.
pub proof fn law_slots_avoid_the_reservation<B: CfgId, V: CfgId, F: FnId>(
    reading: SiteReading<B, V, F>,
    before: Body<B, V>,
    after: Body<B, V>,
    records: Seq<((B, usize), Vec<V>)>,
    first: u32,
    layout: LayoutView<B, V, F>,
    slot: u32,
)
    requires
        transformed(reading, before, after, records, first, layout),
        first + captured(sites_of(reading, before), records).len() <= u32::MAX,
        in_tables(layout.yield_saves, slot) || in_tables(layout.resume_loads, slot),
    ensures
        first <= slot < first + captured(sites_of(reading, before), records).len(),
{
    let sites = sites_of(reading, before);
    law_saves_match_loads(reading, before, after, records, first, layout);
    assert(in_tables(layout.yield_saves, slot)) by {
        if in_tables(layout.resume_loads, slot) {
            assert(!unmatched(layout.resume_loads, layout.yield_saves, slot));
        }
    }
    let saves = layout.yield_saves;
    let (i, k) = choose|i: int, k: int|
        0 <= i < saves.len() && 0 <= k < saves[i].1.len() && (#[trigger] saves[i].1[k]).0 == slot;
    lemma_entry(reading, before, after, records, first, layout, i, k);
}

/// An entry of a save table: a captured value and the slot of its place.
proof fn lemma_entry<B: CfgId, V: CfgId, F: FnId>(
    reading: SiteReading<B, V, F>,
    before: Body<B, V>,
    after: Body<B, V>,
    records: Seq<((B, usize), Vec<V>)>,
    first: u32,
    layout: LayoutView<B, V, F>,
    i: int,
    k: int,
)
    requires
        transformed(reading, before, after, records, first, layout),
        first + captured(sites_of(reading, before), records).len() <= u32::MAX,
        0 <= i < layout.yield_saves.len(),
        0 <= k < layout.yield_saves[i].1.len(),
    ensures
        ({
            let c = captured(sites_of(reading, before), records);
            let e = layout.yield_saves[i].1[k];
            &&& c.contains(e.1)
            &&& e.0 == first + c.index_of(e.1)
            &&& 0 <= c.index_of(e.1) < c.len()
        }),
{
    let sites = sites_of(reading, before);
    let c = captured(sites, records);
    let (tails, resumes) = choose|tails: Seq<B>, resumes: Seq<B>|
        {
            &&& tails.len() == sites.len()
            &&& resumes.len() == sites.len()
            &&& #[trigger] sites_split(before, after, sites, tails, resumes, sites.len())
            &&& layout == layout_of(before.order[0], sites, tails, resumes, records, first)
        };
    lemma_tables(sites, records, first, homes(sites, tails), sites.len(), i);
    let x = choose|x: int|
        0 <= x < sites.len() && layout.yield_saves[i] == (
            homes(sites, tails)[x],
            slots_of(c, first, #[trigger] live_at(records, (sites[x].bb, sites[x].idx))),
        );
    let live = live_at(records, (sites[x].bb, sites[x].idx));
    lemma_live_captured(sites, records, x, sites.len());
    lemma_distinct(all_live(sites, records, sites.len()));
    assert(live.contains(live[k]));
    assert(c.contains(live[k]));
}

/// One slot per value: two entries of a layout's tables share a slot exactly when
/// they hold the same value.
pub proof fn law_one_slot_per_value<B: CfgId, V: CfgId, F: FnId>(
    reading: SiteReading<B, V, F>,
    before: Body<B, V>,
    after: Body<B, V>,
    records: Seq<((B, usize), Vec<V>)>,
    first: u32,
    layout: LayoutView<B, V, F>,
    i: int,
    k: int,
    j: int,
    l: int,
)
    requires
        transformed(reading, before, after, records, first, layout),
        first + captured(sites_of(reading, before), records).len() <= u32::MAX,
        0 <= i < layout.yield_saves.len(),
        0 <= k < layout.yield_saves[i].1.len(),
        0 <= j < layout.yield_saves.len(),
        0 <= l < layout.yield_saves[j].1.len(),
    ensures
        (layout.yield_saves[i].1[k].0 == layout.yield_saves[j].1[l].0) == (
        layout.yield_saves[i].1[k].1 == layout.yield_saves[j].1[l].1),
{
    let c = captured(sites_of(reading, before), records);
    lemma_entry(reading, before, after, records, first, layout, i, k);
    lemma_entry(reading, before, after, records, first, layout, j, l);
    lemma_distinct(all_live(sites_of(reading, before), records, sites_of(reading, before).len()));
    let v = layout.yield_saves[i].1[k].1;
    let w = layout.yield_saves[j].1[l].1;
    assert(c[c.index_of(v)] == v);
    assert(c[c.index_of(w)] == w);
}

/// A table with no slot twice, and none out of range, among its first `n`, has no
/// fault there.
proof fn lemma_no_fault<V>(entries: Seq<(u32, V)>, next_slot: u32, n: nat)
    requires
        n <= entries.len(),
        forall|i: int, j: int|
            0 <= i < j < n ==> (#[trigger] entries[i]).0 != (#[trigger] entries[j]).0,
        forall|i: int| 0 <= i < n ==> !out_of_range((#[trigger] entries[i]).0, next_slot),
    ensures
        table_fault(entries, next_slot, n) is None,
    decreases n,
{
    if n > 0 {
        lemma_no_fault(entries, next_slot, (n - 1) as nat);
    }
}

/// What lives across a site.
pub open spec fn live_across<B, V, F>(
    sites: Seq<Site<B, V, F>>,
    records: Seq<((B, usize), Vec<V>)>,
    k: int,
) -> Seq<V> {
    live_at(records, (sites[k].bb, sites[k].idx))
}

/// The slots of what lives across one site: they are in range, and two are the same
/// exactly where the values are.
proof fn lemma_site_slots<B, V, F>(
    sites: Seq<Site<B, V, F>>,
    records: Seq<((B, usize), Vec<V>)>,
    first: u32,
    k: int,
)
    requires
        0 <= k < sites.len(),
        first + captured(sites, records).len() <= u32::MAX,
    ensures
        ({
            let c = captured(sites, records);
            let live = live_across(sites, records, k);
            let slots = slots_of(c, first, live);
            &&& forall|i: int|
                0 <= i < live.len() ==> first <= (#[trigger] slots[i]).0 < first + c.len()
            &&& forall|i: int, j: int|
                0 <= i < live.len() && 0 <= j < live.len() ==> ((#[trigger] slots[i]).0 == (
                #[trigger] slots[j]).0) == (live[i] == live[j])
        }),
{
    let c = captured(sites, records);
    let live = live_across(sites, records, k);
    let slots = slots_of(c, first, live);
    lemma_live_captured(sites, records, k, sites.len());
    lemma_distinct(all_live(sites, records, sites.len()));
    assert forall|i: int| 0 <= i < live.len() implies c.contains(#[trigger] live[i])
        && 0 <= c.index_of(live[i]) < c.len() && c[c.index_of(live[i])] == live[i] by {
        assert(live.contains(live[i]));
    }
    assert forall|i: int, j: int| 0 <= i < live.len() && 0 <= j < live.len() implies ((
    #[trigger] slots[i]).0 == (#[trigger] slots[j]).0) == (live[i] == live[j]) by {
        assert(slots[i].0 == first + c.index_of(live[i]));
        assert(slots[j].0 == first + c.index_of(live[j]));
    }
}

/// The tables of the first `n` sites have no fault where nothing lives across one of
/// them twice.
proof fn lemma_no_error<B: CfgId, V, F>(
    sites: Seq<Site<B, V, F>>,
    records: Seq<((B, usize), Vec<V>)>,
    first: u32,
    keys: Seq<B>,
    next_slot: u32,
    saving: bool,
    n: nat,
)
    requires
        n <= sites.len(),
        first + captured(sites, records).len() <= next_slot,
        forall|k: int|
            0 <= k < n ==> (#[trigger] live_across(sites, records, k)).no_duplicates(),
    ensures
        ({
            let tables = slot_tables(sites, records, first, keys, n);
            tables_error(tables, next_slot, saving, tables.len()) is None
        }),
    decreases n,
{
    if n > 0 {
        lemma_no_error(sites, records, first, keys, next_slot, saving, (n - 1) as nat);
        let front = slot_tables(sites, records, first, keys, (n - 1) as nat);
        let tables = slot_tables(sites, records, first, keys, n);
        let live = live_across(sites, records, n - 1);
        lemma_error_local(front, tables, next_slot, saving, front.len());
        if live.len() > 0 {
            let entries = slots_of(captured(sites, records), first, live);
            lemma_site_slots(sites, records, first, n - 1);
            assert(live.no_duplicates());
            assert forall|i: int, j: int| 0 <= i < j < entries.len() implies (
            #[trigger] entries[i]).0 != (#[trigger] entries[j]).0 by {
                assert(live[i] != live[j]);
            }
            lemma_no_fault(entries, next_slot, entries.len());
            assert(tables[front.len() as int] == (keys[n - 1], entries));
        }
    }
}

/// The first tables alone decide what is wrong with them.
proof fn lemma_error_local<B: CfgId, V>(
    a: SlotTables<B, V>,
    b: SlotTables<B, V>,
    next_slot: u32,
    saving: bool,
    n: nat,
)
    requires
        n <= a.len(),
        n <= b.len(),
        forall|i: int| 0 <= i < n ==> #[trigger] a[i] == b[i],
    ensures
        tables_error(a, next_slot, saving, n) == tables_error(b, next_slot, saving, n),
    decreases n,
{
    if n > 0 {
        lemma_error_local(a, b, next_slot, saving, (n - 1) as nat);
        assert(a[n - 1] == b[n - 1]);
    }
}

/// More sites only add tables.
proof fn lemma_tables_grow<B, V, F>(
    sites: Seq<Site<B, V, F>>,
    records: Seq<((B, usize), Vec<V>)>,
    first: u32,
    keys: Seq<B>,
    n: nat,
    m: nat,
)
    requires
        n <= m,
    ensures
        ({
            let few = slot_tables(sites, records, first, keys, n);
            let more = slot_tables(sites, records, first, keys, m);
            &&& few.len() <= more.len()
            &&& forall|i: int| 0 <= i < few.len() ==> #[trigger] few[i] == more[i]
        }),
    decreases m,
{
    if n < m {
        lemma_tables_grow(sites, records, first, keys, n, (m - 1) as nat);
    }
}

/// The audit passes what the transform produces, as long as no value is recorded
/// twice for one site and the bound leaves room for the captured values.
pub proof fn law_audit_passes_the_transform<B: CfgId, V: CfgId, F: FnId>(
    reading: SiteReading<B, V, F>,
    before: Body<B, V>,
    after: Body<B, V>,
    records: Seq<((B, usize), Vec<V>)>,
    first: u32,
    layout: LayoutView<B, V, F>,
    next_slot: u32,
    r: Result<(), LayoutError<B>>,
)
    requires
        transformed(reading, before, after, records, first, layout),
        first + captured(sites_of(reading, before), records).len() <= next_slot,
        forall|k: int|
            0 <= k < sites_of(reading, before).len() ==> (#[trigger] live_across(
                sites_of(reading, before),
                records,
                k,
            )).no_duplicates(),
        audited(layout, next_slot, r),
    ensures
        r is Ok,
{
    let sites = sites_of(reading, before);
    let (tails, resumes) = choose|tails: Seq<B>, resumes: Seq<B>|
        {
            &&& tails.len() == sites.len()
            &&& resumes.len() == sites.len()
            &&& #[trigger] sites_split(before, after, sites, tails, resumes, sites.len())
            &&& layout == layout_of(before.order[0], sites, tails, resumes, records, first)
        };
    law_saves_match_loads(reading, before, after, records, first, layout);
    let keys = homes(sites, tails);
    lemma_no_error(sites, records, first, keys, next_slot, true, sites.len());
    lemma_no_error(sites, records, first, resumes, next_slot, false, sites.len());
}

/// With such a bound, the audit refuses what the transform produces where a value is
/// recorded twice for one site: at the first such site `k`, for its yield block, and with the slot of
/// the first value there that is repeated, the one in place `j`.
pub proof fn law_audit_refuses_a_repeated_value<B: CfgId, V: CfgId, F: FnId>(
    reading: SiteReading<B, V, F>,
    before: Body<B, V>,
    after: Body<B, V>,
    records: Seq<((B, usize), Vec<V>)>,
    first: u32,
    layout: LayoutView<B, V, F>,
    next_slot: u32,
    r: Result<(), LayoutError<B>>,
    k: int,
    i: int,
    j: int,
)
    requires
        transformed(reading, before, after, records, first, layout),
        first + captured(sites_of(reading, before), records).len() <= next_slot,
        0 <= k < sites_of(reading, before).len(),
        forall|x: int|
            0 <= x < k ==> (#[trigger] live_across(
                sites_of(reading, before),
                records,
                x,
            )).no_duplicates(),
        ({
            let live = live_across(sites_of(reading, before), records, k);
            &&& 0 <= i < j < live.len()
            &&& live[i] == live[j]
            &&& live.take(j).no_duplicates()
        }),
        audited(layout, next_slot, r),
    ensures
        r == Err::<(), LayoutError<B>>(
            LayoutError::DuplicateSaveSlot {
                block: layout.yield_blocks[k].0,
                slot: (first + captured(sites_of(reading, before), records).index_of(
                    live_across(sites_of(reading, before), records, k)[j],
                )) as u32,
            },
        ),
{
    let sites = sites_of(reading, before);
    let c = captured(sites, records);
    let live = live_across(sites, records, k);
    let (tails, resumes) = choose|tails: Seq<B>, resumes: Seq<B>|
        {
            &&& tails.len() == sites.len()
            &&& resumes.len() == sites.len()
            &&& #[trigger] sites_split(before, after, sites, tails, resumes, sites.len())
            &&& layout == layout_of(before.order[0], sites, tails, resumes, records, first)
        };
    let keys = homes(sites, tails);
    let saves = layout.yield_saves;
    let front = slot_tables(sites, records, first, keys, k as nat);
    let some = slot_tables(sites, records, first, keys, (k + 1) as nat);
    lemma_no_error(sites, records, first, keys, next_slot, true, k as nat);
    lemma_tables_grow(sites, records, first, keys, (k + 1) as nat, sites.len());
    let entries = slots_of(c, first, live);
    let n = front.len();
    assert(some == front.push((keys[k], entries)));
    assert(some[n as int] == (keys[k], entries));
    assert(saves[n as int] == (keys[k], entries));
    assert forall|x: int| 0 <= x < n implies #[trigger] front[x] == saves[x] by {
        assert(some[x] == front[x]);
    }
    lemma_error_local(front, saves, next_slot, true, n);

    lemma_site_slots(sites, records, first, k);
    assert forall|x: int, y: int| 0 <= x < y < j implies (#[trigger] entries[x]).0 != (
    #[trigger] entries[y]).0 by {
        assert(live.take(j)[x] == live[x] && live.take(j)[y] == live[y]);
    }
    lemma_no_fault(entries, next_slot, j as nat);
    assert(entries[i].0 == entries[j].0);
    assert(table_fault(entries, next_slot, (j + 1) as nat) == Some((j, EntryFault::Duplicate)));
    lemma_fault_stays(entries, next_slot, (j + 1) as nat, entries.len());
    assert(tables_error(saves, next_slot, true, n + 1) is Some);
    lemma_error_stays(saves, next_slot, true, n + 1, saves.len());
}

/// The first place of a list that repeats an earlier one, if there is any.
proof fn lemma_first_repeat<V>(live: Seq<V>, n: int) -> (ij: (int, int))
    requires
        0 <= n <= live.len(),
        !live.take(n).no_duplicates(),
    ensures
        0 <= ij.0 < ij.1 < n,
        live[ij.0] == live[ij.1],
        live.take(ij.1).no_duplicates(),
    decreases n,
{
    if !live.take(n - 1).no_duplicates() {
        lemma_first_repeat(live, n - 1)
    } else {
        let all = live.take(n);
        let front = live.take(n - 1);
        let (x, y) = choose|x: int, y: int|
            0 <= x < all.len() && 0 <= y < all.len() && x != y && all[x] == all[y];
        if x < n - 1 && y < n - 1 {
            assert(front[x] == front[y]);
        }
        if x < y {
            (x, y)
        } else {
            (y, x)
        }
    }
}

/// The first site that something lives across twice, if there is any.
proof fn lemma_first_repeating_site<B, V, F>(
    sites: Seq<Site<B, V, F>>,
    records: Seq<((B, usize), Vec<V>)>,
    n: int,
) -> (k: int)
    requires
        0 <= n <= sites.len(),
        exists|k: int| 0 <= k < n && !(#[trigger] live_across(sites, records, k)).no_duplicates(),
    ensures
        0 <= k < n,
        !live_across(sites, records, k).no_duplicates(),
        forall|x: int|
            0 <= x < k ==> (#[trigger] live_across(sites, records, x)).no_duplicates(),
    decreases n,
{
    if exists|k: int|
        0 <= k < n - 1 && !(#[trigger] live_across(sites, records, k)).no_duplicates() {
        lemma_first_repeating_site(sites, records, n - 1)
    } else {
        n - 1
    }
}

/// With a bound that leaves room for the captured values, the audit passes what the
/// transform produces exactly when nothing lives across a site twice; what it
/// refuses, it refuses for a slot that is saved twice.
pub proof fn law_audit_finds_repeats_and_nothing_else<
    B: CfgId,
    V: CfgId,
    F: FnId,
>(
    reading: SiteReading<B, V, F>,
    before: Body<B, V>,
    after: Body<B, V>,
    records: Seq<((B, usize), Vec<V>)>,
    first: u32,
    layout: LayoutView<B, V, F>,
    next_slot: u32,
    r: Result<(), LayoutError<B>>,
)
    requires
        transformed(reading, before, after, records, first, layout),
        first + captured(sites_of(reading, before), records).len() <= next_slot,
        audited(layout, next_slot, r),
    ensures
        r is Ok <==> forall|k: int|
            0 <= k < sites_of(reading, before).len() ==> (#[trigger] live_across(
                sites_of(reading, before),
                records,
                k,
            )).no_duplicates(),
        r is Err ==> r->Err_0 is DuplicateSaveSlot,
{
    let sites = sites_of(reading, before);
    if forall|k: int|
        0 <= k < sites.len() ==> (#[trigger] live_across(sites, records, k)).no_duplicates() {
        law_audit_passes_the_transform(
            reading,
            before,
            after,
            records,
            first,
            layout,
            next_slot,
            r,
        );
    } else {
        let k = lemma_first_repeating_site(sites, records, sites.len() as int);
        let live = live_across(sites, records, k);
        assert(live.take(live.len() as int) =~= live);
        let (i, j) = lemma_first_repeat(live, live.len() as int);
        law_audit_refuses_a_repeated_value(
            reading,
            before,
            after,
            records,
            first,
            layout,
            next_slot,
            r,
            k,
            i,
            j,
        );
    }
}

/// The audit refuses the layout of a function that does not suspend: it has no entry
/// at all.
pub proof fn law_audit_refuses_what_does_not_suspend<
    B: CfgId,
    V: CfgId,
    F: FnId,
>(next_slot: u32, r: Result<(), LayoutError<B>>)
    requires
        audited(no_layout::<B, V, F>(), next_slot, r),
    ensures
        r == Err::<(), LayoutError<B>>(
            LayoutError::EntryCountMismatch { resume_entries: 0, yield_blocks: 0 },
        ),
{
}

/// Every slot `k` further on.
pub open spec fn shifted_tables<B, V>(tables: SlotTables<B, V>, k: u32) -> SlotTables<B, V> {
    Seq::new(
        tables.len(),
        |i: int|
            (
                tables[i].0,
                Seq::new(
                    tables[i].1.len(),
                    |j: int| ((tables[i].1[j].0 + k) as u32, tables[i].1[j].1),
                ),
            ),
    )
}

/// The layout with every slot `k` further on, and nothing else changed.
pub open spec fn shifted<B, V, F>(layout: LayoutView<B, V, F>, k: u32) -> LayoutView<B, V, F> {
    LayoutView {
        yield_saves: shifted_tables(layout.yield_saves, k),
        resume_loads: shifted_tables(layout.resume_loads, k),
        ..layout
    }
}

proof fn lemma_tables_shift<B, V, F>(
    sites: Seq<Site<B, V, F>>,
    records: Seq<((B, usize), Vec<V>)>,
    k: u32,
    keys: Seq<B>,
    n: nat,
)
    requires
        n <= sites.len(),
        k + captured(sites, records).len() <= u32::MAX,
    ensures
        slot_tables(sites, records, k, keys, n) == shifted_tables(
            slot_tables(sites, records, 0, keys, n),
            k,
        ),
    decreases n,
{
    let base = slot_tables(sites, records, 0, keys, n);
    let moved = slot_tables(sites, records, k, keys, n);
    if n == 0 {
        assert(moved =~= shifted_tables(base, k));
    } else {
        lemma_tables_shift(sites, records, k, keys, (n - 1) as nat);
        let front = slot_tables(sites, records, 0, keys, (n - 1) as nat);
        let live = live_across(sites, records, n - 1);
        if live.len() > 0 {
            let c = captured(sites, records);
            lemma_site_slots(sites, records, 0, n - 1);
            lemma_site_slots(sites, records, k, n - 1);
            let low = slots_of(c, 0, live);
            let high = slots_of(c, k, live);
            lemma_live_captured(sites, records, n - 1, sites.len());
            lemma_distinct(all_live(sites, records, sites.len()));
            assert forall|i: int| 0 <= i < live.len() implies (#[trigger] high[i]).0 == low[i].0
                + k by {
                assert(live.contains(live[i]));
                assert(c.contains(live[i]));
                assert(0 <= c.index_of(live[i]) < c.len());
            }
            let last = shifted_tables(base, k)[front.len() as int];
            assert(base[front.len() as int] == (keys[n - 1], low));
            assert(last.1 =~= high);
        }
        assert(moved =~= shifted_tables(base, k)) by {
            assert forall|i: int| 0 <= i < front.len() implies #[trigger] moved[i]
                == shifted_tables(base, k)[i] by {
                assert(base[i] == front[i]);
                assert(shifted_tables(front, k)[i] == shifted_tables(base, k)[i]);
            }
        }
    }
}

/// Two splits of one body that were handed the same ids are the same.
proof fn lemma_ids_decide<B, V, F>(
    before: Body<B, V>,
    a: Body<B, V>,
    b: Body<B, V>,
    sites: Seq<Site<B, V, F>>,
    tails: Seq<B>,
    resumes: Seq<B>,
    other_tails: Seq<B>,
    other_resumes: Seq<B>,
    n: nat,
)
    requires
        sites_split(before, a, sites, tails, resumes, n),
        sites_split(before, b, sites, other_tails, other_resumes, n),
        a.order == b.order,
    ensures
        a == b,
        forall|k: int| 0 <= k < n ==> tails[k] == other_tails[k],
        forall|k: int| 0 <= k < n ==> resumes[k] == other_resumes[k],
    decreases n,
{
    if n > 0 {
        let m = choose|mid: Body<B, V>|
            sites_split(before, mid, sites, tails, resumes, (n - 1) as nat)
                && #[trigger] site_split(
                mid,
                a,
                home(sites, tails, n - 1),
                offset(sites, n - 1),
                sites[n - 1].site,
                tails[n - 1],
                resumes[n - 1],
            );
        let o = choose|mid: Body<B, V>|
            sites_split(before, mid, sites, other_tails, other_resumes, (n - 1) as nat)
                && #[trigger] site_split(
                mid,
                b,
                home(sites, other_tails, n - 1),
                offset(sites, n - 1),
                sites[n - 1].site,
                other_tails[n - 1],
                other_resumes[n - 1],
            );
        match sites[n - 1].site {
            SiteView::DirectYield { .. } => {
                assert(a.order == m.order.push(tails[n - 1]));
                assert(b.order == o.order.push(other_tails[n - 1]));
                assert(a.order.last() == tails[n - 1]);
                assert(b.order.last() == other_tails[n - 1]);
                assert(a.order.drop_last() =~= m.order);
                assert(b.order.drop_last() =~= o.order);
            },
            SiteView::CrossFnCall { .. } => {
                assert(a.order == m.order.push(tails[n - 1]).push(resumes[n - 1]));
                assert(b.order == o.order.push(other_tails[n - 1]).push(other_resumes[n - 1]));
                assert(a.order.last() == resumes[n - 1]);
                assert(b.order.last() == other_resumes[n - 1]);
                let x = a.order.drop_last();
                assert(x =~= m.order.push(tails[n - 1]));
                assert(x =~= o.order.push(other_tails[n - 1]));
                assert(x.last() == tails[n - 1] && x.last() == other_tails[n - 1]);
                assert(x.drop_last() =~= m.order);
                assert(x.drop_last() =~= o.order);
            },
        }
        lemma_ids_decide(
            before,
            m,
            o,
            sites,
            tails,
            resumes,
            other_tails,
            other_resumes,
            (n - 1) as nat,
        );
    }
}

/// Reserving `k` slots shifts every slot by `k`, and changes nothing else: a run that
/// reserves none and one that reserves `k`, handed the same fresh block ids, leave
/// the same body, and layouts that differ in their slots alone.
pub proof fn law_a_reservation_shifts_the_slots<B: CfgId, V: CfgId, F: FnId>(
    reading: SiteReading<B, V, F>,
    suspends: bool,
    before: Body<B, V>,
    after: Body<B, V>,
    other: Body<B, V>,
    records: Seq<((B, usize), Vec<V>)>,
    k: u32,
    layout: LayoutView<B, V, F>,
    reserving: LayoutView<B, V, F>,
)
    requires
        outcome(reading, suspends, before, after, records, 0, layout),
        outcome(reading, suspends, before, other, records, k, reserving),
        after.order == other.order,
        suspends ==> k + captured(sites_of(reading, before), records).len() <= u32::MAX,
    ensures
        other == after,
        reserving == shifted(layout, k),
        reserving.resume_entries == layout.resume_entries,
        reserving.yield_blocks == layout.yield_blocks,
        reserving.block_kinds == layout.block_kinds,
{
    if suspends {
        let sites = sites_of(reading, before);
        let (t, s) = choose|tails: Seq<B>, resumes: Seq<B>|
            {
                &&& tails.len() == sites.len()
                &&& resumes.len() == sites.len()
                &&& #[trigger] sites_split(before, after, sites, tails, resumes, sites.len())
                &&& layout == layout_of(before.order[0], sites, tails, resumes, records, 0)
            };
        let (u, v) = choose|tails: Seq<B>, resumes: Seq<B>|
            {
                &&& tails.len() == sites.len()
                &&& resumes.len() == sites.len()
                &&& #[trigger] sites_split(before, other, sites, tails, resumes, sites.len())
                &&& reserving == layout_of(before.order[0], sites, tails, resumes, records, k)
            };
        lemma_ids_decide(before, after, other, sites, t, s, u, v, sites.len());
        assert(t =~= u && s =~= v);
        lemma_tables_shift(sites, records, k, homes(sites, t), sites.len());
        lemma_tables_shift(sites, records, k, s, sites.len());
    } else {
        assert(shifted_tables(layout.yield_saves, k) =~= reserving.yield_saves);
        assert(shifted_tables(layout.resume_loads, k) =~= reserving.resume_loads);
    }
}

/// The call without options agrees with the one that reserves no slot: handed the
/// same fresh block ids, both leave the same body and hand back the same layout.
pub proof fn law_the_default_reserves_nothing<B: CfgId, V: CfgId, F: FnId>(
    reading: SiteReading<B, V, F>,
    suspends: bool,
    before: Body<B, V>,
    after: Body<B, V>,
    other: Body<B, V>,
    records: Seq<((B, usize), Vec<V>)>,
    options: TransformOptions,
    layout: LayoutView<B, V, F>,
    with_options: LayoutView<B, V, F>,
)
    requires
        options.reserved_slots == 0,
        outcome(reading, suspends, before, after, records, 0, layout),
        outcome(
            reading,
            suspends,
            before,
            other,
            records,
            options.reserved_slots,
            with_options,
        ),
        after.order == other.order,
    ensures
        other == after,
        with_options == layout,
{
    if suspends {
        let sites = sites_of(reading, before);
        let (t, s) = choose|tails: Seq<B>, resumes: Seq<B>|
            {
                &&& tails.len() == sites.len()
                &&& resumes.len() == sites.len()
                &&& #[trigger] sites_split(before, after, sites, tails, resumes, sites.len())
                &&& layout == layout_of(before.order[0], sites, tails, resumes, records, 0)
            };
        let (u, v) = choose|tails: Seq<B>, resumes: Seq<B>|
            {
                &&& tails.len() == sites.len()
                &&& resumes.len() == sites.len()
                &&& #[trigger] sites_split(before, other, sites, tails, resumes, sites.len())
                &&& with_options == layout_of(
                    before.order[0],
                    sites,
                    tails,
                    resumes,
                    records,
                    0,
                )
            };
        lemma_ids_decide(before, after, other, sites, t, s, u, v, sites.len());
        assert(t =~= u && s =~= v);
    }
}

} // verus!
