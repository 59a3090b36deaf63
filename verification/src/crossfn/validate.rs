//! Layout validation: an audit pass over a [`StateMachineLayout`] that catches
//! misuse before a host emits broken code.
use vstd::prelude::*;
use vstd::string::StringExecFns;

use crate::crossfn::layout::{tables_view, FnId, LayoutView, SlotTables, StateMachineLayout};
use crate::text::{decimal, decimal_of};
use crate::vocab::CfgId;

verus! {

/// What [`validate_layout`] finds wrong.
#[derive(Debug)]
#[non_exhaustive]
pub enum LayoutError<B: CfgId> {
    /// A slot is saved at one or more yield blocks but never loaded at any
    /// resume.
    SaveWithoutLoad { slot: u32 },
    /// A slot is loaded at one or more resume blocks but never saved at any
    /// yield.
    LoadWithoutSave { slot: u32 },
    /// The same slot appears twice in a single block's save table.
    DuplicateSaveSlot { block: B, slot: u32 },
    /// The same slot appears twice in a single block's load table.
    DuplicateLoadSlot { block: B, slot: u32 },
    /// The resume entries are not one more than the yield blocks.
    EntryCountMismatch { resume_entries: usize, yield_blocks: usize },
    /// A slot in the tables lies beyond the upper bound.
    SlotOutOfRange { slot: u32, next_slot: u32 },
}

/// The slot lies beyond the upper bound; `u32::MAX` stands for no bound.
pub open spec fn out_of_range(slot: u32, next_slot: u32) -> bool {
    next_slot != u32::MAX && slot >= next_slot
}

/// What is wrong with one entry of a block's table.
pub enum EntryFault {
    Duplicate,
    OutOfRange,
}

pub open spec fn entry_fault<V>(entries: Seq<(u32, V)>, k: int, next_slot: u32) -> Option<
    EntryFault,
> {
    if exists|j: int| 0 <= j < k && (#[trigger] entries[j]).0 == entries[k].0 {
        Some(EntryFault::Duplicate)
    } else if out_of_range(entries[k].0, next_slot) {
        Some(EntryFault::OutOfRange)
    } else {
        None
    }
}

/// The first faulty entry among the first `n` of a table, with its fault.
pub open spec fn table_fault<V>(entries: Seq<(u32, V)>, next_slot: u32, n: nat) -> Option<
    (int, EntryFault),
>
    decreases n,
{
    if n == 0 {
        None
    } else {
        match table_fault(entries, next_slot, (n - 1) as nat) {
            Some(f) => Some(f),
            None => match entry_fault(entries, n - 1, next_slot) {
                Some(fault) => Some((n - 1, fault)),
                None => None,
            },
        }
    }
}

/// A table's fault as an error. `saving` tells save tables from load tables.
pub open spec fn table_error<B: CfgId, V>(
    table: (B, Seq<(u32, V)>),
    next_slot: u32,
    saving: bool,
) -> Option<LayoutError<B>> {
    match table_fault(table.1, next_slot, table.1.len()) {
        None => None,
        Some((k, EntryFault::Duplicate)) => {
            let slot = table.1[k].0;
            if saving {
                Some(LayoutError::DuplicateSaveSlot { block: table.0, slot })
            } else {
                Some(LayoutError::DuplicateLoadSlot { block: table.0, slot })
            }
        },
        Some((k, EntryFault::OutOfRange)) => Some(
            LayoutError::SlotOutOfRange { slot: table.1[k].0, next_slot },
        ),
    }
}

/// The first error among the first `n` tables.
pub open spec fn tables_error<B: CfgId, V>(
    tables: SlotTables<B, V>,
    next_slot: u32,
    saving: bool,
    n: nat,
) -> Option<LayoutError<B>>
    decreases n,
{
    if n == 0 {
        None
    } else {
        match tables_error(tables, next_slot, saving, (n - 1) as nat) {
            Some(e) => Some(e),
            None => table_error(tables[n - 1], next_slot, saving),
        }
    }
}

/// The slot is in some table.
pub open spec fn in_tables<B, V>(tables: SlotTables<B, V>, slot: u32) -> bool {
    exists|i: int, k: int|
        0 <= i < tables.len() && 0 <= k < tables[i].1.len() && (#[trigger] tables[i].1[k]).0 == slot
}

/// The slot is in some table of `a` and in none of `b`.
pub open spec fn unmatched<B, V>(a: SlotTables<B, V>, b: SlotTables<B, V>, slot: u32) -> bool {
    in_tables(a, slot) && !in_tables(b, slot)
}

/// The least slot that is in some table of `a` and in none of `b`.
pub open spec fn is_least_unmatched<B, V>(
    a: SlotTables<B, V>,
    b: SlotTables<B, V>,
    slot: u32,
) -> bool {
    unmatched(a, b, slot) && forall|s: u32| #[trigger] unmatched(a, b, s) ==> slot <= s
}

pub open spec fn all_matched<B, V>(a: SlotTables<B, V>, b: SlotTables<B, V>) -> bool {
    forall|s: u32| !#[trigger] unmatched(a, b, s)
}

/// What the audit finds first: a wrong count of entries, then a faulty save
/// table, then a faulty load table, then the least slot saved but not loaded,
/// then the least slot loaded but not saved.
pub open spec fn audited<B: CfgId, V, F>(
    layout: LayoutView<B, V, F>,
    next_slot: u32,
    r: Result<(), LayoutError<B>>,
) -> bool {
    let saves = layout.yield_saves;
    let loads = layout.resume_loads;
    let save_error = tables_error(saves, next_slot, true, saves.len());
    let load_error = tables_error(loads, next_slot, false, loads.len());
    if layout.resume_entries.len() != layout.yield_blocks.len() + 1 {
        r == Err::<(), LayoutError<B>>(
            LayoutError::EntryCountMismatch {
                resume_entries: layout.resume_entries.len() as usize,
                yield_blocks: layout.yield_blocks.len() as usize,
            },
        )
    } else if save_error is Some {
        r == Err::<(), LayoutError<B>>(save_error->0)
    } else if load_error is Some {
        r == Err::<(), LayoutError<B>>(load_error->0)
    } else if !all_matched(saves, loads) {
        r matches Err(LayoutError::SaveWithoutLoad { slot }) && is_least_unmatched(
            saves,
            loads,
            slot,
        )
    } else if !all_matched(loads, saves) {
        r matches Err(LayoutError::LoadWithoutSave { slot }) && is_least_unmatched(
            loads,
            saves,
            slot,
        )
    } else {
        r is Ok
    }
}

/// Audit one block's table.
fn audit_table<B: CfgId, V: CfgId>(
    table: &(B, Vec<(u32, V)>),
    next_slot: u32,
    saving: bool,
) -> (error: Option<LayoutError<B>>)
    ensures
        error == table_error((table.0, table.1@), next_slot, saving),
{
    let entries = &table.1;
    let mut n: usize = 0;
    while n < entries.len()
        invariant
            n <= entries@.len(),
            entries@ == table.1@,
            table_fault(entries@, next_slot, n as nat) is None,
        decreases entries@.len() - n,
    {
        let slot = entries[n].0;
        let mut j: usize = 0;
        let mut duplicate = false;
        while j < n
            invariant
                j <= n < entries@.len(),
                slot == entries@[n as int].0,
                duplicate == exists|i: int| 0 <= i < j && (#[trigger] entries@[i]).0 == slot,
            decreases n - j,
        {
            if entries[j].0 == slot {
                duplicate = true;
            }
            j = j + 1;
        }
        if duplicate || (next_slot != u32::MAX && slot >= next_slot) {
            proof {
                assert(table_fault(entries@, next_slot, (n + 1) as nat) is Some);
                lemma_fault_stays(entries@, next_slot, (n + 1) as nat, entries@.len());
            }
            return Some(
                if !duplicate {
                    LayoutError::SlotOutOfRange { slot, next_slot }
                } else if saving {
                    LayoutError::DuplicateSaveSlot { block: table.0, slot }
                } else {
                    LayoutError::DuplicateLoadSlot { block: table.0, slot }
                },
            );
        }
        n = n + 1;
    }
    None
}

pub proof fn lemma_fault_stays<V>(entries: Seq<(u32, V)>, next_slot: u32, n: nat, m: nat)
    requires
        n <= m,
        table_fault(entries, next_slot, n) is Some,
    ensures
        table_fault(entries, next_slot, m) == table_fault(entries, next_slot, n),
    decreases m,
{
    if n < m {
        lemma_fault_stays(entries, next_slot, n, (m - 1) as nat);
    }
}

pub proof fn lemma_error_stays<B: CfgId, V>(
    tables: SlotTables<B, V>,
    next_slot: u32,
    saving: bool,
    n: nat,
    m: nat,
)
    requires
        n <= m,
        tables_error(tables, next_slot, saving, n) is Some,
    ensures
        tables_error(tables, next_slot, saving, m) == tables_error(tables, next_slot, saving, n),
    decreases m,
{
    if n < m {
        lemma_error_stays(tables, next_slot, saving, n, (m - 1) as nat);
    }
}

/// Audit the tables of all blocks, one by one.
fn audit_tables<B: CfgId, V: CfgId>(
    tables: &Vec<(B, Vec<(u32, V)>)>,
    next_slot: u32,
    saving: bool,
) -> (error: Option<LayoutError<B>>)
    ensures
        error == tables_error(tables_view(tables@), next_slot, saving, tables@.len()),
{
    let ghost view = tables_view(tables@);
    let mut n: usize = 0;
    while n < tables.len()
        invariant
            n <= tables@.len(),
            view == tables_view(tables@),
            tables_error(view, next_slot, saving, n as nat) is None,
        decreases tables@.len() - n,
    {
        let error = audit_table(&tables[n], next_slot, saving);
        assert(view[n as int] == (tables@[n as int].0, tables@[n as int].1@));
        if error.is_some() {
            proof {
                assert(tables_error(view, next_slot, saving, (n + 1) as nat) == error);
                lemma_error_stays(view, next_slot, saving, (n + 1) as nat, tables@.len());
            }
            return error;
        }
        n = n + 1;
    }
    None
}

/// Is the slot in some table?
fn has_slot<B: CfgId, V: CfgId>(tables: &Vec<(B, Vec<(u32, V)>)>, slot: u32) -> (found: bool)
    ensures
        found == in_tables(tables_view(tables@), slot),
{
    let ghost view = tables_view(tables@);
    let mut i: usize = 0;
    while i < tables.len()
        invariant
            i <= tables@.len(),
            view == tables_view(tables@),
            forall|x: int, k: int|
                0 <= x < i && 0 <= k < view[x].1.len() ==> (#[trigger] view[x].1[k]).0 != slot,
        decreases tables@.len() - i,
    {
        let entries = &tables[i].1;
        assert(view[i as int].1 == entries@);
        let mut k: usize = 0;
        while k < entries.len()
            invariant
                k <= entries@.len(),
                i < tables@.len(),
                view == tables_view(tables@),
                view[i as int].1 == entries@,
                forall|y: int| 0 <= y < k ==> (#[trigger] view[i as int].1[y]).0 != slot,
            decreases entries@.len() - k,
        {
            if entries[k].0 == slot {
                assert(view[i as int].1[k as int].0 == slot);
                return true;
            }
            k = k + 1;
        }
        i = i + 1;
    }
    false
}

/// Find the least slot of `a`'s tables that is in none of `b`'s.
fn least_unmatched<B: CfgId, V: CfgId>(
    a: &Vec<(B, Vec<(u32, V)>)>,
    b: &Vec<(B, Vec<(u32, V)>)>,
) -> (least: Option<u32>)
    ensures
        match least {
            Some(slot) => is_least_unmatched(tables_view(a@), tables_view(b@), slot),
            None => all_matched(tables_view(a@), tables_view(b@)),
        },
{
    let ghost va = tables_view(a@);
    let ghost vb = tables_view(b@);
    let mut least: Option<u32> = None;
    let mut i: usize = 0;
    while i < a.len()
        invariant
            i <= a@.len(),
            va == tables_view(a@),
            vb == tables_view(b@),
            least matches Some(s) ==> unmatched(va, vb, s),
            forall|x: int, k: int|
                0 <= x < i && 0 <= k < va[x].1.len() && !in_tables(
                    vb,
                    (#[trigger] va[x].1[k]).0,
                ) ==> (least matches Some(s) && s <= va[x].1[k].0),
        decreases a@.len() - i,
    {
        let entries = &a[i].1;
        assert(va[i as int].1 == entries@);
        let mut k: usize = 0;
        while k < entries.len()
            invariant
                k <= entries@.len(),
                i < a@.len(),
                va == tables_view(a@),
                vb == tables_view(b@),
                va[i as int].1 == entries@,
                least matches Some(s) ==> unmatched(va, vb, s),
                forall|x: int, y: int|
                    0 <= x < i && 0 <= y < va[x].1.len() && !in_tables(
                        vb,
                        (#[trigger] va[x].1[y]).0,
                    ) ==> (least matches Some(s) && s <= va[x].1[y].0),
                forall|y: int|
                    0 <= y < k && !in_tables(vb, (#[trigger] va[i as int].1[y]).0) ==> (
                    least matches Some(s) && s <= va[i as int].1[y].0),
            decreases entries@.len() - k,
        {
            let slot = entries[k].0;
            assert(va[i as int].1[k as int].0 == slot);
            if !has_slot(b, slot) {
                assert(in_tables(va, slot));
                match least {
                    Some(s) => {
                        if slot < s {
                            least = Some(slot);
                        }
                    },
                    None => {
                        least = Some(slot);
                    },
                }
            }
            k = k + 1;
        }
        i = i + 1;
    }
    proof {
        assert forall|s: u32| #[trigger] unmatched(va, vb, s) implies (least matches Some(t) && t
            <= s) by {
            let (x, k) = choose|x: int, k: int|
                0 <= x < va.len() && 0 <= k < va[x].1.len() && (#[trigger] va[x].1[k]).0 == s;
            assert(va[x].1[k].0 == s);
        }
    }
    least
}

/// Validate a [`StateMachineLayout`] for internal consistency, and return the
/// first error found.
///
/// `next_slot` is the upper bound of the slot indices. Pass `u32::MAX` to
/// disable the range check.
pub fn validate_layout<B, V, F>(layout: &StateMachineLayout<B, V, F>, next_slot: u32) -> (r: Result<
    (),
    LayoutError<B>,
>) where B: CfgId, V: CfgId, F: FnId
    ensures
        audited(layout@, next_slot, r),
{
    // 1. Resume entry / yield block count check.
    let entries = layout.resume_entries.len();
    let yields = layout.yield_blocks.len();
    if entries == 0 || entries - 1 != yields {
        return Err(
            LayoutError::EntryCountMismatch { resume_entries: entries, yield_blocks: yields },
        );
    }
    // 2. Within each yield block, no duplicate or out-of-range slot.
    if let Some(e) = audit_tables(&layout.yield_saves, next_slot, true) {
        return Err(e);
    }
    // 3. Within each resume block, the same.
    if let Some(e) = audit_tables(&layout.resume_loads, next_slot, false) {
        return Err(e);
    }
    // 4. All saves against all loads.
    if let Some(slot) = least_unmatched(&layout.yield_saves, &layout.resume_loads) {
        return Err(LayoutError::SaveWithoutLoad { slot });
    }
    if let Some(slot) = least_unmatched(&layout.resume_loads, &layout.yield_saves) {
        return Err(LayoutError::LoadWithoutSave { slot });
    }
    Ok(())
}

impl<B: CfgId> LayoutError<B> {
    /// The text of the error, where the host shows the block at fault as `block`.
    pub open spec fn text(self, block: Seq<char>) -> Seq<char> {
        match self {
            LayoutError::SaveWithoutLoad { slot } => "slot "@ + decimal_of(slot as nat)
                + " is saved at a yield but never loaded at any resume — host's liveness analysis is over-reporting"@,
            LayoutError::LoadWithoutSave { slot } => "slot "@ + decimal_of(slot as nat)
                + " is loaded at a resume but never saved at any yield — host's liveness analysis is under-reporting"@,
            LayoutError::DuplicateSaveSlot { slot, .. } => "slot "@ + decimal_of(slot as nat)
                + " appears twice in yield_saves for block "@ + block,
            LayoutError::DuplicateLoadSlot { slot, .. } => "slot "@ + decimal_of(slot as nat)
                + " appears twice in resume_loads for block "@ + block,
            LayoutError::EntryCountMismatch { resume_entries, yield_blocks } =>
                "resume_entries.len()="@ + decimal_of(resume_entries as nat)
                + " but yield_blocks.len()+1="@ + decimal_of((yield_blocks + 1) as nat)
                + " — transform-internal inconsistency"@,
            LayoutError::SlotOutOfRange { slot, next_slot } => "slot "@ + decimal_of(slot as nat)
                + " is referenced but next_slot="@ + decimal_of(next_slot as nat)
                + " — allocator drift"@,
        }
    }

    /// The error as text; `block` is how the host shows the block at fault.
    pub fn message(&self, block: &str) -> (text: String)
        requires
            self matches LayoutError::EntryCountMismatch { yield_blocks, .. } ==> yield_blocks
                < usize::MAX,
        ensures
            text@ == self.text(block@),
    {
        match self {
            LayoutError::SaveWithoutLoad { slot } => {
                let mut text = "slot ".to_owned();
                text.append(decimal(*slot as u64).as_str());
                text.append(
                    " is saved at a yield but never loaded at any resume — host's liveness analysis is over-reporting",
                );
                text
            },
            LayoutError::LoadWithoutSave { slot } => {
                let mut text = "slot ".to_owned();
                text.append(decimal(*slot as u64).as_str());
                text.append(
                    " is loaded at a resume but never saved at any yield — host's liveness analysis is under-reporting",
                );
                text
            },
            LayoutError::DuplicateSaveSlot { slot, .. } => {
                let mut text = "slot ".to_owned();
                text.append(decimal(*slot as u64).as_str());
                text.append(" appears twice in yield_saves for block ");
                text.append(block);
                text
            },
            LayoutError::DuplicateLoadSlot { slot, .. } => {
                let mut text = "slot ".to_owned();
                text.append(decimal(*slot as u64).as_str());
                text.append(" appears twice in resume_loads for block ");
                text.append(block);
                text
            },
            LayoutError::EntryCountMismatch { resume_entries, yield_blocks } => {
                let mut text = "resume_entries.len()=".to_owned();
                text.append(decimal(*resume_entries as u64).as_str());
                text.append(" but yield_blocks.len()+1=");
                text.append(decimal((*yield_blocks + 1) as u64).as_str());
                text.append(" — transform-internal inconsistency");
                text
            },
            LayoutError::SlotOutOfRange { slot, next_slot } => {
                let mut text = "slot ".to_owned();
                text.append(decimal(*slot as u64).as_str());
                text.append(" is referenced but next_slot=");
                text.append(decimal(*next_slot as u64).as_str());
                text.append(" — allocator drift");
                text
            },
        }
    }
}

} // verus!
