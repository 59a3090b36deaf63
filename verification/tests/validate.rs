//! The layout audit.
use krio::crossfn::{validate_layout, BlockKind, LayoutError, StateMachineLayout};

type Bb = u32;
type V = u32;
type Fid = u32;

fn empty_layout() -> StateMachineLayout<Bb, V, Fid> {
    StateMachineLayout {
        resume_entries: vec![0],
        yield_blocks: vec![],
        yield_saves: vec![],
        resume_loads: vec![],
        block_kinds: vec![],
    }
}

#[test]
fn empty_layout_is_valid() {
    let layout = empty_layout();
    validate_layout(&layout, 0).unwrap();
}

#[test]
fn matched_save_load_is_valid() {
    let mut layout = empty_layout();
    layout.resume_entries = vec![0, 2];
    layout.yield_blocks = vec![(1, 1)];
    layout.yield_saves = vec![(1, vec![(0, 100), (1, 101)])];
    layout.resume_loads = vec![(2, vec![(0, 200), (1, 201)])];
    layout.block_kinds = vec![(1, BlockKind::DirectYield)];
    validate_layout(&layout, 2).unwrap();
}

#[test]
fn save_without_load_detected() {
    let mut layout = empty_layout();
    layout.resume_entries = vec![0, 2];
    layout.yield_blocks = vec![(1, 1)];
    layout.yield_saves = vec![(1, vec![(0, 100), (1, 101)])];
    // Slot 1 saved but only slot 0 loaded.
    layout.resume_loads = vec![(2, vec![(0, 200)])];
    layout.block_kinds = vec![(1, BlockKind::DirectYield)];
    match validate_layout(&layout, 2) {
        Err(LayoutError::SaveWithoutLoad { slot }) => assert_eq!(slot, 1),
        other => panic!("expected SaveWithoutLoad, got {:?}", other),
    }
}

#[test]
fn load_without_save_detected() {
    let mut layout = empty_layout();
    layout.resume_entries = vec![0, 2];
    layout.yield_blocks = vec![(1, 1)];
    layout.yield_saves = vec![(1, vec![(0, 100)])];
    layout.resume_loads = vec![(2, vec![(0, 200), (1, 201)])];
    layout.block_kinds = vec![(1, BlockKind::DirectYield)];
    match validate_layout(&layout, 2) {
        Err(LayoutError::LoadWithoutSave { slot }) => assert_eq!(slot, 1),
        other => panic!("expected LoadWithoutSave, got {:?}", other),
    }
}

#[test]
fn duplicate_save_slot_detected() {
    let mut layout = empty_layout();
    layout.resume_entries = vec![0, 2];
    layout.yield_blocks = vec![(1, 1)];
    layout.yield_saves = vec![(1, vec![(0, 100), (0, 101)])];
    layout.resume_loads = vec![(2, vec![(0, 200)])];
    layout.block_kinds = vec![(1, BlockKind::DirectYield)];
    match validate_layout(&layout, 1) {
        Err(LayoutError::DuplicateSaveSlot { slot, .. }) => assert_eq!(slot, 0),
        other => panic!("expected DuplicateSaveSlot, got {:?}", other),
    }
}

#[test]
fn entry_count_mismatch_detected() {
    let mut layout = empty_layout();
    layout.resume_entries = vec![0]; // 1 entry
    layout.yield_blocks = vec![(1, 1)]; // 1 yield → expect 2 entries
    match validate_layout(&layout, 0) {
        Err(LayoutError::EntryCountMismatch { .. }) => {}
        other => panic!("expected EntryCountMismatch, got {:?}", other),
    }
}

#[test]
fn slot_out_of_range_detected() {
    let mut layout = empty_layout();
    layout.resume_entries = vec![0, 2];
    layout.yield_blocks = vec![(1, 1)];
    layout.yield_saves = vec![(1, vec![(5, 100)])];
    layout.resume_loads = vec![(2, vec![(5, 200)])];
    layout.block_kinds = vec![(1, BlockKind::DirectYield)];
    match validate_layout(&layout, 3) {
        Err(LayoutError::SlotOutOfRange { slot, next_slot }) => {
            assert_eq!(slot, 5);
            assert_eq!(next_slot, 3);
        }
        other => panic!("expected SlotOutOfRange, got {:?}", other),
    }
}

fn one_yield(saves: Vec<(u32, u32)>, loads: Vec<(u32, u32)>) -> StateMachineLayout<Bb, V, Fid> {
    StateMachineLayout {
        resume_entries: vec![0, 2],
        yield_blocks: vec![(1, 1)],
        yield_saves: vec![(1, saves)],
        resume_loads: vec![(2, loads)],
        block_kinds: vec![(1, BlockKind::DirectYield)],
    }
}

#[test]
fn duplicate_load_slot_detected() {
    let layout = one_yield(vec![(0, 100)], vec![(0, 200), (0, 201)]);
    match validate_layout(&layout, 1) {
        Err(LayoutError::DuplicateLoadSlot { block, slot }) => {
            assert_eq!(block, 2);
            assert_eq!(slot, 0);
        }
        other => panic!("expected DuplicateLoadSlot, got {:?}", other),
    }
}

#[test]
fn a_load_out_of_range_is_detected() {
    let layout = one_yield(vec![(0, 100)], vec![(7, 200)]);
    match validate_layout(&layout, 3) {
        Err(LayoutError::SlotOutOfRange { slot, next_slot }) => {
            assert_eq!(slot, 7);
            assert_eq!(next_slot, 3);
        }
        other => panic!("expected SlotOutOfRange, got {:?}", other),
    }
}

#[test]
fn the_largest_bound_disables_the_range_check() {
    let layout = one_yield(vec![(u32::MAX, 100)], vec![(u32::MAX, 200)]);
    assert!(validate_layout(&layout, u32::MAX).is_ok());
    assert!(validate_layout(&layout, u32::MAX - 1).is_err());
}

#[test]
fn the_least_unmatched_slot_is_named() {
    let layout = one_yield(vec![(9, 1), (4, 2), (6, 3)], vec![(6, 1)]);
    match validate_layout(&layout, 10) {
        Err(LayoutError::SaveWithoutLoad { slot }) => assert_eq!(slot, 4),
        other => panic!("expected SaveWithoutLoad, got {:?}", other),
    }
}

#[test]
fn a_layout_without_entries_is_refused() {
    let mut layout = empty_layout();
    layout.resume_entries = vec![];
    match validate_layout(&layout, 0) {
        Err(LayoutError::EntryCountMismatch { resume_entries, yield_blocks }) => {
            assert_eq!(resume_entries, 0);
            assert_eq!(yield_blocks, 0);
        }
        other => panic!("expected EntryCountMismatch, got {:?}", other),
    }
}

#[test]
fn errors_have_a_text() {
    let texts: Vec<(LayoutError<u32>, &str)> = vec![
        (
            LayoutError::SaveWithoutLoad { slot: 12 },
            "slot 12 is saved at a yield but never loaded at any resume — host's liveness analysis is over-reporting",
        ),
        (
            LayoutError::LoadWithoutSave { slot: 0 },
            "slot 0 is loaded at a resume but never saved at any yield — host's liveness analysis is under-reporting",
        ),
        (
            LayoutError::DuplicateSaveSlot { block: 3, slot: 10 },
            "slot 10 appears twice in yield_saves for block 3",
        ),
        (
            LayoutError::DuplicateLoadSlot { block: 3, slot: 7 },
            "slot 7 appears twice in resume_loads for block 3",
        ),
        (
            LayoutError::EntryCountMismatch { resume_entries: 1, yield_blocks: 1 },
            "resume_entries.len()=1 but yield_blocks.len()+1=2 — transform-internal inconsistency",
        ),
        (
            LayoutError::SlotOutOfRange { slot: 5, next_slot: 3 },
            "slot 5 is referenced but next_slot=3 — allocator drift",
        ),
    ];
    for (error, text) in texts {
        assert_eq!(error.message("3"), text);
    }
}
