//! Stacks and first frames, word by word.
use krio::fiber::frame::{
    aligned_top, first_frame, saved_fp_offset, saved_frame_bytes, saved_frame_extent,
    saved_frame_words, saved_ret_offset, Arch, Entry,
};
use krio::fiber::stack::{
    aligned_stack_size, guarded_region, heap_stack_size, initial_sp, round_up, GuardedRegion,
    StackRange,
};

const ENTRY: Entry = Entry {
    state: 0x5151_5151,
    trampoline: 0x7272_7272,
    stack_limit: 0x1000,
    stack_base: 0x2_0000,
};

fn words(arch: Arch) -> Vec<u64> {
    first_frame(arch, ENTRY).expect("a native target")
}

/// The frame is all zeros but for these words.
fn expect(arch: Arch, len: usize, set: Vec<(usize, u64)>) {
    let mut expected = vec![0u64; len];
    for (i, w) in set {
        expected[i] = w;
    }
    assert_eq!(words(arch), expected);
}

#[test]
fn first_frames_are_laid_out_as_the_switch_restores_them() {
    expect(Arch::SysV64, 9, vec![(0, 0x037F_0000_1F80), (5, ENTRY.state), (8, ENTRY.trampoline)]);
    expect(
        Arch::Win64,
        33,
        vec![
            (0, 0x037F_0000_1F80),
            (25, ENTRY.state),
            (30, ENTRY.stack_limit),
            (31, ENTRY.stack_base),
            (32, ENTRY.trampoline),
        ],
    );
    expect(Arch::Aarch64, 24, vec![(0, ENTRY.state), (11, ENTRY.trampoline)]);
    expect(
        Arch::X86,
        7,
        vec![(0, 0x1F80), (1, 0x037F), (4, ENTRY.state), (6, ENTRY.trampoline)],
    );
    expect(Arch::Riscv64, 26, vec![(0, ENTRY.trampoline), (2, ENTRY.state)]);
    assert!(first_frame(Arch::Unsupported, ENTRY).is_none());
}

#[test]
fn fresh_fiber_starts_with_fp_exceptions_masked() {
    let control = words(Arch::SysV64)[0];
    let mx = control & 0xFFFF_FFFF;
    let cw = (control >> 32) & 0xFFFF;
    // Bits 12:7 are the six SSE exception masks; all must be set.
    assert_eq!(
        (mx >> 7) & 0x3F,
        0x3F,
        "fresh fiber has unmasked SSE exceptions: MXCSR={mx:#x}"
    );
    // Bits 5:0 are the six x87 exception masks; all must be set.
    assert_eq!(
        cw & 0x3F,
        0x3F,
        "fresh fiber has unmasked x87 exceptions: CW={cw:#x}"
    );
}

#[test]
fn saved_frames_have_their_sizes_and_offsets() {
    let table = [
        (Arch::SysV64, 64, 56, 64, 9, 72),
        (Arch::Win64, 256, 232, 256, 33, 264),
        (Arch::Aarch64, 192, 80, 88, 24, 192),
        (Arch::X86, 24, 20, 24, 7, 28),
        (Arch::Riscv64, 208, 8, 0, 26, 208),
        (Arch::Unsupported, 0, 0, 0, 0, 0),
    ];
    for (arch, bytes, fp, ret, words, extent) in table {
        assert_eq!(saved_frame_bytes(arch), bytes);
        assert_eq!(saved_fp_offset(arch), fp);
        assert_eq!(saved_ret_offset(arch), ret);
        assert_eq!(saved_frame_words(arch), words);
        assert_eq!(saved_frame_extent(arch), extent);
    }
}

#[test]
fn fresh_stacks_are_aligned_as_a_switch_leaves_them() {
    for low in [0x1_0000u64, 0x1_0001, 0x1_000f] {
        let stack = StackRange { low, len: 4096 };
        let top = (low + 4096) / 16 * 16;
        assert_eq!(aligned_top(low + 4096), top);
        assert_eq!(initial_sp(Arch::SysV64, stack), top - 72);
        assert_eq!(initial_sp(Arch::SysV64, stack) % 16, 8);
        assert_eq!(initial_sp(Arch::Win64, stack), top - 264);
        assert_eq!(initial_sp(Arch::Win64, stack) % 16, 8);
        assert_eq!(initial_sp(Arch::Aarch64, stack), top - 192);
        assert_eq!(initial_sp(Arch::Aarch64, stack) % 16, 0);
        assert_eq!(initial_sp(Arch::X86, stack), top - 28);
        assert_eq!(initial_sp(Arch::X86, stack) % 16, 4);
        assert_eq!(initial_sp(Arch::Riscv64, stack), top - 208);
        assert_eq!(initial_sp(Arch::Riscv64, stack) % 16, 0);
    }
}

#[test]
fn stack_sizes_are_rounded_up() {
    assert_eq!(round_up(0, 16), 0);
    assert_eq!(round_up(1, 16), 16);
    assert_eq!(round_up(16, 16), 16);
    assert_eq!(round_up(4097, 4096), 8192);
    assert_eq!(aligned_stack_size(Arch::SysV64, 65536), 65536);
    assert_eq!(aligned_stack_size(Arch::SysV64, 4097), 4112);
    // A request for too little still has room for a frame.
    assert_eq!(aligned_stack_size(Arch::SysV64, 0), 128);
    assert_eq!(aligned_stack_size(Arch::Win64, 100), 320);
    assert_eq!(aligned_stack_size(Arch::X86, 0), 96);
    assert_eq!(heap_stack_size(0), 16);
    assert_eq!(heap_stack_size(17), 32);
    assert_eq!(heap_stack_size(64), 64);
}

#[test]
fn a_guard_page_lies_below_the_usable_part() {
    assert_eq!(
        guarded_region(65536, 4096),
        GuardedRegion { guard: 4096, usable: 65536, total: 69632 }
    );
    assert_eq!(
        guarded_region(1, 16384),
        GuardedRegion { guard: 16384, usable: 16384, total: 32768 }
    );
    assert_eq!(guarded_region(4097, 4096).usable, 8192);
}
