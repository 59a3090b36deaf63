//! The first frame of a fiber: what a switch into a fiber that has never run
//! finds on its stack.
//!
//! A switch saves the callee-saved registers, the floating-point control state
//! and the return address, and leaves the stack pointer at the lowest of them.
//! The first frame looks like one that a switch has saved, with the trampoline as
//! its return address and the fiber's state in a register that the trampoline
//! reads.
use vstd::prelude::*;

verus! {

/// The targets with a saved-frame layout of their own.
#[derive(Debug, Clone, Copy, PartialEq, Eq, Structural)]
pub enum Arch {
    /// x86_64, System V.
    SysV64,
    /// x86_64, Windows.
    Win64,
    /// aarch64, except on Windows.
    Aarch64,
    /// x86, except on Windows.
    X86,
    Riscv64,
    /// No native context switch.
    Unsupported,
}

impl Arch {
    /// Bytes of a saved frame, the return address of x86 targets not counted.
    pub open spec fn frame_bytes(self) -> nat {
        match self {
            Arch::SysV64 => 64,
            Arch::Win64 => 256,
            Arch::Aarch64 => 192,
            Arch::X86 => 24,
            Arch::Riscv64 => 208,
            Arch::Unsupported => 0,
        }
    }

    /// Where in a saved frame the frame pointer is.
    pub open spec fn fp_offset(self) -> nat {
        match self {
            Arch::SysV64 => 56,
            Arch::Win64 => 232,
            Arch::Aarch64 => 80,
            Arch::X86 => 20,
            Arch::Riscv64 => 8,
            Arch::Unsupported => 0,
        }
    }

    /// Where, from the saved stack pointer on, the return address is.
    pub open spec fn ret_offset(self) -> nat {
        match self {
            Arch::SysV64 => 64,
            Arch::Win64 => 256,
            Arch::Aarch64 => 88,
            Arch::X86 => 24,
            Arch::Riscv64 => 0,
            Arch::Unsupported => 0,
        }
    }

    /// There is a native context switch, so fibers can run.
    pub open spec fn is_native(self) -> bool {
        self != Arch::Unsupported
    }

    /// Bytes of a machine word.
    pub open spec fn word(self) -> nat {
        if self == Arch::X86 {
            4
        } else {
            8
        }
    }

    /// Words of a saved frame, return address included.
    pub open spec fn frame_words(self) -> nat {
        match self {
            Arch::SysV64 => 9,
            Arch::Win64 => 33,
            Arch::Aarch64 => 24,
            Arch::X86 => 7,
            Arch::Riscv64 => 26,
            Arch::Unsupported => 0,
        }
    }

    /// Bytes of a saved frame, return address included.
    pub open spec fn extent(self) -> nat {
        self.word() * self.frame_words()
    }
}

/// Bytes of a saved frame, the return address of x86 targets not counted.
pub fn saved_frame_bytes(arch: Arch) -> (n: usize)
    ensures
        n == arch.frame_bytes(),
        n <= 256,
{
    match arch {
        Arch::SysV64 => 64,
        Arch::Win64 => 256,
        Arch::Aarch64 => 192,
        Arch::X86 => 24,
        Arch::Riscv64 => 208,
        Arch::Unsupported => 0,
    }
}

/// Where in a saved frame the frame pointer is.
pub fn saved_fp_offset(arch: Arch) -> (n: usize)
    ensures
        n == arch.fp_offset(),
{
    match arch {
        Arch::SysV64 => 56,
        Arch::Win64 => 232,
        Arch::Aarch64 => 80,
        Arch::X86 => 20,
        Arch::Riscv64 => 8,
        Arch::Unsupported => 0,
    }
}

/// Where, from the saved stack pointer on, the return address is.
pub fn saved_ret_offset(arch: Arch) -> (n: usize)
    ensures
        n == arch.ret_offset(),
{
    match arch {
        Arch::SysV64 => 64,
        Arch::Win64 => 256,
        Arch::Aarch64 => 88,
        Arch::X86 => 24,
        Arch::Riscv64 => 0,
        Arch::Unsupported => 0,
    }
}

/// Words of a saved frame, return address included.
pub fn saved_frame_words(arch: Arch) -> (n: usize)
    ensures
        n == arch.frame_words(),
{
    match arch {
        Arch::SysV64 => 9,
        Arch::Win64 => 33,
        Arch::Aarch64 => 24,
        Arch::X86 => 7,
        Arch::Riscv64 => 26,
        Arch::Unsupported => 0,
    }
}

/// Bytes of a saved frame, return address included.
pub fn saved_frame_extent(arch: Arch) -> (n: u64)
    ensures
        n == arch.extent(),
        n <= 264,
{
    match arch {
        Arch::SysV64 => 72,
        Arch::Win64 => 264,
        Arch::Aarch64 => 192,
        Arch::X86 => 28,
        Arch::Riscv64 => 208,
        Arch::Unsupported => 0,
    }
}

/// The SSE control word of a fresh x86 fiber: every exception masked, round to
/// nearest. Zero would unmask them all.
pub const DEFAULT_MXCSR: u64 = 0x1F80;

/// The x87 control word of a fresh x86 fiber: every exception masked, extended
/// precision.
pub const DEFAULT_X87_CW: u64 = 0x037F;

/// Both control words as one 64-bit word, the SSE one in the low half.
pub const X86_64_FP_CONTROL: u64 = 0x037F_0000_1F80;

/// What a first frame is made from.
#[derive(Debug, Clone, Copy)]
pub struct Entry {
    /// Address of the fiber's state, for the trampoline.
    pub state: u64,
    /// Address of the trampoline.
    pub trampoline: u64,
    /// Lowest address of the usable stack.
    pub stack_limit: u64,
    /// The aligned top of the stack.
    pub stack_base: u64,
}

/// The `i`-th word of a first frame, from the stack pointer up.
pub open spec fn first_frame_word(arch: Arch, e: Entry, i: int) -> u64 {
    match arch {
        // control, pad, r15, r14, r13, r12, rbx, rbp, return address
        Arch::SysV64 => if i == 0 {
            X86_64_FP_CONTROL
        } else if i == 5 {
            e.state
        } else if i == 8 {
            e.trampoline
        } else {
            0
        },
        // control, pad, xmm6..xmm15, r15, r14, r13, r12, rsi, rdi, rbx, rbp,
        // stack limit, stack base, return address
        Arch::Win64 => if i == 0 {
            X86_64_FP_CONTROL
        } else if i == 25 {
            e.state
        } else if i == 30 {
            e.stack_limit
        } else if i == 31 {
            e.stack_base
        } else if i == 32 {
            e.trampoline
        } else {
            0
        },
        // x19..x28, x29, x30, d8..d15, fpcr, pad
        Arch::Aarch64 => if i == 0 {
            e.state
        } else if i == 11 {
            e.trampoline
        } else {
            0
        },
        // mxcsr, x87 control, edi, esi, ebx, ebp, return address
        Arch::X86 => if i == 0 {
            DEFAULT_MXCSR
        } else if i == 1 {
            DEFAULT_X87_CW
        } else if i == 4 {
            e.state
        } else if i == 6 {
            e.trampoline
        } else {
            0
        },
        // ra, s0, s1, s2..s11, fs0..fs11, fcsr
        Arch::Riscv64 => if i == 0 {
            e.trampoline
        } else if i == 2 {
            e.state
        } else {
            0
        },
        Arch::Unsupported => 0,
    }
}

/// Lay out the first frame of a fiber, in words from the stack pointer up. `None`
/// where there is no native context switch.
pub fn first_frame(arch: Arch, e: Entry) -> (words: Option<Vec<u64>>)
    ensures
        words is Some == arch.is_native(),
        words matches Some(w) ==> {
            &&& w@.len() == arch.frame_words()
            &&& forall|i: int|
                0 <= i < w@.len() ==> #[trigger] w@[i] == first_frame_word(arch, e, i)
        },
{
    let n = saved_frame_words(arch);
    let mut words: Vec<u64> = Vec::with_capacity(n);
    let mut i: usize = 0;
    while i < n
        invariant
            i <= n,
            words@.len() == i,
            forall|k: int| 0 <= k < i ==> words@[k] == 0,
        decreases n - i,
    {
        words.push(0);
        i = i + 1;
    }
    match arch {
        Arch::SysV64 => {
            words.set(0, X86_64_FP_CONTROL);
            words.set(5, e.state);
            words.set(8, e.trampoline);
        },
        Arch::Win64 => {
            words.set(0, X86_64_FP_CONTROL);
            words.set(25, e.state);
            words.set(30, e.stack_limit);
            words.set(31, e.stack_base);
            words.set(32, e.trampoline);
        },
        Arch::Aarch64 => {
            words.set(0, e.state);
            words.set(11, e.trampoline);
        },
        Arch::X86 => {
            words.set(0, DEFAULT_MXCSR);
            words.set(1, DEFAULT_X87_CW);
            words.set(4, e.state);
            words.set(6, e.trampoline);
        },
        Arch::Riscv64 => {
            words.set(0, e.trampoline);
            words.set(2, e.state);
        },
        Arch::Unsupported => {
            return None;
        },
    }
    Some(words)
}

/// The top of a stack, aligned down to 16 bytes.
pub fn aligned_top(top: u64) -> (t: u64)
    ensures
        t % 16 == 0,
        t <= top < t + 16,
{
    top - top % 16
}

/// Where a switch leaves the stack pointer, modulo 16: what a call into it leaves
/// behind on the target, less the saved frame.
pub open spec fn switch_residue(arch: Arch) -> int {
    match arch {
        Arch::SysV64 => 8,
        Arch::Win64 => 8,
        Arch::X86 => 4,
        _ => 0,
    }
}

/// A switch into a fresh fiber returns into the trampoline, with the trampoline's
/// state in place, and finds the stack pointer aligned as a switch leaves it.
pub proof fn law_first_switch_enters_the_trampoline(arch: Arch, e: Entry, top: int)
    requires
        arch.is_native(),
        top % 16 == 0,
    ensures
        arch.ret_offset() % arch.word() == 0,
        arch.ret_offset() < arch.extent(),
        first_frame_word(arch, e, arch.ret_offset() as int / arch.word() as int) == e.trampoline,
        first_frame_word(arch, e, arch.fp_offset() as int / arch.word() as int) == 0,
        exists|i: int|
            0 <= i < arch.frame_words() && #[trigger] first_frame_word(arch, e, i) == e.state,
        (top - arch.extent()) % 16 == switch_residue(arch),
{
    let i: int = match arch {
        Arch::SysV64 => 5,
        Arch::Win64 => 25,
        Arch::Aarch64 => 0,
        Arch::X86 => 4,
        _ => 2,
    };
    assert(first_frame_word(arch, e, i) == e.state);
}

/// On x86 targets a fresh fiber starts with its floating-point exceptions masked.
pub proof fn law_fresh_fiber_masks_exceptions(e: Entry)
    ensures
        first_frame_word(Arch::SysV64, e, 0) == DEFAULT_MXCSR + DEFAULT_X87_CW * 0x1_0000_0000,
        first_frame_word(Arch::Win64, e, 0) == DEFAULT_MXCSR + DEFAULT_X87_CW * 0x1_0000_0000,
        first_frame_word(Arch::X86, e, 0) == DEFAULT_MXCSR,
        first_frame_word(Arch::X86, e, 1) == DEFAULT_X87_CW,
{
}

/// On this target a call pushes the return address onto the stack.
pub open spec fn pushes_return(arch: Arch) -> bool {
    arch == Arch::SysV64 || arch == Arch::Win64 || arch == Arch::X86
}

/// The measures of a saved frame agree. Where a call pushes the return address, it lies
/// right above what a switch saves; elsewhere it is among what a switch saves. The
/// frame pointer is saved too, and not in the place of the return address.
pub proof fn law_frame_measures_agree(arch: Arch)
    requires
        arch.is_native(),
    ensures
        arch.extent() == arch.frame_bytes() + if pushes_return(arch) {
            arch.word()
        } else {
            0
        },
        pushes_return(arch) ==> arch.ret_offset() == arch.frame_bytes(),
        !pushes_return(arch) ==> arch.ret_offset() + arch.word() <= arch.frame_bytes(),
        arch.ret_offset() % arch.word() == 0,
        arch.fp_offset() % arch.word() == 0,
        arch.fp_offset() + arch.word() <= arch.frame_bytes(),
        arch.fp_offset() != arch.ret_offset(),
{
}

/// A first frame holds the fiber's state once, and the address of the trampoline once:
/// frames of fibers that differ in one of them differ in one word. What else is in it
/// are the control words, the bounds of the stack where the target keeps them, and
/// zeros.
pub proof fn law_a_first_frame_holds_each_once(arch: Arch, e: Entry, f: Entry, i: int, j: int)
    requires
        first_frame_word(arch, e, i) != first_frame_word(arch, f, i),
        first_frame_word(arch, e, j) != first_frame_word(arch, f, j),
    ensures
        f == (Entry { state: f.state, ..e }) ==> i == j,
        f == (Entry { trampoline: f.trampoline, ..e }) ==> i == j,
        arch != Arch::Win64 ==> e.state != f.state || e.trampoline != f.trampoline,
        arch != Arch::Win64 && i != j ==> {
            ||| first_frame_word(arch, e, i) == e.state && first_frame_word(arch, e, j)
                == e.trampoline
            ||| first_frame_word(arch, e, i) == e.trampoline && first_frame_word(arch, e, j)
                == e.state
        },
{
}

/// On Windows a first frame also holds the bounds of the fiber's stack, right below
/// the return address.
pub proof fn law_a_windows_frame_holds_the_bounds(e: Entry)
    ensures
        ({
            let ret = Arch::Win64.ret_offset() as int / Arch::Win64.word() as int;
            &&& first_frame_word(Arch::Win64, e, ret - 2) == e.stack_limit
            &&& first_frame_word(Arch::Win64, e, ret - 1) == e.stack_base
        }),
{
}

} // verus!
