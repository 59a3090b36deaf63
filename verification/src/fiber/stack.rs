//! How big a fiber's stack is.
use vstd::arithmetic::div_mod::{lemma_fundamental_div_mod, lemma_mod_multiples_vanish};
use vstd::prelude::*;

use crate::fiber::frame::{aligned_top, saved_frame_bytes, saved_frame_extent, Arch};

verus! {

/// Default fiber stack size: comfortable for nested calls while still cheap to
/// allocate.
pub const DEFAULT_STACK_SIZE: usize = 65536;

/// `r` is the least multiple of `unit` that is at least `n`.
pub open spec fn is_round_up(n: nat, unit: nat, r: nat) -> bool {
    r % unit == 0 && n <= r < n + unit
}

/// The least multiple of `unit` that is at least `n`.
pub fn round_up(n: usize, unit: usize) -> (r: usize)
    requires
        unit > 0,
        n + unit <= usize::MAX,
    ensures
        is_round_up(n as nat, unit as nat, r as nat),
{
    let over = n % unit;
    if over == 0 {
        n
    } else {
        let r = n + (unit - over);
        proof {
            let q = n as int / unit as int;
            lemma_fundamental_div_mod(n as int, unit as int);
            assert(r == unit * (q + 1)) by (nonlinear_arith)
                requires
                    n == unit * q + over,
                    r == n + (unit - over),
            ;
            lemma_mod_multiples_vanish(q + 1, 0, unit as int);
            assert(r % unit == 0);
        }
        r
    }
}

/// The size of a stack of at least `stack_size` bytes: room for a saved frame and
/// a little more, and 16-byte aligned.
pub fn aligned_stack_size(arch: Arch, stack_size: usize) -> (r: usize)
    requires
        stack_size <= usize::MAX - 16,
    ensures
        is_round_up(
            if stack_size >= arch.frame_bytes() + 64 {
                stack_size as nat
            } else {
                arch.frame_bytes() + 64
            },
            16,
            r as nat,
        ),
{
    let least = saved_frame_bytes(arch) + 64;
    let size = if stack_size >= least {
        stack_size
    } else {
        least
    };
    round_up(size, 16)
}

/// A stack region with a guard page below the usable part.
#[derive(Debug, Clone, Copy, PartialEq, Eq, Structural)]
pub struct GuardedRegion {
    /// Bytes of the guard page, at the bottom of the region.
    pub guard: usize,
    /// Bytes of the usable part, right above the guard page.
    pub usable: usize,
    /// Bytes of the whole region.
    pub total: usize,
}

/// Lay out a region with at least `requested` usable bytes: whole pages, and one
/// more below them for the guard.
pub fn guarded_region(requested: usize, page_size: usize) -> (r: GuardedRegion)
    requires
        page_size > 0,
        requested + 2 * page_size <= usize::MAX,
    ensures
        r.guard == page_size,
        is_round_up(requested as nat, page_size as nat, r.usable as nat),
        r.total == r.guard + r.usable,
{
    let usable = round_up(requested, page_size);
    GuardedRegion { guard: page_size, usable, total: usable + page_size }
}

/// The size of a heap-allocated stack with at least `requested` bytes: 16-byte
/// aligned, and not empty.
pub fn heap_stack_size(requested: usize) -> (r: usize)
    requires
        requested <= usize::MAX - 16,
    ensures
        is_round_up(
            if requested == 0 {
                16
            } else {
                requested as nat
            },
            16,
            r as nat,
        ),
{
    let aligned = round_up(requested, 16);
    if aligned >= 16 {
        aligned
    } else {
        16
    }
}

/// The usable part of a stack, as plain addresses.
#[derive(Debug, Clone, Copy, PartialEq, Eq, Structural)]
pub struct StackRange {
    /// Lowest usable address.
    pub low: u64,
    /// Bytes of the usable part.
    pub len: u64,
}

impl StackRange {
    /// One past the highest usable address.
    pub open spec fn top(self) -> int {
        self.low + self.len
    }

    /// A saved frame of `arch` at `sp` lies inside.
    pub open spec fn holds_frame(self, arch: Arch, sp: u64) -> bool {
        self.low <= sp && sp + arch.extent() <= self.top()
    }

    /// There is room for a saved frame and a little more, below an address that
    /// exists.
    pub open spec fn roomy(self, arch: Arch) -> bool {
        self.len >= arch.frame_bytes() + 64 && self.top() <= u64::MAX
    }
}

/// The stack pointer of a fiber that has never run: the first frame sits right
/// below the top, aligned down to 16 bytes.
pub fn initial_sp(arch: Arch, stack: StackRange) -> (sp: u64)
    requires
        stack.roomy(arch),
    ensures
        sp == stack.top() - stack.top() % 16 - arch.extent(),
        stack.holds_frame(arch, sp),
{
    let top = aligned_top(stack.low + stack.len);
    top - saved_frame_extent(arch)
}

/// The guard page and the usable part make up the region, and an overflow at the
/// bottom of the usable part hits the guard page first.
pub proof fn law_overflow_hits_the_guard(r: GuardedRegion, requested: nat, page: nat)
    requires
        page > 0,
        r.guard == page,
        is_round_up(requested, page, r.usable as nat),
        r.total == r.guard + r.usable,
    ensures
        r.usable >= requested,
        r.total - r.usable == page,
        r.total as int % page as int == 0,
{
    vstd::arithmetic::div_mod::lemma_mod_add_multiples_vanish(r.usable as int, page as int);
}

} // verus!
