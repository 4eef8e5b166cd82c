//! Fixed memory-layout constants of the kernel, and the placement of
//! per-task kernel stacks inside the kernel address space.
//!
//! Addresses and sizes are 64-bit values, the machine word of the RV64
//! target this kernel runs on.

use vstd::prelude::*;

verus! {

pub const USER_STACK_SIZE: u64 = 4096 * 2;

pub const KERNEL_STACK_SIZE: u64 = 4096 * 2;

pub const CLOCK_FREQ: u64 = 10_000_000;

pub const MICRO_PER_SEC: u64 = 1_000_000;

/// End of usable physical memory.
pub const MEMORY_END: u64 = 0x80800000;

pub const PAGE_SIZE_BITS: u64 = 12;

pub const PAGE_SIZE: u64 = 4096;

/// The trampoline occupies the last page of the address space.
pub const TRAMPOLINE_ADDR: u64 = u64::MAX - PAGE_SIZE + 1;

/// The trap context occupies the second-to-last page.
pub const TRAP_CONTEXT_ADDR: u64 = TRAMPOLINE_ADDR - PAGE_SIZE;

/// Return (bottom, top) of the kernel stack of task `app_id` in kernel
/// space: stacks grow down from just below the trap-context page, one
/// unmapped guard page between consecutive stacks.
pub fn kernel_stack_position(app_id: u64) -> (pos: (u64, u64))
    requires
        app_id * (KERNEL_STACK_SIZE + PAGE_SIZE) + KERNEL_STACK_SIZE <= TRAP_CONTEXT_ADDR,
    ensures
        pos.1 == TRAP_CONTEXT_ADDR - app_id * (KERNEL_STACK_SIZE + PAGE_SIZE),
        pos.0 == pos.1 - KERNEL_STACK_SIZE,
{
    let top: u64 = TRAP_CONTEXT_ADDR - app_id * (KERNEL_STACK_SIZE + PAGE_SIZE);
    let bottom: u64 = top - KERNEL_STACK_SIZE;
    (bottom, top)
}

} // verus!
