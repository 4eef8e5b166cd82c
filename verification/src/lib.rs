//! Execution core of a single-core SV39 teaching kernel: physical frame
//! allocation, three-level page tables, address spaces composed of typed
//! memory areas, task control blocks with a round-robin scheduler, and the
//! trap gateway that routes syscalls, faults and timer interrupts.
//!
//! Physical memory is modelled as a bounds-checked arena indexed by physical
//! page number; every "bytes/entries at this frame" access is a checked,
//! typed arena operation. Process-wide state (frame allocator, kernel
//! address space, task table) lives in an explicit [`kernel::Kernel`] value
//! built once by a boot sequence, so initialization order is enforced
//! structurally.

use vstd::prelude::*;

pub mod config;
pub mod elf;
pub mod error;
pub mod kernel;
pub mod mm;
pub mod syscall;
pub mod task;
pub mod trap;
pub mod utils;

verus! {

} // verus!
