//! One process: its saved context, lifecycle status, owned address space,
//! trap context, and the location of its trap-context page.

use vstd::prelude::*;
use crate::config::{kernel_stack_position, KERNEL_STACK_SIZE, PAGE_SIZE, TRAP_CONTEXT_ADDR};
use crate::error::KernelError;
use crate::mm::address::{PhysPageNum, PPN_BOUND, VPN_BOUND};
use crate::mm::frame_allocator::StackFrameAllocator;
use crate::mm::memory_set::{
    lemma_ms_wf_preserved, lemma_ms_wf_preserved_frames, lemma_owns_frame_not_free, MemorySet,
};
use crate::mm::phys_mem::PhysMemory;
use crate::task::context::TaskContext;
use crate::trap::context::TrapContext;

verus! {


/// The masked page range of task `app_id`'s kernel stack.
pub open spec fn kstack_range(app_id: u64) -> crate::utils::range::VirtPageNumRange {
    let top = TRAP_CONTEXT_ADDR - app_id * (KERNEL_STACK_SIZE + PAGE_SIZE);
    let bottom = top - KERNEL_STACK_SIZE;
    crate::utils::range::SimpleRange {
        start: crate::mm::address::VirtPageNum(
            ((bottom - 0xFFFF_FF80_0000_0000) as int / PAGE_SIZE as int) as u64,
        ),
        end: crate::mm::address::VirtPageNum(
            ((top - 0xFFFF_FF80_0000_0000 + PAGE_SIZE - 1) as int / PAGE_SIZE as int) as u64,
        ),
    }
}

/// Everything that can make building a task fail: an image its user
/// space cannot be built from, a kernel-stack range colliding with an
/// existing kernel-space area or the reserved trampoline page, or a
/// frame pool short of the build's budget.
pub open spec fn tcb_rejects(
    b: Seq<u8>,
    free0: int,
    ks: MemorySet,
    app_id: u64,
) -> bool {
    ||| crate::mm::memory_set::from_elf_rejects(b, free0)
    ||| (exists|segs: Seq<crate::elf::ElfSegment>|
        #[trigger] crate::elf::seg_list_exact(segs, b) && ({
            ||| (exists|a: int|
                0 <= a < ks.areas@.len() && kstack_range(app_id).overlaps(
                    (#[trigger] ks.areas@[a]).0.vpn_range,
                ))
            ||| kstack_range(app_id).contains_vpn(
                crate::mm::memory_set::TRAMPOLINE_VPN as int,
            )
            ||| free0 < 3 + crate::mm::memory_set::segs_budget(segs, segs.len() as int)
                + MemorySet::frames_needed(
                crate::mm::memory_set::stack_range_of(segs),
                true,
            ) + MemorySet::frames_needed(crate::mm::memory_set::ctx_range(), true)
                + MemorySet::frames_needed(kstack_range(app_id), true)
        }))
}

/// Task lifecycle: created, runnable, on the CPU, finished. The only
/// transitions are UnInit to Ready, Ready to Running, Running to Ready,
/// and Running to Exited.
#[derive(Copy, Clone, Debug, PartialEq, Eq, Structural)]
pub enum TaskStatus {
    UnInit,
    Ready,
    Running,
    Exited,
}

/// One process.
pub struct TaskControlBlock {
    pub ctx: TaskContext,
    pub status: TaskStatus,
    pub memory_set: MemorySet,
    pub trap_ctx: TrapContext,
    pub trap_ctx_ppn: PhysPageNum,
    pub base_size: u64,
}

impl TaskControlBlock {
    /// Structural well-formedness against the arena.
    pub open spec fn wf(self, mem: PhysMemory) -> bool {
        &&& self.ctx.wf()
        &&& self.trap_ctx.wf()
        &&& self.memory_set.wf(mem)
    }

    /// Build the control block for application `app_id` from its ELF
    /// image: its user address space, its private kernel stack mapped
    /// R+W into the kernel address space (a fixed, index-derived range
    /// with a guard page), a first saved context that resumes into the
    /// trap-return routine, and a trap context that enters the image at
    /// its entry point on its user stack.
    #[verifier::rlimit(100)]
    #[verifier::spinoff_prover]
    pub fn new(
        mem: &mut PhysMemory,
        fa: &mut StackFrameAllocator,
        kernel_space: &mut MemorySet,
        elf_data: &Vec<u8>,
        app_id: u64,
        tramp_ppn: PhysPageNum,
        kernel_token: u64,
        sstatus: u64,
        trap_handler_va: u64,
        restore_va: u64,
    ) -> (r: Result<TaskControlBlock, KernelError>)
        requires
            old(fa).wf(*old(mem)),
            old(kernel_space).wf(*old(mem)),
            tramp_ppn.0 < PPN_BOUND,
            app_id * (KERNEL_STACK_SIZE + PAGE_SIZE) + KERNEL_STACK_SIZE <= 0x8000_0000,
        ensures
            final(fa).wf(*final(mem)),
            final(fa).end == old(fa).end,
            final(mem).base_spec() == old(mem).base_spec(),
            final(mem).end_spec() == old(mem).end_spec(),
            crate::elf::parse_rejects(elf_data@) ==> r is Err,
            r is Err ==> tcb_rejects(
                elf_data@,
                old(fa).free_count(),
                *old(kernel_space),
                app_id,
            ),
            r matches Ok(tcb) ==> {
                &&& tcb.wf(*final(mem))
                &&& tcb.status == TaskStatus::Ready
                &&& final(kernel_space).wf(*final(mem))
                &&& tcb.trap_ctx.sepc == crate::elf::le_bytes_val(
                    elf_data@,
                    crate::elf::ELF_ENTRY_OFF as int,
                    8,
                )
                &&& tcb.trap_ctx.kernel_satp == kernel_token
                &&& tcb.trap_ctx.trap_handler == trap_handler_va
                &&& tcb.ctx.ra == restore_va
                &&& tcb.base_size == tcb.trap_ctx.x@[2]
                &&& forall|q: int|
                    old(mem).contains(q) && #[trigger] final(mem).frame(q) != old(mem).frame(q)
                        ==> old(mem).frame(q) is Free || old(kernel_space).owns_frame(q)
                &&& forall|q: int|
                    #[trigger] final(kernel_space).owns_frame(q) ==> old(
                        kernel_space,
                    ).owns_frame(q) || old(mem).frame(q) is Free
                &&& forall|q: int|
                    #[trigger] tcb.memory_set.owns_frame(q) ==> old(mem).frame(q) is Free
                &&& forall|q: int|
                    !(#[trigger] tcb.memory_set.owns_frame(q)
                        && #[trigger] final(kernel_space).owns_frame(q))
            },
    {
        let ghost m0 = *old(mem);
        let ghost ks0 = *old(kernel_space);
        let (memory_set, user_sp, entry_point, trap_ctx_ppn) = match build_user_space(
            mem,
            fa,
            elf_data,
            tramp_ppn,
        ) {
            Ok(out) => out,
            Err(e) => {
                return Err(e);
            },
        };
        let ghost fa1 = *fa;
        let ghost m1 = *mem;
        proof {
            lemma_owns_frame_not_free(ks0, m0);
            lemma_ms_wf_preserved(ks0, m0, m1);
        }
        // the task's private kernel stack, mapped R+W into kernel space.
        let pos = kernel_stack_position(app_id);
        let kernel_stack_bottom: u64 = pos.0;
        let kernel_stack_top: u64 = pos.1;
        let ghost ms1 = memory_set;
        match crate::mm::memory_set::push_kernel_stack(
            kernel_space,
            mem,
            fa,
            kernel_stack_bottom,
            kernel_stack_top,
        ) {
            Ok(_) => {},
            Err(e) => {
                proof {
                    let free0 = old(fa).free_count();
                    let segs = choose|segs: Seq<crate::elf::ElfSegment>|
                        #[trigger] crate::elf::seg_list_exact(segs, elf_data@)
                            && memory_set.areas@.len() == segs.len() + 2 && fa1.free_count()
                            >= free0 - 3 - crate::mm::memory_set::segs_budget(
                            segs,
                            segs.len() as int,
                        ) - MemorySet::frames_needed(
                            crate::mm::memory_set::stack_range_of(segs),
                            true,
                        ) - MemorySet::frames_needed(crate::mm::memory_set::ctx_range(), true);
                    let ksr = kstack_range(app_id);
                    assert(ks0.rejects_push_range(fa1, ksr, true, None));
                    if ks0.overlaps_existing(ksr) {
                        let a = choose|a: int|
                            0 <= a < ks0.areas@.len() && ksr.overlaps(
                                (#[trigger] ks0.areas@[a]).0.vpn_range,
                            );
                        assert(kstack_range(app_id).overlaps(ks0.areas@[a].0.vpn_range));
                    } else if ksr.contains_vpn(crate::mm::memory_set::TRAMPOLINE_VPN as int) {
                    } else {
                        assert(fa1.free_count() < MemorySet::frames_needed(ksr, true));
                        assert(free0 < 3 + crate::mm::memory_set::segs_budget(
                            segs,
                            segs.len() as int,
                        ) + MemorySet::frames_needed(
                            crate::mm::memory_set::stack_range_of(segs),
                            true,
                        ) + MemorySet::frames_needed(crate::mm::memory_set::ctx_range(), true)
                            + MemorySet::frames_needed(ksr, true));
                    }
                    assert(tcb_rejects(elf_data@, free0, ks0, app_id));
                }
                return Err(e);
            },
        }
        let ghost m2 = *mem;
        proof {
            lemma_owns_frame_not_free(ms1, m1);
            lemma_owns_frame_not_free(ks0, m0);
            assert forall|q: int| #[trigger] ms1.owns_frame(q) implies m2.frame(q) == m1.frame(
                q,
            ) by {
                assert(!(m1.frame(q) is Free));
                assert(m1.contains(q));
                assert(m0.contains(q));
                assert(m0.frame(q) is Free);
                assert(!ks0.owns_frame(q));
                if m2.frame(q) != m1.frame(q) {
                    assert(m1.frame(q) is Free || ks0.owns_frame(q));
                }
            }
            lemma_ms_wf_preserved_frames(ms1, m1, m2);
        }
        let ctx = TaskContext::init(kernel_stack_top, restore_va);
        let trap_ctx = TrapContext::app_init_context(
            entry_point,
            user_sp,
            sstatus,
            kernel_token,
            kernel_stack_top,
            trap_handler_va,
        );
        let tcb = TaskControlBlock {
            ctx,
            status: TaskStatus::Ready,
            memory_set,
            trap_ctx,
            trap_ctx_ppn,
            base_size: user_sp,
        };
        proof {
            assert forall|q: int|
                #[trigger] tcb.memory_set.owns_frame(q) implies m0.frame(q) is Free by {
                assert(ms1.owns_frame(q));
            }
            assert forall|q: int|
                !(#[trigger] tcb.memory_set.owns_frame(q) && #[trigger] kernel_space.owns_frame(
                    q,
                )) by {
                if tcb.memory_set.owns_frame(q) && kernel_space.owns_frame(q) {
                    assert(!(m1.frame(q) is Free)) by {
                        lemma_owns_frame_not_free(ms1, m1);
                    }
                    if ks0.owns_frame(q) {
                        assert(!(m0.frame(q) is Free));
                        assert(m0.frame(q) is Free);
                    } else {
                        assert(m1.frame(q) is Free);
                    }
                }
            }
        }
        Ok(tcb)
    }

    /// The task's trap context.
    pub fn get_trap_ctx(&self) -> (r: &TrapContext)
        ensures
            r == self.trap_ctx,
    {
        &self.trap_ctx
    }
}


/// Build the user address space for one image and locate the physical
/// page backing its trap-context region.
fn build_user_space(
    mem: &mut PhysMemory,
    fa: &mut StackFrameAllocator,
    elf_data: &Vec<u8>,
    tramp_ppn: PhysPageNum,
) -> (r: Result<(MemorySet, u64, u64, PhysPageNum), KernelError>)
    requires
        old(fa).wf(*old(mem)),
        tramp_ppn.0 < PPN_BOUND,
    ensures
        final(fa).wf(*final(mem)),
        final(fa).end == old(fa).end,
        final(mem).base_spec() == old(mem).base_spec(),
        final(mem).end_spec() == old(mem).end_spec(),
        crate::elf::parse_rejects(elf_data@) ==> r is Err,
        r is Err ==> crate::mm::memory_set::from_elf_rejects(elf_data@, old(fa).free_count()),
        r matches Ok(out) ==> {
            &&& out.0.wf(*final(mem))
            &&& out.2 == crate::elf::le_bytes_val(elf_data@, crate::elf::ELF_ENTRY_OFF as int, 8)
            &&& (exists|segs: Seq<crate::elf::ElfSegment>|
                #[trigger] crate::elf::seg_list_exact(segs, elf_data@) && out.0.areas@.len()
                    == segs.len() + 2 && final(fa).free_count() >= old(fa).free_count() - 3
                    - crate::mm::memory_set::segs_budget(segs, segs.len() as int)
                    - MemorySet::frames_needed(
                    crate::mm::memory_set::stack_range_of(segs),
                    true,
                ) - MemorySet::frames_needed(crate::mm::memory_set::ctx_range(), true))
            &&& forall|q: int|
                old(mem).contains(q) && #[trigger] final(mem).frame(q) != old(mem).frame(q)
                    ==> old(mem).frame(q) is Free
            &&& forall|q: int|
                old(mem).contains(q) && #[trigger] out.0.owns_frame(q) ==> old(mem).frame(
                    q,
                ) is Free
        },
{
    let (memory_set, user_sp, entry_point) = match MemorySet::from_elf(mem, fa, elf_data, tramp_ppn) {
        Ok(out) => out,
        Err(e) => {
            return Err(e);
        },
    };
    let ctx_vpn = crate::mm::address::VirtAddr::from_usize(TRAP_CONTEXT_ADDR).floor();
    proof {
        let a = memory_set.areas@.len() - 1;
        assert(memory_set.areas@[a].0.vpn_range.contains_vpn(VPN_BOUND as int - 2));
        assert(memory_set.lookup_matches_area(*mem, a, VPN_BOUND as int - 2));
        assert(ctx_vpn.0 == VPN_BOUND - 2);
    }
    // the trap-context area was just mapped, so the walk always succeeds.
    let trap_ctx_ppn: PhysPageNum = match memory_set.translate(mem, ctx_vpn) {
        Some(p) => p,
        None => {
            proof {
                assert(false);
            }
            PhysPageNum(0)
        },
    };
    Ok((memory_set, user_sp, entry_point, trap_ctx_ppn))
}

} // verus!
