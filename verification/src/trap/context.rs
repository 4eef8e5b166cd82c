//! The saved user register snapshot plus the kernel re-entry fields,
//! stored per task in its trap-context page.

use vstd::prelude::*;

verus! {

/// General registers (x0..x31), the saved supervisor status and program
/// counter, and three fields for safe exit back to the kernel on the
/// next trap: the kernel's SATP value, the task's kernel stack pointer,
/// and the trap handler address.
pub struct TrapContext {
    pub x: Vec<u64>,
    pub sstatus: u64,
    pub sepc: u64,
    pub kernel_satp: u64,
    pub kernel_sp: u64,
    pub trap_handler: u64,
}

impl TrapContext {
    /// Thirty-two general registers.
    pub open spec fn wf(self) -> bool {
        self.x@.len() == 32
    }

    /// Set x2, the user stack pointer.
    pub fn set_sp(&mut self, sp: u64)
        requires
            old(self).wf(),
        ensures
            final(self).wf(),
            final(self).x@ == old(self).x@.update(2, sp),
            final(self).sstatus == old(self).sstatus,
            final(self).sepc == old(self).sepc,
            final(self).kernel_satp == old(self).kernel_satp,
            final(self).kernel_sp == old(self).kernel_sp,
            final(self).trap_handler == old(self).trap_handler,
    {
        self.x[2] = sp;
    }

    /// The context a task starts from, as if a trap had just been taken:
    /// all general registers zero but the user stack pointer, the program
    /// counter at the entry point, previous privilege forced to user
    /// (SPP, bit 8, cleared), and the three kernel re-entry fields set.
    pub fn app_init_context(
        entry: u64,
        sp: u64,
        sstatus: u64,
        kernel_satp: u64,
        kernel_sp: u64,
        trap_handler: u64,
    ) -> (r: Self)
        ensures
            r.wf(),
            r.x@[2] == sp,
            forall|i: int| 0 <= i < 32 && i != 2 ==> #[trigger] r.x@[i] == 0,
            r.sstatus == sstatus & 0xFFFF_FFFF_FFFF_FEFF,
            r.sepc == entry,
            r.kernel_satp == kernel_satp,
            r.kernel_sp == kernel_sp,
            r.trap_handler == trap_handler,
    {
        let mut x: Vec<u64> = Vec::new();
        let mut i: usize = 0;
        while i < 32
            invariant
                i <= 32,
                x@.len() == i,
                forall|j: int| 0 <= j < i ==> #[trigger] x@[j] == 0,
            decreases 32 - i,
        {
            x.push(0);
            i = i + 1;
        }
        let mut context = TrapContext {
            x,
            sstatus: sstatus & 0xFFFF_FFFF_FFFF_FEFF,
            sepc: entry,
            kernel_satp,
            kernel_sp,
            trap_handler,
        };
        context.set_sp(sp);
        context
    }
}

} // verus!
