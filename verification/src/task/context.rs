//! The saved callee-side register context of a task: what the low-level
//! context-transfer primitive swaps between two tasks.

use vstd::prelude::*;

verus! {

/// Return address, stack pointer, and the twelve callee-saved registers.
pub struct TaskContext {
    pub ra: u64,
    pub sp: u64,
    pub s: Vec<u64>,
}

impl TaskContext {
    /// Twelve saved registers.
    pub open spec fn wf(self) -> bool {
        self.s@.len() == 12
    }

    /// A never-resumed placeholder context: all zero.
    pub fn zero_init() -> (r: Self)
        ensures
            r.wf(),
            r.ra == 0,
            r.sp == 0,
            forall|i: int| 0 <= i < 12 ==> #[trigger] r.s@[i] == 0,
    {
        let mut s: Vec<u64> = Vec::new();
        let mut i: usize = 0;
        while i < 12
            invariant
                i <= 12,
                s@.len() == i,
                forall|j: int| 0 <= j < i ==> #[trigger] s@[j] == 0,
            decreases 12 - i,
        {
            s.push(0);
            i = i + 1;
        }
        TaskContext { ra: 0, sp: 0, s }
    }

    /// The first context of a task: resuming it returns into the
    /// trap-return routine at `restore_va` on the task's kernel stack.
    pub fn init(kernel_sp: u64, restore_va: u64) -> (r: Self)
        ensures
            r.wf(),
            r.ra == restore_va,
            r.sp == kernel_sp,
            forall|i: int| 0 <= i < 12 ==> #[trigger] r.s@[i] == 0,
    {
        let mut r = TaskContext::zero_init();
        r.ra = restore_va;
        r.sp = kernel_sp;
        r
    }
}

} // verus!
