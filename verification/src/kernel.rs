//! The process-wide kernel state, built once by the boot sequence:
//! physical memory and its allocator, the kernel address space, and the
//! task table. All trap handling and syscalls act on this value.

use vstd::prelude::*;
use crate::error::KernelError;
use crate::mm::address::{PhysAddr, PhysPageNum, PPN_BOUND, VA_BOUND};
use crate::mm::frame_allocator::StackFrameAllocator;
use crate::mm::memory_set::{
    lemma_owns_frame_not_free, lemma_ms_wf_preserved_frames, KernelLayout, MemorySet,
};
use crate::mm::phys_mem::PhysMemory;
use crate::task::manager::TaskManager;
use crate::task::task::{TaskControlBlock, TaskStatus};

verus! {

/// Boot-time parameters the hardware layer supplies: the trap handler's
/// address, the trampoline-relative address of the register-restore
/// routine, and the supervisor status to start tasks with.
pub struct BootParams {
    pub trap_handler_va: u64,
    pub restore_va: u64,
    pub sstatus: u64,
}

/// The kernel's whole state.
pub struct Kernel {
    pub mem: PhysMemory,
    pub frame_allocator: StackFrameAllocator,
    pub kernel_space: MemorySet,
    pub task_manager: TaskManager,
    pub params: BootParams,
}

impl Kernel {
    /// The number of tasks.
    pub open spec fn num_tasks(self) -> int {
        self.task_manager.num()
    }

    /// The kernel invariant: the arena, allocator and kernel space are
    /// well formed, every task's space is well formed, and no frame backs
    /// two address spaces.
    pub open spec fn wf(self) -> bool {
        &&& self.mem.wf()
        &&& self.frame_allocator.wf(self.mem)
        &&& self.frame_allocator.end.0 as int == self.mem.end_spec()
        &&& self.kernel_space.wf(self.mem)
        &&& self.num_tasks() <= 0x4000_0000
        &&& self.task_manager.wf_basic()
        &&& forall|i: int|
            0 <= i < self.num_tasks() ==> (#[trigger] self.task_manager.tasks@[i]).wf(self.mem)
        &&& forall|i: int, j: int, q: int|
            0 <= i < self.num_tasks() && 0 <= j < self.num_tasks() && i != j ==> !(
            #[trigger] self.task_manager.tasks@[i].memory_set.owns_frame(q)
                && #[trigger] self.task_manager.tasks@[j].memory_set.owns_frame(q))
        &&& forall|i: int, q: int|
            0 <= i < self.num_tasks() ==> !(self.kernel_space.owns_frame(q)
                && #[trigger] self.task_manager.tasks@[i].memory_set.owns_frame(q))
    }

    /// The current task's index.
    pub fn current_idx(&self) -> (r: usize)
        ensures
            r == self.task_manager.cur_task,
    {
        self.task_manager.get_current_idx()
    }

    /// The SATP token of the current task's address space.
    pub fn current_user_token(&self) -> (r: u64)
        requires
            self.wf(),
            self.num_tasks() > 0,
        ensures
            r as int % PPN_BOUND as int == self.task_manager.tasks@[self.task_manager.cur_task
                as int].memory_set.root(),
    {
        let cur: usize = self.task_manager.cur_task;
        self.task_manager.tasks[cur].memory_set.token(&self.mem)
    }

    /// Mark the running task Ready and dispatch the next Ready task in
    /// round-robin order. The context transfer always exists: the
    /// suspended task itself is Ready again.
    pub fn suspend_current_and_run_next(&mut self) -> (r: Option<(usize, usize)>)
        requires
            old(self).wf(),
            old(self).num_tasks() > 0,
            old(self).task_manager.statuses()[old(self).task_manager.cur_task as int]
                == TaskStatus::Running,
        ensures
            final(self).wf(),
            final(self).num_tasks() == old(self).num_tasks(),
            final(self).mem == old(self).mem,
            final(self).kernel_space == old(self).kernel_space,
            final(self).frame_allocator == old(self).frame_allocator,
            final(self).params == old(self).params,
            forall|i: int|
                0 <= i < old(self).num_tasks() ==> tasks_agree_but_status(
                    final(self).task_manager.tasks@[i],
                    old(self).task_manager.tasks@[i],
                ),
            r is Some,
            r matches Some(pair) ==> ({
                let cur = old(self).task_manager.cur_task as int;
                let s1 = old(self).task_manager.statuses().update(cur, TaskStatus::Ready);
                &&& pair.0 == old(self).task_manager.cur_task
                &&& Some(pair.1 as int) == TaskManager::find_next_spec(s1, cur, 1)
                &&& pair.1 < old(self).num_tasks()
                &&& final(self).task_manager.statuses() == s1.update(
                    pair.1 as int,
                    TaskStatus::Running,
                )
                &&& final(self).task_manager.cur_task == pair.1
            }),
    {
        self.task_manager.mark_current_suspended();
        proof {
            lemma_tasks_wf_after_status(*old(self), self.task_manager);
        }
        let ghost k1 = *self;
        let r = self.task_manager.run_next_task();
        proof {
            lemma_tasks_wf_after_status(k1, self.task_manager);
            crate::task::manager::lemma_find_next_none_no_ready(
                k1.task_manager.statuses(),
                k1.task_manager.cur_task as int,
            );
            assert(k1.task_manager.statuses()[k1.task_manager.cur_task as int]
                == TaskStatus::Ready);
        }
        r
    }

    /// Mark the running task Exited — a terminal state — and dispatch the
    /// next Ready task in round-robin order. Nothing comes back exactly
    /// when no Ready task remains: every task has exited or faulted, and
    /// the machine shuts down.
    pub fn exit_current_and_run_next(&mut self) -> (r: Option<(usize, usize)>)
        requires
            old(self).wf(),
            old(self).num_tasks() > 0,
            old(self).task_manager.statuses()[old(self).task_manager.cur_task as int]
                == TaskStatus::Running,
        ensures
            final(self).wf(),
            final(self).num_tasks() == old(self).num_tasks(),
            final(self).mem == old(self).mem,
            final(self).kernel_space == old(self).kernel_space,
            final(self).frame_allocator == old(self).frame_allocator,
            final(self).params == old(self).params,
            forall|i: int|
                0 <= i < old(self).num_tasks() ==> tasks_agree_but_status(
                    final(self).task_manager.tasks@[i],
                    old(self).task_manager.tasks@[i],
                ),
            final(self).task_manager.statuses()[old(self).task_manager.cur_task as int]
                == TaskStatus::Exited,
            r is None <==> (forall|i: int|
                0 <= i < old(self).num_tasks()
                    ==> old(self).task_manager.statuses().update(
                    old(self).task_manager.cur_task as int,
                    TaskStatus::Exited,
                )[i] != TaskStatus::Ready),
            r matches Some(pair) ==> ({
                let cur = old(self).task_manager.cur_task as int;
                let s1 = old(self).task_manager.statuses().update(cur, TaskStatus::Exited);
                &&& pair.0 == old(self).task_manager.cur_task
                &&& Some(pair.1 as int) == TaskManager::find_next_spec(s1, cur, 1)
                &&& pair.1 < old(self).num_tasks()
                &&& pair.1 != old(self).task_manager.cur_task
                &&& final(self).task_manager.statuses() == s1.update(
                    pair.1 as int,
                    TaskStatus::Running,
                )
                &&& final(self).task_manager.cur_task == pair.1
            }),
            r is None ==> final(self).task_manager.statuses() == old(
                self,
            ).task_manager.statuses().update(
                old(self).task_manager.cur_task as int,
                TaskStatus::Exited,
            ),
    {
        self.task_manager.mark_current_exited();
        proof {
            lemma_tasks_wf_after_status(*old(self), self.task_manager);
        }
        let ghost k1 = *self;
        let r = self.task_manager.run_next_task();
        proof {
            lemma_tasks_wf_after_status(k1, self.task_manager);
            crate::task::manager::lemma_find_next_ready(
                k1.task_manager.statuses(),
                k1.task_manager.cur_task as int,
                1,
            );
            crate::task::manager::lemma_find_next_none_no_ready(
                k1.task_manager.statuses(),
                k1.task_manager.cur_task as int,
            );
        }
        r
    }

    /// Start the first task: task 0 becomes Running.
    pub fn run_first_task(&mut self) -> (r: usize)
        requires
            old(self).wf(),
            old(self).num_tasks() > 0,
        ensures
            final(self).wf(),
            final(self).task_manager.cur_task == 0,
            final(self).task_manager.statuses()[0] == TaskStatus::Running,
            r == 0,
    {
        self.task_manager.run_first_task();
        proof {
            lemma_tasks_wf_after_status(*old(self), self.task_manager);
        }
        0
    }
}

/// A status-only update of the task table touches no address space, so
/// the whole kernel invariant survives it.
proof fn lemma_tasks_wf_after_status(k0: Kernel, tm1: TaskManager)
    requires
        k0.wf(),
        tm1.num() == k0.task_manager.num(),
        tm1.num() > 0 ==> tm1.cur_task < tm1.num(),
        forall|i: int|
            0 <= i < tm1.num() ==> (#[trigger] tm1.tasks@[i]).memory_set
                == k0.task_manager.tasks@[i].memory_set && tm1.tasks@[i].ctx.wf()
                && tm1.tasks@[i].trap_ctx.wf(),
    ensures
        (Kernel { task_manager: tm1, ..k0 }).wf(),
{
    let k1 = Kernel { task_manager: tm1, ..k0 };
    assert forall|i: int|
        0 <= i < k1.num_tasks() implies (#[trigger] k1.task_manager.tasks@[i]).wf(k1.mem) by {
        assert(k0.task_manager.tasks@[i].wf(k0.mem));
        assert(k1.task_manager.tasks@[i].memory_set == k0.task_manager.tasks@[i].memory_set);
    }
    assert forall|i: int, j: int, q: int|
        0 <= i < k1.num_tasks() && 0 <= j < k1.num_tasks() && i != j implies !(
    #[trigger] k1.task_manager.tasks@[i].memory_set.owns_frame(q)
        && #[trigger] k1.task_manager.tasks@[j].memory_set.owns_frame(q)) by {
        assert(!(k0.task_manager.tasks@[i].memory_set.owns_frame(q)
            && k0.task_manager.tasks@[j].memory_set.owns_frame(q)));
    }
    assert forall|i: int, q: int|
        0 <= i < k1.num_tasks() implies !(k1.kernel_space.owns_frame(q)
        && #[trigger] k1.task_manager.tasks@[i].memory_set.owns_frame(q)) by {
        assert(!(k0.kernel_space.owns_frame(q)
            && k0.task_manager.tasks@[i].memory_set.owns_frame(q)));
    }
}

/// Boot: build the arena and allocator over the physical pool above the
/// kernel image, the kernel address space, and one Ready task per
/// application image, in slot order.
#[verifier::rlimit(100)]
#[verifier::spinoff_prover]
pub fn init(
    layout: &KernelLayout,
    apps: &Vec<Vec<u8>>,
    params: BootParams,
) -> (r: Result<Kernel, KernelError>)
    requires
        layout.wf(),
        apps@.len() <= 0x2_0000,
    ensures
        r is Err ==> ({
            let ps = (layout.ekernel + crate::config::PAGE_SIZE - 1) as int
                / crate::config::PAGE_SIZE as int;
            let pe = crate::config::MEMORY_END as int / crate::config::PAGE_SIZE as int;
            ||| pe < ps
            ||| crate::mm::memory_set::new_kernel_rejects(*layout, pe - ps)
            ||| apps@.len() > 0
        }),
        ({
            let ps = (layout.ekernel + crate::config::PAGE_SIZE - 1) as int
                / crate::config::PAGE_SIZE as int;
            let pe = crate::config::MEMORY_END as int / crate::config::PAGE_SIZE as int;
            apps@.len() == 0 && pe >= ps && !crate::mm::memory_set::new_kernel_rejects(
                *layout,
                pe - ps,
            )
        }) ==> r is Ok,
        r matches Ok(k) ==> {
            &&& k.wf()
            &&& k.num_tasks() == apps@.len()
            &&& forall|i: int|
                0 <= i < k.num_tasks() ==> #[trigger] k.task_manager.statuses()[i]
                    == TaskStatus::Ready
            &&& k.task_manager.cur_task == 0
        },
{
    let pool_start: PhysPageNum = PhysAddr::from_usize(layout.ekernel).ceil();
    let pool_end: PhysPageNum = PhysAddr::from_usize(crate::config::MEMORY_END).floor();
    if pool_end.0 < pool_start.0 {
        return Err(KernelError::OutOfFrames);
    }
    let mut mem = PhysMemory::new(pool_start.0, pool_end.0);
    let mut fa = StackFrameAllocator::new();
    fa.init(pool_start, pool_end);
    proof {
        assert(fa.free_count() == pool_end.0 - pool_start.0);
    }
    let mut kernel_space = match MemorySet::new_kernel(&mut mem, &mut fa, layout) {
        Ok(ms) => ms,
        Err(e) => {
            return Err(e);
        },
    };
    let kernel_token: u64 = kernel_space.token(&mem);
    let tramp_ppn: PhysPageNum = PhysAddr::from_usize(layout.strampoline).floor();
    let napps: usize = apps.len();
    let mut tasks: Vec<TaskControlBlock> = Vec::new();
    let mut i: usize = 0;
    while i < napps
        invariant
            i <= napps,
            napps == apps@.len(),
            napps <= 0x2_0000,
            tasks@.len() == i,
            mem.wf(),
            fa.wf(mem),
            fa.end.0 as int == mem.end_spec(),
            kernel_space.wf(mem),
            tramp_ppn.0 < PPN_BOUND,
            forall|j: int|
                0 <= j < i ==> (#[trigger] tasks@[j]).wf(mem) && tasks@[j].status
                    == TaskStatus::Ready,
            forall|j1: int, j2: int, q: int|
                0 <= j1 < i && 0 <= j2 < i && j1 != j2 ==> !(
                #[trigger] tasks@[j1].memory_set.owns_frame(q)
                    && #[trigger] tasks@[j2].memory_set.owns_frame(q)),
            forall|j: int, q: int|
                0 <= j < i ==> !(kernel_space.owns_frame(q)
                    && #[trigger] tasks@[j].memory_set.owns_frame(q)),
        decreases napps - i,
    {
        let ghost m_pre = mem;
        let ghost ks_pre = kernel_space;
        let ghost tasks_pre = tasks@;
        let tcb = match TaskControlBlock::new(
            &mut mem,
            &mut fa,
            &mut kernel_space,
            &apps[i],
            i as u64,
            tramp_ppn,
            kernel_token,
            params.sstatus,
            params.trap_handler_va,
            params.restore_va,
        ) {
            Ok(t) => t,
            Err(e) => {
                return Err(e);
            },
        };
        proof {
            assert forall|j: int|
                0 <= j < i implies (#[trigger] tasks@[j]).wf(mem) && tasks@[j].status
                == TaskStatus::Ready by {
                let msj = tasks@[j].memory_set;
                lemma_owns_frame_not_free(msj, m_pre);
                lemma_owns_frame_not_free(ks_pre, m_pre);
                assert forall|q: int| #[trigger] msj.owns_frame(q) implies mem.frame(q)
                    == m_pre.frame(q) by {
                    assert(!(m_pre.frame(q) is Free));
                    if mem.frame(q) != m_pre.frame(q) {
                        assert(m_pre.frame(q) is Free || ks_pre.owns_frame(q));
                        assert(!(ks_pre.owns_frame(q) && msj.owns_frame(q)));
                    }
                }
                lemma_ms_wf_preserved_frames(msj, m_pre, mem);
            }
        }
        tasks.push(tcb);
        proof {
            let tn = tasks@.len() - 1;
            assert(tasks@[tn] == tcb);
            assert forall|j1: int, j2: int, q: int|
                0 <= j1 < tasks@.len() && 0 <= j2 < tasks@.len() && j1 != j2 implies !(
            #[trigger] tasks@[j1].memory_set.owns_frame(q)
                && #[trigger] tasks@[j2].memory_set.owns_frame(q)) by {
                if j1 < tn && j2 < tn {
                    assert(tasks@[j1] == tasks_pre[j1] && tasks@[j2] == tasks_pre[j2]);
                } else {
                    let o = if j1 < tn {
                        j1
                    } else {
                        j2
                    };
                    assert(tasks@[o] == tasks_pre[o]);
                    if tasks@[j1].memory_set.owns_frame(q) && tasks@[j2].memory_set.owns_frame(
                        q,
                    ) {
                        let mso = tasks_pre[o].memory_set;
                        lemma_owns_frame_not_free(mso, m_pre);
                        assert(!(m_pre.frame(q) is Free));
                        assert(m_pre.contains(q));
                        assert(tcb.memory_set.owns_frame(q));
                        assert(m_pre.frame(q) is Free);
                    }
                }
            }
            assert forall|j: int, q: int|
                0 <= j < tasks@.len() implies !(kernel_space.owns_frame(q)
                && #[trigger] tasks@[j].memory_set.owns_frame(q)) by {
                if j < tn {
                    assert(tasks@[j] == tasks_pre[j]);
                    if kernel_space.owns_frame(q) && tasks@[j].memory_set.owns_frame(q) {
                        let msj = tasks_pre[j].memory_set;
                        lemma_owns_frame_not_free(msj, m_pre);
                        assert(m_pre.contains(q));
                        assert(!(m_pre.frame(q) is Free));
                        assert(!(ks_pre.owns_frame(q)));
                        assert(ks_pre.owns_frame(q) || m_pre.frame(q) is Free);
                    }
                }
            }
        }
        i = i + 1;
    }
    let task_manager = TaskManager { tasks, cur_task: 0 };
    let k = Kernel { mem, frame_allocator: fa, kernel_space, task_manager, params };
    Ok(k)
}


/// Two task records that may differ only in their lifecycle status.
pub open spec fn tasks_agree_but_status(a: TaskControlBlock, b: TaskControlBlock) -> bool {
    &&& a.ctx == b.ctx
    &&& a.memory_set == b.memory_set
    &&& a.trap_ctx == b.trap_ctx
    &&& a.trap_ctx_ppn == b.trap_ctx_ppn
    &&& a.base_size == b.base_size
}

} // verus!
