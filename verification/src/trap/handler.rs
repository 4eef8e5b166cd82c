//! The trap gateway's decision types: the hardware cause of a trap, and
//! the action the low-level trap path must perform after the verified
//! handler has run.

use vstd::prelude::*;

verus! {

/// Why the trap was taken, as read from the supervisor cause register.
#[derive(Copy, Clone, Debug, PartialEq, Eq, Structural)]
pub enum TrapCause {
    /// An environment call from user mode: a syscall.
    UserEnvCall,
    StoreFault,
    StorePageFault,
    IllegalInstruction,
    LoadFault,
    LoadPageFault,
    /// The timer interrupt: the sole preemption mechanism.
    SupervisorTimer,
    /// Any cause outside the supported set.
    Other,
}

/// What the low-level trap path must do next.
#[derive(Copy, Clone, Debug, PartialEq, Eq, Structural)]
pub enum TrapAction {
    /// Return to the same task through the trap-return routine.
    UserReturn,
    /// Transfer the CPU from task `prev` to task `next`.
    Switch { prev: usize, next: usize },
    /// Every task has exited: power off.
    Shutdown,
    /// An unrecoverable kernel-side condition: panic.
    Fatal,
}

/// The verified handler's full answer: the action to take, bytes for the
/// console, and whether to re-arm the timer.
pub struct TrapResult {
    pub action: TrapAction,
    pub console: Vec<u8>,
    pub rearm_timer: bool,
}


/// Syscall numbers of the ABI.
pub const SYSCALL_WRITE: u64 = 64;

pub const SYSCALL_EXIT: u64 = 93;

pub const SYSCALL_YIELD: u64 = 124;

pub const SYSCALL_GET_TIME: u64 = 169;

pub const SYSCALL_MUNMAP: u64 = 215;

pub const SYSCALL_MMAP: u64 = 222;

/// Register `i` of the current task's trap context.
pub open spec fn reg(k: crate::kernel::Kernel, i: int) -> u64 {
    k.task_manager.tasks@[k.task_manager.cur_task as int].trap_ctx.x@[i]
}

/// The current task's saved program counter.
pub open spec fn cur_sepc(k: crate::kernel::Kernel) -> u64 {
    k.task_manager.tasks@[k.task_manager.cur_task as int].trap_ctx.sepc
}

/// The root directory of the current task's address space.
pub open spec fn cur_root(k: crate::kernel::Kernel) -> int {
    k.task_manager.tasks@[k.task_manager.cur_task as int].memory_set.root()
}

/// The syscall ids this kernel implements.
pub open spec fn supported_syscall(id: u64) -> bool {
    id == SYSCALL_WRITE || id == SYSCALL_EXIT || id == SYSCALL_YIELD || id == SYSCALL_GET_TIME
        || id == SYSCALL_MUNMAP || id == SYSCALL_MMAP
}

/// Whether the write syscall's arguments are unusable: a descriptor other
/// than standard output, or a buffer not fully readable through the
/// caller's address space. The original kernel panics on these.
pub open spec fn write_rejected(k: crate::kernel::Kernel) -> bool {
    !(reg(k, 10) == crate::syscall::fs::FD_STDOUT && reg(k, 11) + reg(k, 12)
        < crate::mm::address::VA_BOUND && (forall|j: int|
        0 <= j < reg(k, 12) ==> #[trigger] crate::mm::page_table::translated_byte(
            k.mem,
            cur_root(k),
            (reg(k, 11) + j) as u64,
        ) is Some))
}

/// Whether the get-time destination is unusable: not 16 writable mapped
/// bytes in the caller's space. The original kernel panics on this.
pub open spec fn gettime_rejected(k: crate::kernel::Kernel) -> bool {
    !(reg(k, 10) + 16 < crate::mm::address::VA_BOUND && (forall|j: int|
        0 <= j < 16 ==> #[trigger] crate::mm::page_table::translated_byte(
            k.mem,
            cur_root(k),
            (reg(k, 10) + j) as u64,
        ) is Some))
}

/// The conditions the gateway treats as a kernel-halting bug on an
/// environment call: a program counter that cannot advance, an
/// unimplemented syscall id, or write/get-time arguments the original
/// kernel panics on.
pub open spec fn envcall_fatal(k: crate::kernel::Kernel) -> bool {
    ||| cur_sepc(k) > 0xFFFF_FFFF_FFFF_FFFB
    ||| !supported_syscall(reg(k, 17))
    ||| (reg(k, 17) == SYSCALL_WRITE && write_rejected(k))
    ||| (reg(k, 17) == SYSCALL_GET_TIME && gettime_rejected(k))
}

/// The task table after marking the current task `st` and dispatching:
/// the current task is `st`; a Switch goes to the first Ready task after
/// the cursor, which becomes Running; Shutdown happens exactly when no
/// Ready task remains.
pub open spec fn marked_and_dispatched(
    k0: crate::kernel::Kernel,
    k1: crate::kernel::Kernel,
    st: crate::task::task::TaskStatus,
    action: TrapAction,
) -> bool {
    let cur = k0.task_manager.cur_task as int;
    let s1 = k0.task_manager.statuses().update(cur, st);
    &&& (action matches TrapAction::Switch { prev, next } ==> {
        &&& prev == k0.task_manager.cur_task
        &&& Some(next as int) == crate::task::manager::TaskManager::find_next_spec(s1, cur, 1)
        &&& k1.task_manager.statuses() == s1.update(
            next as int,
            crate::task::task::TaskStatus::Running,
        )
        &&& k1.task_manager.cur_task == next
    })
    &&& (action is Shutdown <==> (forall|i: int|
        0 <= i < k0.num_tasks() ==> s1[i] != crate::task::task::TaskStatus::Ready))
    &&& (action is Switch || action is Shutdown)
    &&& k1.mem == k0.mem
    &&& k1.kernel_space == k0.kernel_space
}

/// The write syscall leg: gather the caller's buffer and put the byte
/// count in the return register; arguments the original kernel panics on
/// are fatal and change nothing.
#[verifier::rlimit(100)]
#[verifier::spinoff_prover]
fn dispatch_write(kernel: &mut crate::kernel::Kernel) -> (r: TrapResult)
    requires
        old(kernel).wf(),
        old(kernel).num_tasks() > 0,
        old(kernel).task_manager.statuses()[old(kernel).task_manager.cur_task as int]
            == crate::task::task::TaskStatus::Running,
    ensures
        final(kernel).wf(),
        final(kernel).num_tasks() == old(kernel).num_tasks(),
        r.rearm_timer == false,
        r.action is Fatal <==> write_rejected(*old(kernel)),
        r.action is Fatal ==> final(kernel).task_manager.tasks@ == old(kernel).task_manager.tasks@
            && final(kernel).mem == old(kernel).mem && final(kernel).task_manager.cur_task == old(
            kernel,
        ).task_manager.cur_task,
        !(r.action is Fatal) ==> ({
            let k0 = *old(kernel);
            let cur = k0.task_manager.cur_task as int;
            &&& r.action is UserReturn
            &&& final(kernel).task_manager.statuses() == k0.task_manager.statuses()
            &&& final(kernel).task_manager.cur_task == k0.task_manager.cur_task
            &&& final(kernel).mem == k0.mem
            &&& final(kernel).task_manager.tasks@[cur].trap_ctx.x@
                == k0.task_manager.tasks@[cur].trap_ctx.x@.update(10, reg(k0, 12))
            &&& final(kernel).task_manager.tasks@[cur].trap_ctx.sepc == cur_sepc(k0)
            &&& forall|i: int|
                0 <= i < k0.num_tasks() && i != cur ==> #[trigger] final(kernel).task_manager.tasks@[i] == k0.task_manager.tasks@[i]
            &&& r.console@.len() == reg(k0, 12)
            &&& forall|j: int|
                0 <= j < reg(k0, 12) ==> #[trigger] r.console@[j]
                    == crate::mm::page_table::translated_byte(
                    k0.mem,
                    cur_root(k0),
                    (reg(k0, 11) + j) as u64,
                )->Some_0
        }),
{
    let cur: usize = kernel.task_manager.cur_task;
    let a0: u64 = kernel.task_manager.tasks[cur].trap_ctx.x[10];
    let a1: u64 = kernel.task_manager.tasks[cur].trap_ctx.x[11];
    let a2: u64 = kernel.task_manager.tasks[cur].trap_ctx.x[12];
    match crate::syscall::fs::sys_write(kernel, a0, a1, a2) {
        Some(out) => {
            let ghost k1 = *kernel;
            kernel.task_manager.tasks[cur].trap_ctx.x[10] = a2;
            proof {
                lemma_wf_after_ctx(k1, *kernel, cur as int);
                assert(kernel.task_manager.statuses() =~= k1.task_manager.statuses());
                assert(a2 == reg(*old(kernel), 12));
            }
            TrapResult { action: TrapAction::UserReturn, console: out.1, rearm_timer: false }
        },
        None => TrapResult {
            action: TrapAction::Fatal,
            console: Vec::new(),
            rearm_timer: false,
        },
    }
}

/// The get-time syscall leg: write the split counter through the
/// caller's space and put 0 in the return register; an unusable
/// destination is fatal and changes nothing.
#[verifier::rlimit(100)]
#[verifier::spinoff_prover]
fn dispatch_get_time(kernel: &mut crate::kernel::Kernel, time_us: u64) -> (r: TrapResult)
    requires
        old(kernel).wf(),
        old(kernel).num_tasks() > 0,
        old(kernel).task_manager.statuses()[old(kernel).task_manager.cur_task as int]
            == crate::task::task::TaskStatus::Running,
    ensures
        final(kernel).wf(),
        final(kernel).num_tasks() == old(kernel).num_tasks(),
        r.rearm_timer == false,
        r.action is Fatal <==> gettime_rejected(*old(kernel)),
        r.action is Fatal ==> final(kernel).task_manager.tasks@ == old(kernel).task_manager.tasks@
            && final(kernel).mem == old(kernel).mem && final(kernel).task_manager.cur_task == old(
            kernel,
        ).task_manager.cur_task,
        !(r.action is Fatal) ==> ({
            let k0 = *old(kernel);
            let cur = k0.task_manager.cur_task as int;
            &&& r.action is UserReturn
            &&& final(kernel).task_manager.statuses() == k0.task_manager.statuses()
            &&& final(kernel).task_manager.cur_task == k0.task_manager.cur_task
            &&& final(kernel).task_manager.tasks@[cur].trap_ctx.x@
                == k0.task_manager.tasks@[cur].trap_ctx.x@.update(10, 0u64)
            &&& final(kernel).task_manager.tasks@[cur].trap_ctx.sepc == cur_sepc(k0)
            &&& forall|i: int|
                0 <= i < k0.num_tasks() && i != cur ==> #[trigger] final(kernel).task_manager.tasks@[i] == k0.task_manager.tasks@[i]
            &&& forall|j: int|
                0 <= j < 8 ==> #[trigger] crate::mm::page_table::translated_byte(
                    final(kernel).mem,
                    cur_root(k0),
                    (reg(k0, 10) + j) as u64,
                ) == Some(
                    crate::syscall::timer::byte_of(
                        time_us as int / crate::config::MICRO_PER_SEC as int,
                        j,
                    ),
                )
            &&& forall|j: int|
                0 <= j < 8 ==> #[trigger] crate::mm::page_table::translated_byte(
                    final(kernel).mem,
                    cur_root(k0),
                    (reg(k0, 10) + 8 + j) as u64,
                ) == Some(
                    crate::syscall::timer::byte_of(
                        time_us as int % crate::config::MICRO_PER_SEC as int,
                        j,
                    ),
                )
        }),
{
    let cur: usize = kernel.task_manager.cur_task;
    let a0: u64 = kernel.task_manager.tasks[cur].trap_ctx.x[10];
    match crate::syscall::timer::sys_get_time(kernel, a0, time_us) {
        Some(v) => {
            let ghost k1 = *kernel;
            kernel.task_manager.tasks[cur].trap_ctx.x[10] = 0;
            proof {
                lemma_wf_after_ctx(k1, *kernel, cur as int);
                assert(kernel.task_manager.statuses() =~= k1.task_manager.statuses());
                assert(k1.task_manager.statuses() =~= old(kernel).task_manager.statuses());
            }
            TrapResult { action: TrapAction::UserReturn, console: Vec::new(), rearm_timer: false }
        },
        None => TrapResult {
            action: TrapAction::Fatal,
            console: Vec::new(),
            rearm_timer: false,
        },
    }
}

/// The yield syscall leg: put 0 in the caller's return register, mark it
/// Ready and dispatch the next Ready task.
#[verifier::rlimit(100)]
#[verifier::spinoff_prover]
fn dispatch_yield(kernel: &mut crate::kernel::Kernel) -> (r: TrapResult)
    requires
        old(kernel).wf(),
        old(kernel).num_tasks() > 0,
        old(kernel).task_manager.statuses()[old(kernel).task_manager.cur_task as int]
            == crate::task::task::TaskStatus::Running,
    ensures
        final(kernel).wf(),
        final(kernel).num_tasks() == old(kernel).num_tasks(),
        r.rearm_timer == false,
        r.action is Switch,
        marked_and_dispatched(
            *old(kernel),
            *final(kernel),
            crate::task::task::TaskStatus::Ready,
            r.action,
        ),
        final(kernel).task_manager.tasks@[old(kernel).task_manager.cur_task as int].trap_ctx.x@
            == old(kernel).task_manager.tasks@[old(kernel).task_manager.cur_task
            as int].trap_ctx.x@.update(10, 0u64),
        final(kernel).task_manager.tasks@[old(kernel).task_manager.cur_task
            as int].trap_ctx.sepc == cur_sepc(*old(kernel)),
{
    let out = crate::syscall::process::sys_yield(kernel);
    match out.1 {
        Some(pair) => {
            let ghost k1 = *kernel;
            let prev: usize = pair.0;
            kernel.task_manager.tasks[prev].trap_ctx.x[10] = 0;
            proof {
                lemma_wf_after_ctx(k1, *kernel, prev as int);
                assert(kernel.task_manager.statuses() =~= k1.task_manager.statuses());
                let s1 = old(kernel).task_manager.statuses().update(
                    old(kernel).task_manager.cur_task as int,
                    crate::task::task::TaskStatus::Ready,
                );
                assert(s1[old(kernel).task_manager.cur_task as int]
                    == crate::task::task::TaskStatus::Ready);
            }
            TrapResult {
                action: TrapAction::Switch { prev: pair.0, next: pair.1 },
                console: Vec::new(),
                rearm_timer: false,
            }
        },
        None => {
            proof {
                assert(false);
            }
            TrapResult { action: TrapAction::Fatal, console: Vec::new(), rearm_timer: false }
        },
    }
}

/// The mmap syscall leg: try to insert the requested droppable area and
/// put 0 or -1 in the return register.
#[verifier::rlimit(100)]
#[verifier::spinoff_prover]
fn dispatch_mmap(kernel: &mut crate::kernel::Kernel) -> (r: TrapResult)
    requires
        old(kernel).wf(),
        old(kernel).num_tasks() > 0,
        old(kernel).task_manager.statuses()[old(kernel).task_manager.cur_task as int]
            == crate::task::task::TaskStatus::Running,
    ensures
        final(kernel).wf(),
        final(kernel).num_tasks() == old(kernel).num_tasks(),
        r.rearm_timer == false,
        r.action is UserReturn,
        ({
            let k0 = *old(kernel);
            let cur = k0.task_manager.cur_task as int;
            &&& final(kernel).task_manager.statuses() == k0.task_manager.statuses()
            &&& final(kernel).task_manager.cur_task == k0.task_manager.cur_task
            &&& final(kernel).task_manager.tasks@[cur].trap_ctx.x@
                == k0.task_manager.tasks@[cur].trap_ctx.x@.update(
                10,
                if crate::syscall::process::mmap_accepted(
                    k0,
                    reg(k0, 10),
                    reg(k0, 11),
                    reg(k0, 12),
                ) {
                    0u64
                } else {
                    0xFFFF_FFFF_FFFF_FFFFu64
                },
            )
            &&& final(kernel).task_manager.tasks@[cur].trap_ctx.sepc == cur_sepc(k0)
        }),
{
    let cur: usize = kernel.task_manager.cur_task;
    let a0: u64 = kernel.task_manager.tasks[cur].trap_ctx.x[10];
    let a1: u64 = kernel.task_manager.tasks[cur].trap_ctx.x[11];
    let a2: u64 = kernel.task_manager.tasks[cur].trap_ctx.x[12];
    let v = crate::syscall::process::sys_mmap(kernel, a0, a1, a2);
    let ret: u64 = if v == 0 {
        0
    } else {
        0xFFFF_FFFF_FFFF_FFFF
    };
    let ghost k1 = *kernel;
    kernel.task_manager.tasks[cur].trap_ctx.x[10] = ret;
    proof {
        lemma_wf_after_ctx(k1, *kernel, cur as int);
        assert(kernel.task_manager.statuses() =~= k1.task_manager.statuses());
    }
    TrapResult { action: TrapAction::UserReturn, console: Vec::new(), rearm_timer: false }
}

/// The munmap syscall leg: try to remove the named droppable area and
/// put 0 or -1 in the return register.
#[verifier::rlimit(100)]
#[verifier::spinoff_prover]
fn dispatch_munmap(kernel: &mut crate::kernel::Kernel) -> (r: TrapResult)
    requires
        old(kernel).wf(),
        old(kernel).num_tasks() > 0,
        old(kernel).task_manager.statuses()[old(kernel).task_manager.cur_task as int]
            == crate::task::task::TaskStatus::Running,
    ensures
        final(kernel).wf(),
        final(kernel).num_tasks() == old(kernel).num_tasks(),
        r.rearm_timer == false,
        r.action is UserReturn,
        ({
            let k0 = *old(kernel);
            let cur = k0.task_manager.cur_task as int;
            &&& final(kernel).task_manager.statuses() == k0.task_manager.statuses()
            &&& final(kernel).task_manager.cur_task == k0.task_manager.cur_task
            &&& final(kernel).task_manager.tasks@[cur].trap_ctx.x@
                == k0.task_manager.tasks@[cur].trap_ctx.x@.update(
                10,
                if crate::syscall::process::munmap_accepted(k0, reg(k0, 10), reg(k0, 11)) {
                    0u64
                } else {
                    0xFFFF_FFFF_FFFF_FFFFu64
                },
            )
            &&& final(kernel).task_manager.tasks@[cur].trap_ctx.sepc == cur_sepc(k0)
        }),
{
    let cur: usize = kernel.task_manager.cur_task;
    let a0: u64 = kernel.task_manager.tasks[cur].trap_ctx.x[10];
    let a1: u64 = kernel.task_manager.tasks[cur].trap_ctx.x[11];
    let v = crate::syscall::process::sys_munmap(kernel, a0, a1);
    let ret: u64 = if v == 0 {
        0
    } else {
        0xFFFF_FFFF_FFFF_FFFF
    };
    let ghost k1 = *kernel;
    kernel.task_manager.tasks[cur].trap_ctx.x[10] = ret;
    proof {
        lemma_wf_after_ctx(k1, *kernel, cur as int);
        assert(kernel.task_manager.statuses() =~= k1.task_manager.statuses());
    }
    TrapResult { action: TrapAction::UserReturn, console: Vec::new(), rearm_timer: false }
}

/// Dispatch one environment call: advance the saved program counter past
/// the call instruction, dispatch on the id register, and write the
/// result into the return register. The conditions the original kernel
/// panics on come back as Fatal.
#[verifier::rlimit(100)]
#[verifier::spinoff_prover]
fn handle_syscall(kernel: &mut crate::kernel::Kernel, time_us: u64) -> (r: TrapResult)
    requires
        old(kernel).wf(),
        old(kernel).num_tasks() > 0,
        old(kernel).task_manager.statuses()[old(kernel).task_manager.cur_task as int]
            == crate::task::task::TaskStatus::Running,
    ensures
        final(kernel).wf(),
        final(kernel).num_tasks() == old(kernel).num_tasks(),
        r.rearm_timer == false,
        r.action is Fatal <==> envcall_fatal(*old(kernel)),
        r.action is Fatal ==> ({
            &&& final(kernel).task_manager.statuses() == old(kernel).task_manager.statuses()
            &&& final(kernel).task_manager.cur_task == old(kernel).task_manager.cur_task
            &&& final(kernel).mem == old(kernel).mem
        }),
        !(r.action is Fatal) ==> ({
            let k0 = *old(kernel);
            let cur = k0.task_manager.cur_task as int;
            let id = reg(k0, 17);
            &&& final(kernel).task_manager.tasks@[cur].trap_ctx.sepc == cur_sepc(k0) + 4
            &&& (id == SYSCALL_WRITE ==> {
                &&& r.action is UserReturn
                &&& final(kernel).task_manager.statuses() == k0.task_manager.statuses()
                &&& final(kernel).task_manager.cur_task == k0.task_manager.cur_task
                &&& final(kernel).mem == k0.mem
                &&& final(kernel).task_manager.tasks@[cur].trap_ctx.x@
                    == k0.task_manager.tasks@[cur].trap_ctx.x@.update(10, reg(k0, 12))
                &&& r.console@.len() == reg(k0, 12)
                &&& forall|j: int|
                    0 <= j < reg(k0, 12) ==> #[trigger] r.console@[j]
                        == crate::mm::page_table::translated_byte(
                        k0.mem,
                        cur_root(k0),
                        (reg(k0, 11) + j) as u64,
                    )->Some_0
            })
            &&& (id == SYSCALL_EXIT ==> marked_and_dispatched(
                k0,
                *final(kernel),
                crate::task::task::TaskStatus::Exited,
                r.action,
            ))
            &&& (id == SYSCALL_YIELD ==> {
                &&& r.action is Switch
                &&& marked_and_dispatched(
                    k0,
                    *final(kernel),
                    crate::task::task::TaskStatus::Ready,
                    r.action,
                )
                &&& final(kernel).task_manager.tasks@[cur].trap_ctx.x@
                    == k0.task_manager.tasks@[cur].trap_ctx.x@.update(10, 0u64)
            })
            &&& (id == SYSCALL_GET_TIME ==> {
                &&& r.action is UserReturn
                &&& final(kernel).task_manager.statuses() == k0.task_manager.statuses()
                &&& final(kernel).task_manager.cur_task == k0.task_manager.cur_task
                &&& final(kernel).task_manager.tasks@[cur].trap_ctx.x@
                    == k0.task_manager.tasks@[cur].trap_ctx.x@.update(10, 0u64)
                &&& forall|j: int|
                    0 <= j < 8 ==> #[trigger] crate::mm::page_table::translated_byte(
                        final(kernel).mem,
                        cur_root(k0),
                        (reg(k0, 10) + j) as u64,
                    ) == Some(
                        crate::syscall::timer::byte_of(
                            time_us as int / crate::config::MICRO_PER_SEC as int,
                            j,
                        ),
                    )
                &&& forall|j: int|
                    0 <= j < 8 ==> #[trigger] crate::mm::page_table::translated_byte(
                        final(kernel).mem,
                        cur_root(k0),
                        (reg(k0, 10) + 8 + j) as u64,
                    ) == Some(
                        crate::syscall::timer::byte_of(
                            time_us as int % crate::config::MICRO_PER_SEC as int,
                            j,
                        ),
                    )
            })
            &&& (id == SYSCALL_MMAP ==> {
                &&& r.action is UserReturn
                &&& final(kernel).task_manager.statuses() == k0.task_manager.statuses()
                &&& final(kernel).task_manager.cur_task == k0.task_manager.cur_task
                &&& final(kernel).task_manager.tasks@[cur].trap_ctx.x@
                    == k0.task_manager.tasks@[cur].trap_ctx.x@.update(
                    10,
                    if crate::syscall::process::mmap_accepted(
                        k0,
                        reg(k0, 10),
                        reg(k0, 11),
                        reg(k0, 12),
                    ) {
                        0u64
                    } else {
                        0xFFFF_FFFF_FFFF_FFFFu64
                    },
                )
            })
            &&& (id == SYSCALL_MUNMAP ==> {
                &&& r.action is UserReturn
                &&& final(kernel).task_manager.statuses() == k0.task_manager.statuses()
                &&& final(kernel).task_manager.cur_task == k0.task_manager.cur_task
                &&& final(kernel).task_manager.tasks@[cur].trap_ctx.x@
                    == k0.task_manager.tasks@[cur].trap_ctx.x@.update(
                    10,
                    if crate::syscall::process::munmap_accepted(k0, reg(k0, 10), reg(k0, 11)) {
                        0u64
                    } else {
                        0xFFFF_FFFF_FFFF_FFFFu64
                    },
                )
            })
        }),
{
    let cur: usize = kernel.task_manager.cur_task;
    let fatal = TrapResult { action: TrapAction::Fatal, console: Vec::new(), rearm_timer: false };
    let sepc: u64 = kernel.task_manager.tasks[cur].trap_ctx.sepc;
    if sepc > 0xFFFF_FFFF_FFFF_FFFB {
        return fatal;
    }
    let ghost k0 = *kernel;
    kernel.task_manager.tasks[cur].trap_ctx.sepc = sepc + 4;
    proof {
        lemma_wf_after_ctx(k0, *kernel, cur as int);
        assert(kernel.task_manager.statuses() =~= k0.task_manager.statuses());
        assert(kernel.task_manager.tasks@[cur as int].trap_ctx.x@ == k0.task_manager.tasks@[cur
            as int].trap_ctx.x@);
        assert(cur_root(*kernel) == cur_root(k0));
        assert(write_rejected(*kernel) == write_rejected(k0));
        assert(gettime_rejected(*kernel) == gettime_rejected(k0));
    }
    let id: u64 = kernel.task_manager.tasks[cur].trap_ctx.x[17];
    if id == SYSCALL_WRITE {
        dispatch_write(kernel)
    } else if id == SYSCALL_EXIT {
        match crate::syscall::process::sys_exit(kernel, 0) {
            Some(pair) => TrapResult {
                action: TrapAction::Switch { prev: pair.0, next: pair.1 },
                console: Vec::new(),
                rearm_timer: false,
            },
            None => TrapResult {
                action: TrapAction::Shutdown,
                console: Vec::new(),
                rearm_timer: false,
            },
        }
    } else if id == SYSCALL_YIELD {
        dispatch_yield(kernel)
    } else if id == SYSCALL_GET_TIME {
        dispatch_get_time(kernel, time_us)
    } else if id == SYSCALL_MUNMAP {
        dispatch_munmap(kernel)
    } else if id == SYSCALL_MMAP {
        dispatch_mmap(kernel)
    } else {
        fatal
    }
}

/// Handle one trap taken from user mode. A syscall advances the saved
/// program counter past the call instruction, dispatches on the id
/// register with up to three argument registers, and writes the result
/// into the return register; a fault or illegal instruction terminates
/// only the faulting task and dispatches the next Ready one, shutting
/// down when none remains; a timer interrupt asks for the timer to be
/// re-armed and yields; anything else — and the argument conditions the
/// original kernel panics on — is fatal. `time_us` is the machine's
/// microsecond counter at the trap.
#[verifier::rlimit(100)]
#[verifier::spinoff_prover]
pub fn trap_handler(
    kernel: &mut crate::kernel::Kernel,
    cause: TrapCause,
    stval: u64,
    time_us: u64,
) -> (r: TrapResult)
    requires
        old(kernel).wf(),
        old(kernel).num_tasks() > 0,
        old(kernel).task_manager.statuses()[old(kernel).task_manager.cur_task as int]
            == crate::task::task::TaskStatus::Running,
    ensures
        final(kernel).wf(),
        final(kernel).num_tasks() == old(kernel).num_tasks(),
        !(cause is SupervisorTimer) ==> r.rearm_timer == false,
        cause is Other ==> r.action is Fatal && *final(kernel) == *old(kernel),
        (cause is StoreFault || cause is StorePageFault || cause is LoadFault || cause
            is LoadPageFault || cause is IllegalInstruction) ==> ({
            &&& marked_and_dispatched(
                *old(kernel),
                *final(kernel),
                crate::task::task::TaskStatus::Exited,
                r.action,
            )
            &&& final(kernel).task_manager.statuses()[old(kernel).task_manager.cur_task as int]
                == crate::task::task::TaskStatus::Exited
            &&& forall|i: int|
                0 <= i < old(kernel).num_tasks() ==> crate::kernel::tasks_agree_but_status(
                    final(kernel).task_manager.tasks@[i],
                    old(kernel).task_manager.tasks@[i],
                )
        }),
        cause is SupervisorTimer ==> ({
            &&& r.rearm_timer
            &&& r.action is Switch
            &&& marked_and_dispatched(
                *old(kernel),
                *final(kernel),
                crate::task::task::TaskStatus::Ready,
                r.action,
            )
        }),
        cause is UserEnvCall ==> (r.action is Fatal <==> envcall_fatal(*old(kernel))),
        cause is UserEnvCall && r.action is Fatal ==> ({
            &&& final(kernel).task_manager.statuses() == old(kernel).task_manager.statuses()
            &&& final(kernel).task_manager.cur_task == old(kernel).task_manager.cur_task
            &&& final(kernel).mem == old(kernel).mem
        }),
        cause is UserEnvCall && !(r.action is Fatal) ==> ({
            let k0 = *old(kernel);
            let cur = k0.task_manager.cur_task as int;
            let id = reg(k0, 17);
            &&& final(kernel).task_manager.tasks@[cur].trap_ctx.sepc == cur_sepc(k0) + 4
            &&& (id == SYSCALL_WRITE ==> {
                &&& r.action is UserReturn
                &&& final(kernel).task_manager.statuses() == k0.task_manager.statuses()
                &&& final(kernel).task_manager.cur_task == k0.task_manager.cur_task
                &&& final(kernel).mem == k0.mem
                &&& final(kernel).task_manager.tasks@[cur].trap_ctx.x@
                    == k0.task_manager.tasks@[cur].trap_ctx.x@.update(10, reg(k0, 12))
                &&& r.console@.len() == reg(k0, 12)
                &&& forall|j: int|
                    0 <= j < reg(k0, 12) ==> #[trigger] r.console@[j]
                        == crate::mm::page_table::translated_byte(
                        k0.mem,
                        cur_root(k0),
                        (reg(k0, 11) + j) as u64,
                    )->Some_0
            })
            &&& (id == SYSCALL_EXIT ==> marked_and_dispatched(
                k0,
                *final(kernel),
                crate::task::task::TaskStatus::Exited,
                r.action,
            ))
            &&& (id == SYSCALL_YIELD ==> {
                &&& r.action is Switch
                &&& marked_and_dispatched(
                    k0,
                    *final(kernel),
                    crate::task::task::TaskStatus::Ready,
                    r.action,
                )
                &&& final(kernel).task_manager.tasks@[cur].trap_ctx.x@
                    == k0.task_manager.tasks@[cur].trap_ctx.x@.update(10, 0u64)
            })
            &&& (id == SYSCALL_GET_TIME ==> {
                &&& r.action is UserReturn
                &&& final(kernel).task_manager.statuses() == k0.task_manager.statuses()
                &&& final(kernel).task_manager.cur_task == k0.task_manager.cur_task
                &&& final(kernel).task_manager.tasks@[cur].trap_ctx.x@
                    == k0.task_manager.tasks@[cur].trap_ctx.x@.update(10, 0u64)
                &&& forall|j: int|
                    0 <= j < 8 ==> #[trigger] crate::mm::page_table::translated_byte(
                        final(kernel).mem,
                        cur_root(k0),
                        (reg(k0, 10) + j) as u64,
                    ) == Some(
                        crate::syscall::timer::byte_of(
                            time_us as int / crate::config::MICRO_PER_SEC as int,
                            j,
                        ),
                    )
                &&& forall|j: int|
                    0 <= j < 8 ==> #[trigger] crate::mm::page_table::translated_byte(
                        final(kernel).mem,
                        cur_root(k0),
                        (reg(k0, 10) + 8 + j) as u64,
                    ) == Some(
                        crate::syscall::timer::byte_of(
                            time_us as int % crate::config::MICRO_PER_SEC as int,
                            j,
                        ),
                    )
            })
            &&& (id == SYSCALL_MMAP ==> {
                &&& r.action is UserReturn
                &&& final(kernel).task_manager.statuses() == k0.task_manager.statuses()
                &&& final(kernel).task_manager.cur_task == k0.task_manager.cur_task
                &&& final(kernel).task_manager.tasks@[cur].trap_ctx.x@
                    == k0.task_manager.tasks@[cur].trap_ctx.x@.update(
                    10,
                    if crate::syscall::process::mmap_accepted(
                        k0,
                        reg(k0, 10),
                        reg(k0, 11),
                        reg(k0, 12),
                    ) {
                        0u64
                    } else {
                        0xFFFF_FFFF_FFFF_FFFFu64
                    },
                )
            })
            &&& (id == SYSCALL_MUNMAP ==> {
                &&& r.action is UserReturn
                &&& final(kernel).task_manager.statuses() == k0.task_manager.statuses()
                &&& final(kernel).task_manager.cur_task == k0.task_manager.cur_task
                &&& final(kernel).task_manager.tasks@[cur].trap_ctx.x@
                    == k0.task_manager.tasks@[cur].trap_ctx.x@.update(
                    10,
                    if crate::syscall::process::munmap_accepted(k0, reg(k0, 10), reg(k0, 11)) {
                        0u64
                    } else {
                        0xFFFF_FFFF_FFFF_FFFFu64
                    },
                )
            })
        }),
{
    let cur: usize = kernel.task_manager.cur_task;
    let fatal = TrapResult { action: TrapAction::Fatal, console: Vec::new(), rearm_timer: false };
    match cause {
        TrapCause::UserEnvCall => {
            handle_syscall(kernel, time_us)
        },
        TrapCause::StoreFault | TrapCause::StorePageFault | TrapCause::LoadFault
            | TrapCause::LoadPageFault | TrapCause::IllegalInstruction => {
            match kernel.exit_current_and_run_next() {
                Some(pair) => TrapResult {
                    action: TrapAction::Switch { prev: pair.0, next: pair.1 },
                    console: Vec::new(),
                    rearm_timer: false,
                },
                None => TrapResult {
                    action: TrapAction::Shutdown,
                    console: Vec::new(),
                    rearm_timer: false,
                },
            }
        },
        TrapCause::SupervisorTimer => {
            let out = crate::syscall::process::sys_yield(kernel);
            match out.1 {
                Some(pair) => {
                    proof {
                        let s1 = old(kernel).task_manager.statuses().update(
                            old(kernel).task_manager.cur_task as int,
                            crate::task::task::TaskStatus::Ready,
                        );
                        assert(s1[old(kernel).task_manager.cur_task as int]
                            == crate::task::task::TaskStatus::Ready);
                    }
                    TrapResult {
                        action: TrapAction::Switch { prev: pair.0, next: pair.1 },
                        console: Vec::new(),
                        rearm_timer: true,
                    }
                },
                None => {
                    proof {
                        assert(false);
                    }
                    fatal
                },
            }
        },
        TrapCause::Other => fatal,
    }
}

/// A trap-context-only update of one task preserves the kernel
/// invariant.
proof fn lemma_wf_after_ctx(k0: crate::kernel::Kernel, k1: crate::kernel::Kernel, cur: int)
    requires
        k0.wf(),
        0 <= cur < k0.num_tasks(),
        k1.mem == k0.mem,
        k1.frame_allocator == k0.frame_allocator,
        k1.kernel_space == k0.kernel_space,
        k1.task_manager.cur_task == k0.task_manager.cur_task,
        k1.num_tasks() == k0.num_tasks(),
        forall|i: int|
            0 <= i < k0.num_tasks() && i != cur ==> #[trigger] k1.task_manager.tasks@[i]
                == k0.task_manager.tasks@[i],
        k1.task_manager.tasks@[cur].memory_set == k0.task_manager.tasks@[cur].memory_set,
        k1.task_manager.tasks@[cur].ctx == k0.task_manager.tasks@[cur].ctx,
        k1.task_manager.tasks@[cur].trap_ctx.wf(),
        k1.task_manager.tasks@[cur].status == k0.task_manager.tasks@[cur].status,
    ensures
        k1.wf(),
{
    assert forall|i: int|
        0 <= i < k1.num_tasks() implies (#[trigger] k1.task_manager.tasks@[i]).wf(k1.mem) by {
        assert(k0.task_manager.tasks@[i].wf(k0.mem));
    }
    assert forall|i: int, j: int, q: int|
        0 <= i < k1.num_tasks() && 0 <= j < k1.num_tasks() && i != j implies !(
    #[trigger] k1.task_manager.tasks@[i].memory_set.owns_frame(q)
        && #[trigger] k1.task_manager.tasks@[j].memory_set.owns_frame(q)) by {
        assert(k1.task_manager.tasks@[i].memory_set == k0.task_manager.tasks@[i].memory_set);
        assert(k1.task_manager.tasks@[j].memory_set == k0.task_manager.tasks@[j].memory_set);
        assert(!(k0.task_manager.tasks@[i].memory_set.owns_frame(q)
            && k0.task_manager.tasks@[j].memory_set.owns_frame(q)));
    }
    assert forall|i: int, q: int|
        0 <= i < k1.num_tasks() implies !(k1.kernel_space.owns_frame(q)
        && #[trigger] k1.task_manager.tasks@[i].memory_set.owns_frame(q)) by {
        assert(k1.task_manager.tasks@[i].memory_set == k0.task_manager.tasks@[i].memory_set);
        assert(!(k0.kernel_space.owns_frame(q)
            && k0.task_manager.tasks@[i].memory_set.owns_frame(q)));
    }
}

/// The values the trap-return path needs: the trampoline address of the
/// register-restore routine, the resuming task's page-table token, and
/// the fixed virtual address of its trap context.
pub fn trap_return(kernel: &crate::kernel::Kernel) -> (r: (u64, u64, u64))
    requires
        kernel.wf(),
        kernel.num_tasks() > 0,
    ensures
        r.0 == kernel.params.restore_va,
        r.1 as int % crate::mm::address::PPN_BOUND as int
            == kernel.task_manager.tasks@[kernel.task_manager.cur_task
            as int].memory_set.root(),
        r.2 == crate::config::TRAP_CONTEXT_ADDR,
{
    let restore_va: u64 = kernel.params.restore_va;
    let user_satp: u64 = kernel.current_user_token();
    (restore_va, user_satp, crate::config::TRAP_CONTEXT_ADDR)
}

} // verus!
