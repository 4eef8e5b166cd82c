//! Process-facing syscalls: yield, exit, and the mmap/munmap pair that
//! grows and shrinks the calling task's address space.

use vstd::prelude::*;
use crate::config::PAGE_SIZE;
use crate::kernel::Kernel;
use crate::mm::address::{VirtAddr, VA_BOUND};
use crate::mm::memory_area::{Mapping, MemoryArea};
use crate::mm::memory_set::{lemma_owns_frame_not_free, lemma_ms_wf_preserved_frames};
use crate::task::task::TaskStatus;
use crate::utils::range::VirtPageNumRange;

verus! {

/// Exit the calling task: mark it Exited and dispatch the next Ready
/// task. The context transfer comes back, or nothing once every task has
/// exited, which shuts the machine down.
pub fn sys_exit(kernel: &mut Kernel, exit_code: i32) -> (r: Option<(usize, usize)>)
    requires
        old(kernel).wf(),
        old(kernel).num_tasks() > 0,
        old(kernel).task_manager.statuses()[old(kernel).task_manager.cur_task as int]
            == TaskStatus::Running,
    ensures
        final(kernel).wf(),
        final(kernel).num_tasks() == old(kernel).num_tasks(),
        final(kernel).mem == old(kernel).mem,
        final(kernel).kernel_space == old(kernel).kernel_space,
        final(kernel).task_manager.statuses()[old(kernel).task_manager.cur_task as int]
            == TaskStatus::Exited,
        forall|i: int|
            0 <= i < old(kernel).num_tasks() ==> crate::kernel::tasks_agree_but_status(
                final(kernel).task_manager.tasks@[i],
                old(kernel).task_manager.tasks@[i],
            ),
        r is None <==> (forall|i: int|
            0 <= i < old(kernel).num_tasks() ==> old(kernel).task_manager.statuses().update(
                old(kernel).task_manager.cur_task as int,
                TaskStatus::Exited,
            )[i] != TaskStatus::Ready),
        r matches Some(pair) ==> ({
            let cur = old(kernel).task_manager.cur_task as int;
            let s1 = old(kernel).task_manager.statuses().update(cur, TaskStatus::Exited);
            &&& pair.0 == old(kernel).task_manager.cur_task
            &&& Some(pair.1 as int) == crate::task::manager::TaskManager::find_next_spec(
                s1,
                cur,
                1,
            )
            &&& pair.1 != old(kernel).task_manager.cur_task
            &&& final(kernel).task_manager.statuses() == s1.update(
                pair.1 as int,
                TaskStatus::Running,
            )
            &&& final(kernel).task_manager.cur_task == pair.1
        }),
        r is None ==> final(kernel).task_manager.statuses() == old(
            kernel,
        ).task_manager.statuses().update(
            old(kernel).task_manager.cur_task as int,
            TaskStatus::Exited,
        ),
{
    kernel.exit_current_and_run_next()
}

/// Yield the CPU: mark the calling task Ready and dispatch the next
/// Ready task. Returns 0 and the context transfer to perform.
pub fn sys_yield(kernel: &mut Kernel) -> (r: (isize, Option<(usize, usize)>))
    requires
        old(kernel).wf(),
        old(kernel).num_tasks() > 0,
        old(kernel).task_manager.statuses()[old(kernel).task_manager.cur_task as int]
            == TaskStatus::Running,
    ensures
        final(kernel).wf(),
        final(kernel).num_tasks() == old(kernel).num_tasks(),
        final(kernel).mem == old(kernel).mem,
        final(kernel).kernel_space == old(kernel).kernel_space,
        r.0 == 0,
        r.1 is Some,
        forall|i: int|
            0 <= i < old(kernel).num_tasks() ==> crate::kernel::tasks_agree_but_status(
                final(kernel).task_manager.tasks@[i],
                old(kernel).task_manager.tasks@[i],
            ),
        r.1 matches Some(pair) ==> ({
            let cur = old(kernel).task_manager.cur_task as int;
            let s1 = old(kernel).task_manager.statuses().update(cur, TaskStatus::Ready);
            &&& pair.0 == old(kernel).task_manager.cur_task
            &&& Some(pair.1 as int) == crate::task::manager::TaskManager::find_next_spec(
                s1,
                cur,
                1,
            )
            &&& final(kernel).task_manager.statuses() == s1.update(
                pair.1 as int,
                TaskStatus::Running,
            )
            &&& final(kernel).task_manager.cur_task == pair.1
        }),
{
    let switch = kernel.suspend_current_and_run_next();
    (0, switch)
}

/// Whether an mmap request is accepted: page-aligned start, permission
/// bits within R/W/X and not empty, the whole range inside the user
/// window, and a range the calling task's space can take.
pub open spec fn mmap_accepted(k: Kernel, start: u64, len: u64, prot: u64) -> bool {
    &&& prot as int % 8 != 0
    &&& prot as int / 8 == 0
    &&& start as int % PAGE_SIZE as int == 0
    &&& start + len < VA_BOUND
    &&& !k.task_manager.tasks@[k.task_manager.cur_task as int].memory_set.rejects_push_range(
        k.frame_allocator,
        crate::utils::range::SimpleRange {
            start: crate::mm::address::VirtPageNum((start as int / PAGE_SIZE as int) as u64),
            end: crate::mm::address::VirtPageNum(
                (((start + len + PAGE_SIZE - 1) as int) / (PAGE_SIZE as int)) as u64,
            ),
        },
        true,
        None,
    )
}

/// Whether a munmap request is accepted: page-aligned start, the range
/// inside the user window, and an exact droppable area match in the
/// calling task's space.
pub open spec fn munmap_accepted(k: Kernel, start: u64, len: u64) -> bool {
    &&& start as int % PAGE_SIZE as int == 0
    &&& start + len < VA_BOUND
    &&& k.task_manager.tasks@[k.task_manager.cur_task as int].memory_set.has_droppable_match(
        crate::utils::range::SimpleRange {
            start: crate::mm::address::VirtPageNum((start as int / PAGE_SIZE as int) as u64),
            end: crate::mm::address::VirtPageNum(
                (((start + len + PAGE_SIZE - 1) as int) / (PAGE_SIZE as int)) as u64,
            ),
        },
    )
}

/// Insert a droppable, frame-backed, user-accessible area
/// `[start, start + len)` into the calling task's space. Returns 0 on
/// success and -1 on any rejected argument: unaligned start, permission
/// bits outside R/W/X or empty, a range outside the user window, or a
/// range the space rejects.
#[verifier::rlimit(100)]
#[verifier::spinoff_prover]
pub fn sys_mmap(kernel: &mut Kernel, start: u64, len: u64, prot: u64) -> (r: isize)
    requires
        old(kernel).wf(),
        old(kernel).num_tasks() > 0,
    ensures
        final(kernel).wf(),
        final(kernel).num_tasks() == old(kernel).num_tasks(),
        final(kernel).task_manager.cur_task == old(kernel).task_manager.cur_task,
        final(kernel).task_manager.statuses() == old(kernel).task_manager.statuses(),
        r == 0 || r == -1,
        r == 0 <==> mmap_accepted(*old(kernel), start, len, prot),
        r == -1 ==> final(kernel).task_manager.tasks@ == old(kernel).task_manager.tasks@
            && final(kernel).mem == old(kernel).mem && final(kernel).frame_allocator == old(
            kernel,
        ).frame_allocator,
        r == 0 ==> ({
            let cur = old(kernel).task_manager.cur_task as int;
            let ms0 = old(kernel).task_manager.tasks@[cur].memory_set;
            let ms1 = final(kernel).task_manager.tasks@[cur].memory_set;
            let n0 = ms0.areas@.len() as int;
            &&& ms1.areas@.len() == n0 + 1
            &&& forall|a: int| 0 <= a < n0 ==> #[trigger] ms1.areas@[a] == ms0.areas@[a]
            &&& ms1.areas@[n0].1
            &&& ms1.areas@[n0].0.is_framed()
            &&& ms1.areas@[n0].0.map_perm == 16 + 2 * (prot as int % 8)
            &&& ms1.areas@[n0].0.vpn_range.start_spec() == start as int / PAGE_SIZE as int
            &&& ms1.areas@[n0].0.vpn_range.end_spec() == (start + len + PAGE_SIZE - 1) as int
                / PAGE_SIZE as int
            &&& forall|i: int|
                0 <= i < old(kernel).num_tasks() && i != cur
                    ==> #[trigger] final(kernel).task_manager.tasks@[i] == old(
                    kernel,
                ).task_manager.tasks@[i]
            &&& final(kernel).task_manager.tasks@[cur].ctx == old(
                kernel,
            ).task_manager.tasks@[cur].ctx
            &&& final(kernel).task_manager.tasks@[cur].trap_ctx == old(
                kernel,
            ).task_manager.tasks@[cur].trap_ctx
            &&& final(kernel).task_manager.tasks@[cur].status == old(
                kernel,
            ).task_manager.tasks@[cur].status
        }),
{
    if prot & 0x7 == 0 || prot & !0x7 != 0 || start % PAGE_SIZE != 0 {
        proof {
            let p = prot;
            assert((p & 0x7 == 0 || p & !0x7 != 0) == (p % 8 == 0 || p / 8 != 0))
                by (bit_vector);
        }
        return -1;
    }
    proof {
        let p = prot;
        assert((!(p & 0x7 == 0) && !(p & !0x7 != 0)) == (!(p % 8 == 0) && !(p / 8 != 0)))
            by (bit_vector);
    }
    if start >= VA_BOUND || len >= VA_BOUND || start + len >= VA_BOUND {
        return -1;
    }
    proof {
        let p = prot;
        assert(p & 0x7 == p % 8) by (bit_vector);
    }
    let perm: u8 = 16 + 2 * ((prot & 0x7) as u8);
    let range = VirtPageNumRange::new_from_va(
        VirtAddr::from_usize(start),
        VirtAddr::from_usize(start + len),
    );
    let area = MemoryArea::new(range, Mapping::new_framed(), perm);
    let cur: usize = kernel.task_manager.cur_task;
    let ghost k0 = *kernel;
    let ghost m0 = kernel.mem;
    let ghost ms0 = kernel.task_manager.tasks@[cur as int].memory_set;
    let res = kernel.task_manager.tasks[cur].memory_set.push_area(
        &mut kernel.mem,
        &mut kernel.frame_allocator,
        area,
        true,
        None,
    );
    match res {
        Ok(_) => {
            proof {
                lemma_mmap_wf_restored(k0, *kernel, cur);
            }
            0
        },
        Err(_) => {
            proof {
                assert(kernel.task_manager.tasks@ =~= k0.task_manager.tasks@);
            }
            -1
        },
    }
}

/// After a push on the current task's space that touched only free
/// frames and that space's own frames, the whole kernel invariant holds
/// again.
proof fn lemma_mmap_wf_restored(k0: Kernel, k1: Kernel, cur: usize)
    requires
        k0.wf(),
        k0.num_tasks() > 0,
        cur == k0.task_manager.cur_task,
        k1.num_tasks() == k0.num_tasks(),
        k1.kernel_space == k0.kernel_space,
        k1.task_manager.cur_task == k0.task_manager.cur_task,
        k1.mem.wf(),
        k1.frame_allocator.wf(k1.mem),
        k1.frame_allocator.end == k0.frame_allocator.end,
        k1.mem.base_spec() == k0.mem.base_spec(),
        k1.mem.end_spec() == k0.mem.end_spec(),
        forall|i: int|
            0 <= i < k0.num_tasks() && i != cur ==> #[trigger] k1.task_manager.tasks@[i]
                == k0.task_manager.tasks@[i],
        k1.task_manager.tasks@[cur as int].memory_set.wf(k1.mem),
        k1.task_manager.tasks@[cur as int].ctx == k0.task_manager.tasks@[cur as int].ctx,
        k1.task_manager.tasks@[cur as int].trap_ctx == k0.task_manager.tasks@[cur
            as int].trap_ctx,
        forall|q: int|
            k0.mem.contains(q) && #[trigger] k1.mem.frame(q) != k0.mem.frame(q) ==> k0.mem.frame(
                q,
            ) is Free || k0.task_manager.tasks@[cur as int].memory_set.owns_frame(q),
        forall|q: int|
            #[trigger] k1.task_manager.tasks@[cur as int].memory_set.owns_frame(q)
                ==> k0.task_manager.tasks@[cur as int].memory_set.owns_frame(q) || k0.mem.frame(
                q,
            ) is Free,
    ensures
        k1.wf(),
{
    let ms0 = k0.task_manager.tasks@[cur as int].memory_set;
    let ms1 = k1.task_manager.tasks@[cur as int].memory_set;
    assert(k1.frame_allocator.end.0 as int == k1.mem.end_spec());
    assert forall|i: int|
        0 <= i < k1.num_tasks() implies (#[trigger] k1.task_manager.tasks@[i]).wf(k1.mem) by {
        if i != cur {
            let msi = k0.task_manager.tasks@[i].memory_set;
            lemma_owns_frame_not_free(msi, k0.mem);
            lemma_owns_frame_not_free(ms0, k0.mem);
            assert forall|q: int| #[trigger] msi.owns_frame(q) implies k1.mem.frame(q)
                == k0.mem.frame(q) by {
                assert(!(k0.mem.frame(q) is Free));
                if k1.mem.frame(q) != k0.mem.frame(q) {
                    assert(ms0.owns_frame(q));
                    assert(!(msi.owns_frame(q) && ms0.owns_frame(q)));
                }
            }
            lemma_ms_wf_preserved_frames(msi, k0.mem, k1.mem);
            assert(k0.task_manager.tasks@[i].wf(k0.mem));
        }
    }
    assert(k1.kernel_space.wf(k1.mem)) by {
        lemma_owns_frame_not_free(k1.kernel_space, k0.mem);
        lemma_owns_frame_not_free(ms0, k0.mem);
        assert forall|q: int| #[trigger] k1.kernel_space.owns_frame(q) implies k1.mem.frame(q)
            == k0.mem.frame(q) by {
            assert(!(k0.mem.frame(q) is Free));
            if k1.mem.frame(q) != k0.mem.frame(q) {
                assert(ms0.owns_frame(q));
                assert(!(k0.kernel_space.owns_frame(q) && ms0.owns_frame(q)));
            }
        }
        lemma_ms_wf_preserved_frames(k1.kernel_space, k0.mem, k1.mem);
    }
    assert forall|i: int, j: int, q: int|
        0 <= i < k1.num_tasks() && 0 <= j < k1.num_tasks() && i != j implies !(
    #[trigger] k1.task_manager.tasks@[i].memory_set.owns_frame(q)
        && #[trigger] k1.task_manager.tasks@[j].memory_set.owns_frame(q)) by {
        if k1.task_manager.tasks@[i].memory_set.owns_frame(q)
            && k1.task_manager.tasks@[j].memory_set.owns_frame(q) {
            let o = if i != cur {
                i
            } else {
                j
            };
            let c = if i != cur {
                j
            } else {
                i
            };
            assert(k1.task_manager.tasks@[o] == k0.task_manager.tasks@[o]);
            let mso = k0.task_manager.tasks@[o].memory_set;
            lemma_owns_frame_not_free(mso, k0.mem);
            if c == cur {
                assert(ms1.owns_frame(q));
                if ms0.owns_frame(q) {
                    assert(!(mso.owns_frame(q) && ms0.owns_frame(q)));
                } else {
                    assert(k0.mem.frame(q) is Free);
                    assert(!(k0.mem.frame(q) is Free));
                }
            } else {
                let msc = k0.task_manager.tasks@[c].memory_set;
                assert(!(mso.owns_frame(q) && msc.owns_frame(q)));
            }
        }
    }
    assert forall|i: int, q: int|
        0 <= i < k1.num_tasks() implies !(k1.kernel_space.owns_frame(q)
        && #[trigger] k1.task_manager.tasks@[i].memory_set.owns_frame(q)) by {
        if k1.kernel_space.owns_frame(q) && k1.task_manager.tasks@[i].memory_set.owns_frame(q) {
            lemma_owns_frame_not_free(k0.kernel_space, k0.mem);
            if i == cur {
                if ms0.owns_frame(q) {
                    assert(!(k0.kernel_space.owns_frame(q) && ms0.owns_frame(q)));
                } else {
                    assert(k0.mem.frame(q) is Free);
                    assert(!(k0.mem.frame(q) is Free));
                }
            } else {
                assert(k1.task_manager.tasks@[i] == k0.task_manager.tasks@[i]);
                assert(!(k0.kernel_space.owns_frame(q)
                    && k0.task_manager.tasks@[i].memory_set.owns_frame(q)));
            }
        }
    }
}

/// Remove the droppable area `[start, start + len)` from the calling
/// task's space, unmapping and recycling its frames. Returns 0 on
/// success and -1 if start is unaligned, the range leaves the user
/// window, or no droppable area matches the range exactly.
#[verifier::rlimit(100)]
#[verifier::spinoff_prover]
pub fn sys_munmap(kernel: &mut Kernel, start: u64, len: u64) -> (r: isize)
    requires
        old(kernel).wf(),
        old(kernel).num_tasks() > 0,
    ensures
        final(kernel).wf(),
        final(kernel).num_tasks() == old(kernel).num_tasks(),
        final(kernel).task_manager.cur_task == old(kernel).task_manager.cur_task,
        final(kernel).task_manager.statuses() == old(kernel).task_manager.statuses(),
        r == 0 || r == -1,
        r == 0 <==> munmap_accepted(*old(kernel), start, len),
        r == -1 ==> final(kernel).task_manager.tasks@ == old(kernel).task_manager.tasks@
            && final(kernel).mem == old(kernel).mem && final(kernel).frame_allocator == old(
            kernel,
        ).frame_allocator,
        r == 0 ==> ({
            let cur = old(kernel).task_manager.cur_task as int;
            let ms0 = old(kernel).task_manager.tasks@[cur].memory_set;
            let ms1 = final(kernel).task_manager.tasks@[cur].memory_set;
            let vs = start as int / PAGE_SIZE as int;
            let ve = (start + len + PAGE_SIZE - 1) as int / PAGE_SIZE as int;
            &&& exists|a: int|
                0 <= a < ms0.areas@.len() && (#[trigger] ms0.areas@[a]).1
                    && ms0.areas@[a].0.vpn_range.start_spec() == vs
                    && ms0.areas@[a].0.vpn_range.end_spec() == ve && ms1.areas@
                    == ms0.areas@.remove(a)
            &&& forall|w: u64|
                w < crate::mm::address::VPN_BOUND && vs <= w < ve ==> #[trigger] crate::mm::page_table::lookup(
                    final(kernel).mem,
                    ms1.root(),
                    w,
                ) is None
            &&& forall|w: u64|
                w < crate::mm::address::VPN_BOUND && !(vs <= w < ve)
                    ==> #[trigger] crate::mm::page_table::lookup(final(kernel).mem, ms1.root(), w)
                    == crate::mm::page_table::lookup(old(kernel).mem, ms0.root(), w)
            &&& forall|i: int|
                0 <= i < old(kernel).num_tasks() && i != cur
                    ==> #[trigger] final(kernel).task_manager.tasks@[i] == old(
                    kernel,
                ).task_manager.tasks@[i]
            &&& final(kernel).task_manager.tasks@[cur].ctx == old(
                kernel,
            ).task_manager.tasks@[cur].ctx
            &&& final(kernel).task_manager.tasks@[cur].trap_ctx == old(
                kernel,
            ).task_manager.tasks@[cur].trap_ctx
            &&& final(kernel).task_manager.tasks@[cur].status == old(
                kernel,
            ).task_manager.tasks@[cur].status
        }),
{
    if start % PAGE_SIZE != 0 {
        return -1;
    }
    if start >= VA_BOUND || len >= VA_BOUND || start + len >= VA_BOUND {
        return -1;
    }
    let range = VirtPageNumRange::new_from_va(
        VirtAddr::from_usize(start),
        VirtAddr::from_usize(start + len),
    );
    let cur: usize = kernel.task_manager.cur_task;
    let ghost k0 = *kernel;
    let res = kernel.task_manager.tasks[cur].memory_set.drop_area(
        &mut kernel.mem,
        &mut kernel.frame_allocator,
        range,
    );
    match res {
        Ok(_) => {
            proof {
                lemma_munmap_wf_restored(k0, *kernel, cur);
            }
            0
        },
        Err(_) => {
            proof {
                assert(kernel.task_manager.tasks@ =~= k0.task_manager.tasks@);
            }
            -1
        },
    }
}

/// After dropping an area of the current task's space, which touched
/// only that space's own frames, the whole kernel invariant holds again.
proof fn lemma_munmap_wf_restored(k0: Kernel, k1: Kernel, cur: usize)
    requires
        k0.wf(),
        k0.num_tasks() > 0,
        cur == k0.task_manager.cur_task,
        k1.num_tasks() == k0.num_tasks(),
        k1.kernel_space == k0.kernel_space,
        k1.task_manager.cur_task == k0.task_manager.cur_task,
        k1.mem.wf(),
        k1.frame_allocator.wf(k1.mem),
        k1.frame_allocator.end == k0.frame_allocator.end,
        k1.mem.base_spec() == k0.mem.base_spec(),
        k1.mem.end_spec() == k0.mem.end_spec(),
        forall|i: int|
            0 <= i < k0.num_tasks() && i != cur ==> #[trigger] k1.task_manager.tasks@[i]
                == k0.task_manager.tasks@[i],
        k1.task_manager.tasks@[cur as int].memory_set.wf(k1.mem),
        k1.task_manager.tasks@[cur as int].ctx == k0.task_manager.tasks@[cur as int].ctx,
        k1.task_manager.tasks@[cur as int].trap_ctx == k0.task_manager.tasks@[cur
            as int].trap_ctx,
        forall|q: int|
            k0.mem.contains(q) && #[trigger] k1.mem.frame(q) != k0.mem.frame(q)
                ==> k0.task_manager.tasks@[cur as int].memory_set.owns_frame(q),
        forall|q: int|
            #[trigger] k1.task_manager.tasks@[cur as int].memory_set.owns_frame(q)
                ==> k0.task_manager.tasks@[cur as int].memory_set.owns_frame(q),
    ensures
        k1.wf(),
{
    let ms0 = k0.task_manager.tasks@[cur as int].memory_set;
    assert forall|q: int|
        k0.mem.contains(q) && #[trigger] k1.mem.frame(q) != k0.mem.frame(q) implies k0.mem.frame(
        q,
    ) is Free || ms0.owns_frame(q) by {}
    lemma_mmap_wf_restored(k0, k1, cur);
}

} // verus!
