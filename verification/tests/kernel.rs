use kernel_core::config::{MEMORY_END, PAGE_SIZE};
use kernel_core::kernel::{init, BootParams, Kernel};
use kernel_core::mm::address::{PhysPageNum, VirtPageNum};
use kernel_core::mm::frame_allocator::StackFrameAllocator;
use kernel_core::mm::memory_set::{remap_kernel_test, KernelLayout, MemorySet};
use kernel_core::mm::page_table::{translated_byte_buffer, PageTable};
use kernel_core::mm::phys_mem::PhysMemory;
use kernel_core::syscall::fs::sys_write;
use kernel_core::syscall::process::{sys_mmap, sys_munmap, sys_yield};
use kernel_core::syscall::timer::{sys_get_time, TimeVal};
use kernel_core::task::context::TaskContext;
use kernel_core::task::manager::TaskManager;
use kernel_core::task::task::{TaskControlBlock, TaskStatus};
use kernel_core::trap::context::TrapContext;
use kernel_core::trap::handler::{trap_handler, trap_return, TrapAction, TrapCause};

fn put_u16(b: &mut Vec<u8>, off: usize, v: u16) {
    b[off] = v as u8;
    b[off + 1] = (v >> 8) as u8;
}

fn put_u32(b: &mut Vec<u8>, off: usize, v: u32) {
    for i in 0..4 {
        b[off + i] = (v >> (8 * i)) as u8;
    }
}

fn put_u64(b: &mut Vec<u8>, off: usize, v: u64) {
    for i in 0..8 {
        b[off + i] = (v >> (8 * i)) as u8;
    }
}

/// A minimal two-segment ELF64 image: one R+X text segment of 8 bytes at
/// 0x10000 and one R+W data segment of 4 file bytes (4096 memory bytes)
/// at 0x11000; entry point 0x10000.
fn two_segment_elf() -> Vec<u8> {
    let mut b = vec![0u8; 64 + 2 * 56];
    b[0] = 0x7f;
    b[1] = 0x45;
    b[2] = 0x4c;
    b[3] = 0x46;
    put_u64(&mut b, 24, 0x10000); // entry
    put_u64(&mut b, 32, 64); // program header table offset
    put_u16(&mut b, 54, 56); // header entry size
    put_u16(&mut b, 56, 2); // header count
    // text: PT_LOAD, R+X (PF_R | PF_X = 5)
    put_u32(&mut b, 64, 1);
    put_u32(&mut b, 68, 5);
    put_u64(&mut b, 72, 176); // file offset
    put_u64(&mut b, 80, 0x10000); // vaddr
    put_u64(&mut b, 96, 8); // file size
    put_u64(&mut b, 104, 8); // mem size
    // data: PT_LOAD, R+W (PF_R | PF_W = 6)
    put_u32(&mut b, 120, 1);
    put_u32(&mut b, 124, 6);
    put_u64(&mut b, 128, 184);
    put_u64(&mut b, 136, 0x11000);
    put_u64(&mut b, 152, 4);
    put_u64(&mut b, 160, 0x1000);
    for v in [1u8, 2, 3, 4, 5, 6, 7, 8, 9, 10, 11, 12] {
        b.push(v);
    }
    b
}

fn test_layout() -> KernelLayout {
    KernelLayout {
        stext: 0x8020_0000,
        etext: 0x8020_4000,
        srodata: 0x8020_4000,
        erodata: 0x8020_8000,
        sdata: 0x8020_8000,
        edata: 0x8020_c000,
        sbss_with_stack: 0x8020_c000,
        ebss: 0x8021_0000,
        ekernel: 0x8021_0000,
        strampoline: 0x8020_0000,
    }
}

fn params() -> BootParams {
    BootParams { trap_handler_va: 0x80201000, restore_va: 0x200, sstatus: 0x100 }
}

fn boot(napps: usize) -> Kernel {
    let apps: Vec<Vec<u8>> = (0..napps).map(|_| two_segment_elf()).collect();
    let mut k = init(&test_layout(), &apps, params()).unwrap();
    if napps > 0 {
        k.run_first_task();
    }
    k
}

#[test]
fn kernel_space_protects_its_sections() {
    let mut mem = PhysMemory::new(0x80210, 0x80800);
    let mut fa = StackFrameAllocator::new();
    fa.init(PhysPageNum(0x80210), PhysPageNum(0x80800));
    let layout = test_layout();
    let ms = MemorySet::new_kernel(&mut mem, &mut fa, &layout).unwrap();
    assert!(remap_kernel_test(&ms, &mem, &layout));
    // the identity mapping really is identical.
    assert_eq!(ms.translate(&mem, VirtPageNum(0x80201)).unwrap().0, 0x80201);
}

#[test]
fn elf_load_builds_two_framed_areas_and_copies_bytes() {
    let mut mem = PhysMemory::new(0x80210, 0x80800);
    let mut fa = StackFrameAllocator::new();
    fa.init(PhysPageNum(0x80210), PhysPageNum(0x80800));
    let elf = two_segment_elf();
    let (ms, user_sp, entry) =
        MemorySet::from_elf(&mut mem, &mut fa, &elf, PhysPageNum(0x80200)).unwrap();
    assert_eq!(entry, 0x10000);
    // two segments plus the user stack and the trap context.
    assert_eq!(ms.areas.len(), 4);
    let seg0 = ms.areas[0].0.get_vpn_range();
    let seg1 = ms.areas[1].0.get_vpn_range();
    assert_eq!((seg0.get_start().0, seg0.get_end().0), (0x10, 0x11));
    assert_eq!((seg1.get_start().0, seg1.get_end().0), (0x11, 0x12));
    assert_eq!(ms.areas[0].0.get_map_perm(), 16 + 2 + 8); // U+R+X
    assert_eq!(ms.areas[1].0.get_map_perm(), 16 + 2 + 4); // U+R+W
    // stack: one guard page above the highest segment, then two pages.
    assert_eq!(user_sp, 0x15000);
    let stack = ms.areas[2].0.get_vpn_range();
    assert_eq!((stack.get_start().0, stack.get_end().0), (0x13, 0x15));
    // segment bytes match the file bytes exactly at both boundaries.
    let token = ms.token(&mem);
    let text = translated_byte_buffer(&mem, token, 0x10000, 8).unwrap();
    assert_eq!(text, vec![1, 2, 3, 4, 5, 6, 7, 8]);
    let data = translated_byte_buffer(&mem, token, 0x11000, 6).unwrap();
    assert_eq!(data, vec![9, 10, 11, 12, 0, 0]); // zero-filled past the file bytes
    // the page past the data segment's single page is unmapped.
    assert!(translated_byte_buffer(&mem, token, 0x12000, 1).is_none());
}

#[test]
fn mmap_boundary_scenario() {
    let mut k = boot(1);
    assert_eq!(sys_mmap(&mut k, 0x1000_0000, 4096, 3), 0);
    // overlapping the page just mapped: rejected.
    assert_eq!(sys_mmap(&mut k, 0x1000_0000 - 4096, 4097, 3), -1);
    // no permission bits, or a bit outside R/W/X: rejected regardless.
    assert_eq!(sys_mmap(&mut k, 0x2000_0000, 4096, 0), -1);
    assert_eq!(sys_mmap(&mut k, 0x2000_0000, 4096, 0x8), -1);
    assert_eq!(sys_mmap(&mut k, 0x2000_0000, 4096, 0xb), -1);
    // unaligned start: rejected.
    assert_eq!(sys_mmap(&mut k, 0x1000_0001, 4096, 3), -1);
}

#[test]
fn munmap_requires_an_exact_droppable_match() {
    let mut k = boot(1);
    assert_eq!(sys_mmap(&mut k, 0x1000_0000, 2 * 4096, 3), 0);
    // not an exact range match.
    assert_eq!(sys_munmap(&mut k, 0x1000_0000, 4096), -1);
    // unaligned start.
    assert_eq!(sys_munmap(&mut k, 0x1000_0001, 4096), -1);
    // the exact range is released, and only once.
    assert_eq!(sys_munmap(&mut k, 0x1000_0000, 2 * 4096), 0);
    assert_eq!(sys_munmap(&mut k, 0x1000_0000, 2 * 4096), -1);
    // the loaded segments are not droppable.
    assert_eq!(sys_munmap(&mut k, 0x10000, 4096), -1);
    // mapping the same range again works after the release.
    assert_eq!(sys_mmap(&mut k, 0x1000_0000, 2 * 4096, 3), 0);
}

#[test]
fn fault_isolation_scenario() {
    let mut k = boot(2);
    // task 0 executes an illegal instruction: only task 0 dies.
    let r = trap_handler(&mut k, TrapCause::IllegalInstruction, 0, 0);
    assert_eq!(r.action, TrapAction::Switch { prev: 0, next: 1 });
    assert_eq!(k.task_manager.tasks[0].status, TaskStatus::Exited);
    assert_eq!(k.task_manager.tasks[1].status, TaskStatus::Running);
    // the sibling keeps running and can still take timer interrupts.
    let r2 = trap_handler(&mut k, TrapCause::SupervisorTimer, 0, 0);
    assert!(r2.rearm_timer);
    assert_eq!(r2.action, TrapAction::Switch { prev: 1, next: 1 });
    // when the sibling faults too, every task has exited: shut down, no panic.
    let r3 = trap_handler(&mut k, TrapCause::StorePageFault, 0xdead, 0);
    assert_eq!(r3.action, TrapAction::Shutdown);
    assert_eq!(k.task_manager.tasks[1].status, TaskStatus::Exited);
}

#[test]
fn round_robin_visits_every_ready_task_once() {
    let dummy = || TaskControlBlock {
        ctx: TaskContext::zero_init(),
        status: TaskStatus::Ready,
        memory_set: MemorySet {
            page_table: PageTable::from_token(0),
            areas: Vec::new(),
            trampoline: None,
        },
        trap_ctx: TrapContext::app_init_context(0, 0, 0, 0, 0, 0),
        trap_ctx_ppn: PhysPageNum(0),
        base_size: 0,
    };
    let mut tm = TaskManager { tasks: (0..4).map(|_| dummy()).collect(), cur_task: 0 };
    tm.run_first_task();
    let mut visited = Vec::new();
    for _ in 0..4 {
        tm.mark_current_suspended();
        let (_, next) = tm.run_next_task().unwrap();
        visited.push(next);
    }
    // rotation starting after task 0, each task exactly once per round.
    assert_eq!(visited, vec![1, 2, 3, 0]);
}

#[test]
fn yield_rotates_and_returns_zero() {
    let mut k = boot(2);
    let (ret, switch) = sys_yield(&mut k);
    assert_eq!(ret, 0);
    assert_eq!(switch, Some((0, 1)));
    assert_eq!(k.task_manager.tasks[0].status, TaskStatus::Ready);
    assert_eq!(k.task_manager.tasks[1].status, TaskStatus::Running);
}

#[test]
fn write_gathers_the_callers_buffer() {
    let k = boot(1);
    let (n, bytes) = sys_write(&k, 1, 0x10000, 8).unwrap();
    assert_eq!(n, 8);
    assert_eq!(bytes, vec![1, 2, 3, 4, 5, 6, 7, 8]);
    // only standard output is supported.
    assert!(sys_write(&k, 2, 0x10000, 8).is_none());
    // an unmapped buffer is fatal, not silently read.
    assert!(sys_write(&k, 1, 0x3000_0000, 8).is_none());
}

#[test]
fn get_time_writes_across_a_page_boundary() {
    let mut k = boot(1);
    // eight bytes on each side of the stack's internal page boundary.
    let ts = 0x14000 - 8;
    assert_eq!(sys_get_time(&mut k, ts, 5_500_000), Some(0));
    let token = k.current_user_token();
    let raw = translated_byte_buffer(&k.mem, token, ts, 16).unwrap();
    let sec = u64::from_le_bytes(raw[0..8].try_into().unwrap());
    let usec = u64::from_le_bytes(raw[8..16].try_into().unwrap());
    assert_eq!(sec, 5);
    assert_eq!(usec, 500_000);
    // an unmapped destination is fatal, never a partial write.
    assert_eq!(sys_get_time(&mut k, 0x3000_0000, 1), None);
}

#[test]
fn time_value_splits_and_formats() {
    let tv = TimeVal::from_us(7_250_000);
    assert_eq!((tv.sec, tv.usec), (7, 250_000));
    assert_eq!(tv.to_ms(), 7_250);
    let z = TimeVal::new();
    assert_eq!((z.sec, z.usec), (0, 0));
}

#[test]
fn syscall_dispatch_updates_the_trap_context() {
    let mut k = boot(1);
    // arrange a yield syscall in the trap context registers.
    k.task_manager.tasks[0].trap_ctx.x[17] = 124;
    let sepc0 = k.task_manager.tasks[0].trap_ctx.sepc;
    let r = trap_handler(&mut k, TrapCause::UserEnvCall, 0, 0);
    assert_eq!(r.action, TrapAction::Switch { prev: 0, next: 0 });
    assert_eq!(k.task_manager.tasks[0].trap_ctx.sepc, sepc0 + 4);
    // the yield's return value landed in the return register.
    assert_eq!(k.task_manager.tasks[0].trap_ctx.x[10], 0);
    // a rejected mmap syscall puts -1 (as a register value) in x10.
    k.task_manager.tasks[0].trap_ctx.x[17] = 222;
    k.task_manager.tasks[0].trap_ctx.x[10] = 0x2000_0000;
    k.task_manager.tasks[0].trap_ctx.x[11] = 4096;
    k.task_manager.tasks[0].trap_ctx.x[12] = 0; // no permission bits
    let rm = trap_handler(&mut k, TrapCause::UserEnvCall, 0, 0);
    assert_eq!(rm.action, TrapAction::UserReturn);
    assert_eq!(k.task_manager.tasks[0].trap_ctx.x[10], u64::MAX);
    // an unsupported syscall id is fatal.
    k.task_manager.tasks[0].status = TaskStatus::Running;
    k.task_manager.tasks[0].trap_ctx.x[17] = 999;
    let r2 = trap_handler(&mut k, TrapCause::UserEnvCall, 0, 0);
    assert_eq!(r2.action, TrapAction::Fatal);
    // an unknown cause is fatal.
    let r3 = trap_handler(&mut k, TrapCause::Other, 7, 0);
    assert_eq!(r3.action, TrapAction::Fatal);
}

#[test]
fn trap_return_hands_back_the_resume_values() {
    let k = boot(1);
    let (restore, satp, ctx_ptr) = trap_return(&k);
    assert_eq!(restore, params().restore_va);
    assert_eq!(satp, k.current_user_token());
    assert_eq!(ctx_ptr, kernel_core::config::TRAP_CONTEXT_ADDR);
    let _ = (MEMORY_END, PAGE_SIZE);
}
