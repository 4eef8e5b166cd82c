//! The write syscall: gather the caller's buffer through its own address
//! space. The console transport prints what comes back.

use vstd::prelude::*;
use crate::kernel::Kernel;
use crate::mm::address::VA_BOUND;
use crate::mm::page_table::{translated_byte_buffer, translated_byte};

verus! {

/// The one supported file descriptor: standard output.
pub const FD_STDOUT: u64 = 1;

/// Write `len` bytes at user address `buf` of the calling task to file
/// `fd`. Only standard output is supported; the gathered bytes come back
/// for the console, and the result is the byte count. Nothing comes back
/// on an unsupported descriptor or an unmapped buffer: the kernel treats
/// that as fatal.
pub fn sys_write(kernel: &Kernel, fd: u64, buf: u64, len: u64) -> (r: Option<(isize, Vec<u8>)>)
    requires
        kernel.wf(),
        kernel.num_tasks() > 0,
    ensures
        r matches Some(out) ==> {
            let root = kernel.task_manager.tasks@[kernel.task_manager.cur_task
                as int].memory_set.root();
            &&& fd == FD_STDOUT
            &&& out.0 == len as isize
            &&& out.1@.len() == len
            &&& forall|k: int|
                0 <= k < len ==> #[trigger] out.1@[k] == translated_byte(
                    kernel.mem,
                    root,
                    (buf + k) as u64,
                )->Some_0
        },
        r is Some <==> (fd == FD_STDOUT && buf + len < VA_BOUND && (forall|k: int|
            0 <= k < len ==> #[trigger] translated_byte(
                kernel.mem,
                kernel.task_manager.tasks@[kernel.task_manager.cur_task as int].memory_set.root(),
                (buf + k) as u64,
            ) is Some)),
{
    if fd != FD_STDOUT {
        return None;
    }
    if buf >= VA_BOUND || len >= VA_BOUND || buf + len >= VA_BOUND {
        return None;
    }
    let token: u64 = kernel.current_user_token();
    match translated_byte_buffer(&kernel.mem, token, buf, len) {
        Some(bytes) => Some((len as isize, bytes)),
        None => None,
    }
}

} // verus!
