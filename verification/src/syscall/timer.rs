//! Wall-clock time as a (seconds, microseconds) pair derived from the
//! machine's microsecond counter.

use vstd::prelude::*;
use crate::config::MICRO_PER_SEC;

verus! {

/// Seconds and microseconds.
#[derive(Copy, Clone, Debug, PartialEq, Eq, Structural)]
pub struct TimeVal {
    pub sec: u64,
    pub usec: u64,
}

impl TimeVal {
    /// The zero time value.
    pub fn new() -> (r: Self)
        ensures
            r.sec == 0,
            r.usec == 0,
    {
        TimeVal { sec: 0, usec: 0 }
    }

    /// Split a microsecond counter value into seconds and microseconds.
    pub fn from_us(us: u64) -> (r: Self)
        ensures
            r.sec == us as int / MICRO_PER_SEC as int,
            r.usec == us as int % MICRO_PER_SEC as int,
            r.usec < MICRO_PER_SEC,
    {
        TimeVal { sec: us / MICRO_PER_SEC, usec: us % MICRO_PER_SEC }
    }

    /// The 16 bytes of this value as it sits in user memory: both fields
    /// little-endian.
    pub fn to_bytes(&self) -> (r: Vec<u8>)
        ensures
            r@.len() == 16,
            crate::elf::le_bytes_val(r@, 0, 8) == self.sec,
            crate::elf::le_bytes_val(r@, 8, 8) == self.usec,
            forall|j: int| 0 <= j < 8 ==> #[trigger] r@[j] == byte_of(self.sec as int, j),
            forall|j: int| 0 <= j < 8 ==> #[trigger] r@[8 + j] == byte_of(self.usec as int, j),
    {
        let mut r: Vec<u8> = Vec::new();
        push_le_u64(&mut r, self.sec);
        let ghost r1 = r@;
        push_le_u64(&mut r, self.usec);
        proof {
            assert forall|j: int| 0 <= j < 8 implies #[trigger] r@[j] == byte_of(
                self.sec as int,
                j,
            ) by {
                assert(r1[0 + j] == byte_of(self.sec as int, j));
                assert(r@[j] == r1[j]);
            }
            assert forall|j: int| 0 <= j < 8 implies #[trigger] r@[8 + j] == byte_of(
                self.usec as int,
                j,
            ) by {
                assert(r@[r1.len() as int + j] == byte_of(self.usec as int, j));
            }
            assert(crate::elf::le_bytes_val(r@, 0, 8) == self.sec) by {
                lemma_le_of_pushed(r@, 0, self.sec as int);
            }
            assert(crate::elf::le_bytes_val(r@, 8, 8) == self.usec) by {
                lemma_le_of_pushed(r@, 8, self.usec as int);
            }
        }
        r
    }

    /// Milliseconds, as the user runtime reports time: low 16 bits of the
    /// seconds times 1000, plus whole milliseconds of the microseconds.
    pub fn to_ms(&self) -> (r: u64)
        requires
            self.usec < MICRO_PER_SEC,
        ensures
            r == (self.sec as int % 0x10000) * 1000 + self.usec as int / 1000,
    {
        let sec: u64 = self.sec;
        proof {
            assert(sec & 0xFFFF == sec % 0x10000) by (bit_vector);
        }
        (sec & 0xFFFF) * 1000 + self.usec / 1000
    }
}

/// Append the eight little-endian bytes of `v`.
fn push_le_u64(r: &mut Vec<u8>, v: u64)
    ensures
        final(r)@.len() == old(r)@.len() + 8,
        forall|j: int| 0 <= j < old(r)@.len() ==> #[trigger] final(r)@[j] == old(r)@[j],
        forall|j: int|
            0 <= j < 8 ==> #[trigger] final(r)@[old(r)@.len() + j] == byte_of(v as int, j),
{
    let ghost n0 = r@.len();
    let mut j: usize = 0;
    let mut cur: u64 = v;
    while j < 8
        invariant
            j <= 8,
            r@.len() == n0 + j,
            forall|i: int| 0 <= i < n0 ==> #[trigger] r@[i] == old(r)@[i],
            forall|i: int| 0 <= i < j ==> #[trigger] r@[n0 + i] == byte_of(v as int, i),
            cur == shr_bytes(v as int, j as int),
        decreases 8 - j,
    {
        proof {
            lemma_shr_bytes_step(v as int, j as int);
        }
        r.push((cur % 256) as u8);
        cur = cur / 256;
        j = j + 1;
    }
}

/// Byte `j` of the little-endian encoding of `v`.
pub open spec fn byte_of(v: int, j: int) -> u8 {
    ((shr_bytes(v, j)) % 256) as u8
}

/// `v` shifted right by `j` bytes.
pub open spec fn shr_bytes(v: int, j: int) -> int
    decreases j,
{
    if j <= 0 {
        v
    } else {
        shr_bytes(v, j - 1) / 256
    }
}

proof fn lemma_shr_bytes_step(v: int, j: int)
    requires
        j >= 0,
    ensures
        shr_bytes(v, j + 1) == shr_bytes(v, j) / 256,
{
}

/// Shifting a 64-bit value right by `k` bytes keeps it under `256^(8-k)`.
proof fn lemma_shr_bound(v: int, k: int)
    requires
        0 <= v < 0x1_0000_0000_0000_0000,
        0 <= k <= 8,
    ensures
        0 <= shr_bytes(v, k) < crate::elf::pow256(8 - k),
    decreases k,
{
    if k == 0 {
        assert(crate::elf::pow256(8) == 0x1_0000_0000_0000_0000) by {
            reveal_with_fuel(crate::elf::pow256, 9);
        }
    } else {
        lemma_shr_bound(v, k - 1);
        assert(shr_bytes(v, k) == shr_bytes(v, k - 1) / 256);
        assert(crate::elf::pow256(8 - (k - 1)) == 256 * crate::elf::pow256(8 - k));
        assert(shr_bytes(v, k - 1) < 256 * crate::elf::pow256(8 - k));
        assert(shr_bytes(v, k - 1) / 256 < crate::elf::pow256(8 - k)) by (nonlinear_arith)
            requires
                0 <= shr_bytes(v, k - 1),
                shr_bytes(v, k - 1) < 256 * crate::elf::pow256(8 - k),
                crate::elf::pow256(8 - k) >= 1,
        ;
        assert(crate::elf::pow256(8 - k) >= 1) by {
            crate::elf::lemma_pow256_pos(8 - k);
        }
    }
}

/// The little-endian value of the eight pushed bytes is the encoded value.
proof fn lemma_le_of_pushed(b: Seq<u8>, off: int, v: int)
    requires
        0 <= v < 0x1_0000_0000_0000_0000,
        0 <= off,
        off + 8 <= b.len(),
        forall|j: int| 0 <= j < 8 ==> #[trigger] b[off + j] == byte_of(v, j),
    ensures
        crate::elf::le_bytes_val(b, off, 8) == v,
{
    lemma_le_of_pushed_rec(b, off, v, 0);
}

proof fn lemma_le_of_pushed_rec(b: Seq<u8>, off: int, v: int, k: int)
    requires
        0 <= v < 0x1_0000_0000_0000_0000,
        0 <= off,
        0 <= k <= 8,
        off + 8 <= b.len(),
        forall|j: int| 0 <= j < 8 ==> #[trigger] b[off + j] == byte_of(v, j),
    ensures
        crate::elf::le_bytes_val(b, off + k, 8 - k) == shr_bytes(v, k),
    decreases 8 - k,
{
    if k == 8 {
        lemma_shr_bound(v, 8);
        assert(crate::elf::pow256(0) == 1);
        assert(shr_bytes(v, 8) == 0);
    } else {
        lemma_le_of_pushed_rec(b, off, v, k + 1);
        assert(b[off + k] == byte_of(v, k));
        assert(crate::elf::le_bytes_val(b, off + k, 8 - k) == b[off + k] + 256
            * crate::elf::le_bytes_val(b, off + k + 1, 8 - k - 1));
        lemma_shr_bound(v, k);
        assert(shr_bytes(v, k) == shr_bytes(v, k) % 256 + 256 * (shr_bytes(v, k) / 256)) by {
            vstd::arithmetic::div_mod::lemma_fundamental_div_mod(shr_bytes(v, k), 256);
        }
    }
}


/// Write the current time, taken from the machine's microsecond counter
/// `us`, as a (seconds, microseconds) pair through the calling task's
/// address space at user pointer `ts` — possibly across two pages.
/// Returns 0; nothing comes back if the destination is not fully mapped
/// writable user data, which the kernel treats as fatal.
pub fn sys_get_time(kernel: &mut crate::kernel::Kernel, ts: u64, us: u64) -> (r: Option<isize>)
    requires
        old(kernel).wf(),
        old(kernel).num_tasks() > 0,
    ensures
        final(kernel).wf(),
        final(kernel).num_tasks() == old(kernel).num_tasks(),
        final(kernel).task_manager.tasks@ == old(kernel).task_manager.tasks@,
        final(kernel).task_manager.cur_task == old(kernel).task_manager.cur_task,
        r matches Some(v) ==> v == 0,
        r is Some <==> (ts + 16 < crate::mm::address::VA_BOUND && (forall|j: int|
            0 <= j < 16 ==> #[trigger] crate::mm::page_table::translated_byte(
                old(kernel).mem,
                old(kernel).task_manager.tasks@[old(kernel).task_manager.cur_task
                    as int].memory_set.root(),
                (ts + j) as u64,
            ) is Some)),
        r is None ==> final(kernel).mem == old(kernel).mem,
        r is Some ==> (forall|j: int|
            0 <= j < 8 ==> #[trigger] crate::mm::page_table::translated_byte(
                final(kernel).mem,
                old(kernel).task_manager.tasks@[old(kernel).task_manager.cur_task
                    as int].memory_set.root(),
                (ts + j) as u64,
            ) == Some(byte_of(us as int / MICRO_PER_SEC as int, j))),
        r is Some ==> (forall|j: int|
            0 <= j < 8 ==> #[trigger] crate::mm::page_table::translated_byte(
                final(kernel).mem,
                old(kernel).task_manager.tasks@[old(kernel).task_manager.cur_task
                    as int].memory_set.root(),
                (ts + 8 + j) as u64,
            ) == Some(byte_of(us as int % MICRO_PER_SEC as int, j))),
{
    if ts >= crate::mm::address::VA_BOUND - 16 {
        return None;
    }
    let now = TimeVal::from_us(us);
    let bytes = now.to_bytes();
    let token: u64 = kernel.current_user_token();
    let ghost k0 = *kernel;
    let ok = crate::mm::page_table::translated_write_buffer(&mut kernel.mem, token, ts, &bytes);
    if !ok {
        proof {
            assert(kernel.mem == k0.mem);
            lemma_kernel_wf_data_write(k0, *kernel);
        }
        return None;
    }
    proof {
        lemma_kernel_wf_data_write(k0, *kernel);
        let root = k0.task_manager.tasks@[k0.task_manager.cur_task as int].memory_set.root();
        assert forall|j: int|
            0 <= j < 8 implies #[trigger] crate::mm::page_table::translated_byte(
            kernel.mem,
            root,
            (ts + 8 + j) as u64,
        ) == Some(byte_of(us as int % MICRO_PER_SEC as int, j)) by {
            let kk = 8 + j;
            assert(crate::mm::page_table::translated_byte(kernel.mem, root, (ts + kk) as u64)
                == Some(bytes@[kk]));
            assert((ts + kk) as u64 == (ts + 8 + j) as u64);
            assert(bytes@[8 + j] == byte_of(us as int % MICRO_PER_SEC as int, j));
        }
    }
    Some(0)
}

/// A write that only changes the contents of data frames preserves the
/// whole kernel invariant.
proof fn lemma_kernel_wf_data_write(k0: crate::kernel::Kernel, k1: crate::kernel::Kernel)
    requires
        k0.wf(),
        k1.task_manager == k0.task_manager,
        k1.kernel_space == k0.kernel_space,
        k1.frame_allocator == k0.frame_allocator,
        k1.mem.base_spec() == k0.mem.base_spec(),
        k1.mem.end_spec() == k0.mem.end_spec(),
        forall|q: int|
            k0.mem.contains(q) && #[trigger] k1.mem.frame(q) != k0.mem.frame(q) ==> k0.mem.is_data(
                q,
            ) && k1.mem.is_data(q),
    ensures
        k1.wf(),
{
    assert forall|q: int| k0.mem.is_data(q) implies #[trigger] k1.mem.is_data(q) by {
        if k1.mem.frame(q) == k0.mem.frame(q) {
        }
    }
    assert(k1.kernel_space.wf(k1.mem)) by {
        assert forall|q: int| k1.kernel_space.page_table.owns(q) implies #[trigger] k1.mem.frame(
            q,
        ) == k0.mem.frame(q) by {
            if k1.mem.frame(q) != k0.mem.frame(q) {
                assert(k0.mem.is_data(q));
                assert(k0.mem.is_table(q));
            }
        }
        crate::mm::memory_set::lemma_ms_wf_preserved(k1.kernel_space, k0.mem, k1.mem);
    }
    assert forall|i: int|
        0 <= i < k1.num_tasks() implies (#[trigger] k1.task_manager.tasks@[i]).wf(k1.mem) by {
        let msi = k0.task_manager.tasks@[i].memory_set;
        assert(k0.task_manager.tasks@[i].wf(k0.mem));
        assert forall|q: int| msi.page_table.owns(q) implies #[trigger] k1.mem.frame(q)
            == k0.mem.frame(q) by {
            if k1.mem.frame(q) != k0.mem.frame(q) {
                assert(k0.mem.is_data(q));
                assert(k0.mem.is_table(q));
            }
        }
        crate::mm::memory_set::lemma_ms_wf_preserved(msi, k0.mem, k1.mem);
    }
    assert(k1.frame_allocator.wf(k1.mem)) by {
        crate::mm::frame_allocator::lemma_fa_wf_free_frames_unchanged(
            k1.frame_allocator,
            k0.mem,
            k1.mem,
        );
    }
}

} // verus!
