//! SV39 page-table entries and the three-level page table: entries hold a
//! 44-bit physical page number above an 8-bit flag field, and the table is
//! a radix tree of directory frames walked by the three 9-bit index
//! components of a virtual page number.

use vstd::prelude::*;
use vstd::arithmetic::div_mod::{
    lemma_fundamental_div_mod, lemma_fundamental_div_mod_converse, lemma_mod_multiples_vanish,
};
use crate::mm::address::{PhysPageNum, VirtPageNum, PPN_BOUND, VPN_BOUND, PT_SIZE};
use crate::mm::phys_mem::{FrameData, PhysMemory, FRAME_BYTES};
use crate::mm::frame_allocator::{FrameTracker, StackFrameAllocator};

verus! {

/// Valid: the entry may be used for translation.
pub const PTE_V: u8 = 1;

/// Readable.
pub const PTE_R: u8 = 2;

/// Writable.
pub const PTE_W: u8 = 4;

/// Executable.
pub const PTE_X: u8 = 8;

/// Accessible from user mode.
pub const PTE_U: u8 = 16;

/// Global mapping.
pub const PTE_G: u8 = 32;

/// Accessed since last clear.
pub const PTE_A: u8 = 64;

/// Dirtied since last clear.
pub const PTE_D: u8 = 128;

/// Permission bits of a memory area use the same positions as the page
/// table's R/W/X/U flags.
pub type MapPermission = u8;

/// One SV39 page-table entry: flag bits 0..8, physical page number in bits
/// 10..54.
#[derive(Copy, Clone, Debug, PartialEq, Eq, Structural)]
pub struct PageTableEntry {
    pub bits: u64,
}

proof fn lemma_pte_split(b: u64)
    by (bit_vector)
    ensures
        (b % 0x40_0000_0000_0000) / 1024 == (b / 1024) % 0x1000_0000_0000,
{
}

proof fn lemma_flag_bits(f: u8)
    by (bit_vector)
    ensures
        (f & 1 != 0) == (f % 2 == 1),
        (f & 2 != 0) == ((f / 2) % 2 == 1),
        (f & 4 != 0) == ((f / 4) % 2 == 1),
        (f & 8 != 0) == ((f / 8) % 2 == 1),
        (f & 16 != 0) == ((f / 16) % 2 == 1),
{
}

impl PageTableEntry {
    /// The flag byte: the low 8 bits.
    pub open spec fn flags_spec(self) -> u8 {
        (self.bits % 256) as u8
    }

    /// The physical page number stored in bits 10..54.
    pub open spec fn ppn_spec(self) -> u64 {
        (((self.bits as int) / 1024) % (PPN_BOUND as int)) as u64
    }

    /// Whether the Valid flag is set.
    pub open spec fn is_valid_spec(self) -> bool {
        self.bits as int % 2 == 1
    }

    /// Whether the Readable flag is set.
    pub open spec fn readable_spec(self) -> bool {
        (self.flags_spec() as int / 2) % 2 == 1
    }

    /// Whether the Writable flag is set.
    pub open spec fn writable_spec(self) -> bool {
        (self.flags_spec() as int / 4) % 2 == 1
    }

    /// Whether the Executable flag is set.
    pub open spec fn executable_spec(self) -> bool {
        (self.flags_spec() as int / 8) % 2 == 1
    }

    /// Build an entry from a physical page number and a flag byte.
    pub fn new(ppn: PhysPageNum, flags: u8) -> (r: Self)
        requires
            ppn.0 < PPN_BOUND,
        ensures
            r.bits == ppn.0 * 1024 + flags,
            r.ppn_spec() == ppn.0,
            r.flags_spec() == flags,
            r.is_valid_spec() == (flags as int % 2 == 1),
    {
        let r = PageTableEntry { bits: ppn.0 * 1024 + flags as u64 };
        proof {
            let b = ppn.0 as int * 1024 + flags as int;
            lemma_fundamental_div_mod_converse(b, 1024, ppn.0 as int, flags as int);
            lemma_fundamental_div_mod_converse(b, 256, ppn.0 as int * 4, flags as int);
            lemma_fundamental_div_mod_converse(
                b,
                2,
                ppn.0 as int * 512 + flags as int / 2,
                flags as int % 2,
            );
        }
        r
    }

    /// The all-zero entry: not valid.
    pub fn empty() -> (r: Self)
        ensures
            r.bits == 0,
            !r.is_valid_spec(),
            r.flags_spec() == 0,
            r.ppn_spec() == 0,
    {
        PageTableEntry { bits: 0 }
    }

    /// The physical page number field.
    pub fn ppn(&self) -> (r: PhysPageNum)
        ensures
            r.0 == self.ppn_spec(),
            r.0 < PPN_BOUND,
    {
        proof {
            lemma_pte_split(self.bits);
        }
        PhysPageNum((self.bits % 0x40_0000_0000_0000) / 1024)
    }

    /// The flag byte.
    pub fn flags(&self) -> (r: u8)
        ensures
            r == self.flags_spec(),
    {
        proof {
            lemma_pte_split(self.bits);
        }
        (self.bits % 256) as u8
    }

    /// Whether the entry is valid.
    pub fn is_valid(&self) -> (r: bool)
        ensures
            r == self.is_valid_spec(),
    {
        proof {
            lemma_pte_split(self.bits);
            lemma_flag_bits(self.flags_spec());
            assert(self.bits as int % 2 == self.bits as int % 256 % 2) by {
                lemma_mod_mod(self.bits as int);
            }
        }
        (self.flags() & PTE_V) != 0
    }

    /// Whether the mapped page is readable.
    pub fn readable(&self) -> (r: bool)
        ensures
            r == self.readable_spec(),
    {
        proof {
            lemma_flag_bits(self.flags_spec());
        }
        (self.flags() & PTE_R) != 0
    }

    /// Whether the mapped page is writable.
    pub fn writable(&self) -> (r: bool)
        ensures
            r == self.writable_spec(),
    {
        proof {
            lemma_flag_bits(self.flags_spec());
        }
        (self.flags() & PTE_W) != 0
    }

    /// Whether the mapped page is executable.
    pub fn executable(&self) -> (r: bool)
        ensures
            r == self.executable_spec(),
    {
        proof {
            lemma_flag_bits(self.flags_spec());
        }
        (self.flags() & PTE_X) != 0
    }
}

/// `b % 2` only depends on the low byte.
proof fn lemma_mod_mod(b: int)
    requires
        b >= 0,
    ensures
        b % 2 == b % 256 % 2,
{
    lemma_fundamental_div_mod(b, 256);
    lemma_mod_multiples_vanish(128 * (b / 256), b % 256, 2);
    assert(2 * (128 * (b / 256)) == 256 * (b / 256));
}


/// SATP value with the SV39 mode field set.
pub const SATP_MODE_SV39: u64 = 0x8000_0000_0000_0000;

/// Level-0 (leaf) directory index of `vpn`.
pub open spec fn l0_idx(vpn: u64) -> int {
    vpn as int % 512
}

/// Level-1 directory index of `vpn`.
pub open spec fn l1_idx(vpn: u64) -> int {
    (vpn as int / 512) % 512
}

/// Level-2 (root) directory index of `vpn`.
pub open spec fn l2_idx(vpn: u64) -> int {
    (vpn as int / 262144) % 512
}

/// The child directory that entry `i` of directory frame `node` points to,
/// if `node` is a directory frame and the entry is valid.
pub open spec fn child(mem: PhysMemory, node: int, i: int) -> Option<u64> {
    if mem.is_table(node) && mem.table(node)[i].is_valid_spec() {
        Some(mem.table(node)[i].ppn_spec())
    } else {
        None
    }
}

/// The level-0 directory reached from `root` through indexes `i` and `j`.
pub open spec fn child2(mem: PhysMemory, root: int, i: int, j: int) -> Option<u64> {
    match child(mem, root, i) {
        Some(n1) => child(mem, n1 as int, j),
        None => None,
    }
}

/// The leaf entry the three-level walk reaches for `vpn`, if every
/// directory on the path exists; the leaf itself need not be valid.
pub open spec fn walk(mem: PhysMemory, root: int, vpn: u64) -> Option<PageTableEntry> {
    match child2(mem, root, l2_idx(vpn), l1_idx(vpn)) {
        Some(n0) => if mem.is_table(n0 as int) {
            Some(mem.table(n0 as int)[l0_idx(vpn)])
        } else {
            None
        },
        None => None,
    }
}

/// The translation of `vpn`: the leaf entry exactly when the walk reaches
/// a valid one.
pub open spec fn lookup(mem: PhysMemory, root: int, vpn: u64) -> Option<PageTableEntry> {
    match walk(mem, root, vpn) {
        Some(e) => if e.is_valid_spec() {
            Some(e)
        } else {
            None
        },
        None => None,
    }
}

/// Two virtual page numbers with the same three index components are the
/// same page number.
proof fn lemma_vpn_from_indexes(a: u64, b: u64)
    by (bit_vector)
    requires
        a < 0x800_0000,
        b < 0x800_0000,
        a % 512 == b % 512,
        (a / 512) % 512 == (b / 512) % 512,
        (a / 262144) % 512 == (b / 262144) % 512,
    ensures
        a == b,
{
}

proof fn lemma_or_valid_flag(f: u8)
    by (bit_vector)
    requires
        f % 2 == 0,
    ensures
        (f | 1) == f + 1,
{
}

proof fn lemma_token_bits(x: u64)
    by (bit_vector)
    requires
        x < 0x1000_0000_0000,
    ensures
        (x | 0x8000_0000_0000_0000) == x + 0x8000_0000_0000_0000,
        (x | 0x8000_0000_0000_0000) % 0x1000_0000_0000 == x,
{
}

/// One address space's translation structure: the root directory frame and
/// the owned directory frames of the radix tree.
pub struct PageTable {
    pub root_ppn: PhysPageNum,
    pub frames: Vec<FrameTracker>,
}

impl PageTable {
    /// The root directory frame, as an index into the arena.
    pub open spec fn root(self) -> int {
        self.root_ppn.0 as int
    }

    /// Whether directory frame `p` is owned by this table.
    pub open spec fn owns(self, p: int) -> bool {
        exists|i: int| 0 <= i < self.frames@.len() && self.frames@[i].0.0 == p
    }

    /// The radix-tree invariant: the root and every directory reachable
    /// from it are owned, well-formed directory frames, and distinct
    /// directories stand behind distinct paths, so an update through one
    /// path never disturbs another.
    pub open spec fn wf(self, mem: PhysMemory) -> bool {
        let root = self.root();
        &&& mem.is_table(root)
        &&& self.owns(root)
        &&& forall|i: int|
            0 <= i < self.frames@.len() ==> mem.is_table(#[trigger] self.frames@[i].0.0 as int)
        &&& forall|i: int, j: int|
            0 <= i < j < self.frames@.len() ==> #[trigger] self.frames@[i].0.0
                != #[trigger] self.frames@[j].0.0
        &&& forall|i: int|
            0 <= i < 512 ==> match #[trigger] child(mem, root, i) {
                Some(n1) => mem.is_table(n1 as int) && self.owns(n1 as int) && n1 as int != root,
                None => true,
            }
        &&& forall|i: int, j: int|
            0 <= i < 512 && 0 <= j < 512 && i != j && #[trigger] child(mem, root, i) is Some
                && #[trigger] child(mem, root, j) is Some ==> child(mem, root, i) != child(
                mem,
                root,
                j,
            )
        &&& forall|i: int, j: int|
            0 <= i < 512 && 0 <= j < 512 ==> match #[trigger] child2(mem, root, i, j) {
                Some(n0) => mem.is_table(n0 as int) && self.owns(n0 as int) && n0 as int != root
                    && (forall|k: int| 0 <= k < 512 ==> #[trigger] child(mem, root, k) != Some(n0)),
                None => true,
            }
        &&& forall|i: int, j: int, k: int, l: int|
            0 <= i < 512 && 0 <= j < 512 && 0 <= k < 512 && 0 <= l < 512 && (i != k || j != l)
                && #[trigger] child2(mem, root, i, j) is Some && #[trigger] child2(
                mem,
                root,
                k,
                l,
            ) is Some ==> child2(mem, root, i, j) != child2(mem, root, k, l)
    }
}


/// A frame that is not a directory frame is referenced nowhere in a
/// well-formed table: it is not the root, not owned, and no directory
/// entry points to it.
proof fn lemma_free_frame_unreferenced(pt: PageTable, mem: PhysMemory, p: int)
    requires
        pt.wf(mem),
        mem.wf(),
        0 <= p < PPN_BOUND,
        !mem.is_table(p),
    ensures
        pt.root() != p,
        !pt.owns(p),
        forall|k: int| 0 <= k < 512 ==> #[trigger] child(mem, pt.root(), k) != Some(p as u64),
        forall|k: int, l: int|
            0 <= k < 512 && 0 <= l < 512 ==> #[trigger] child2(mem, pt.root(), k, l) != Some(
                p as u64,
            ),
{
    let root = pt.root();
    assert(p as u64 as int == p);
    assert(!pt.owns(p)) by {
        if pt.owns(p) {
            let i = choose|i: int| 0 <= i < pt.frames@.len() && pt.frames@[i].0.0 == p;
            assert(mem.is_table(pt.frames@[i].0.0 as int));
        }
    }
    assert forall|k: int| 0 <= k < 512 implies #[trigger] child(mem, root, k) != Some(
        p as u64,
    ) by {
        if child(mem, root, k) == Some(p as u64) {
            assert(mem.is_table(p));
        }
    }
    assert forall|k: int, l: int|
        0 <= k < 512 && 0 <= l < 512 implies #[trigger] child2(mem, root, k, l) != Some(
        p as u64,
    ) by {
        if child2(mem, root, k, l) == Some(p as u64) {
            assert(mem.is_table(p));
        }
    }
}

/// Changing the contents of a frame that a table does not reference
/// neither breaks the table's invariant nor changes any directory link or
/// any walk, as long as the frame does not become a directory with valid
/// entries.
proof fn lemma_unreferenced_frame_update(
    pt: PageTable,
    mem1: PhysMemory,
    mem2: PhysMemory,
    p: int,
)
    requires
        pt.wf(mem1),
        mem1.same_except(mem2, p),
        pt.root() != p,
        !pt.owns(p),
        forall|k: int| 0 <= k < 512 ==> #[trigger] child(mem1, pt.root(), k) != Some(p as u64),
        forall|k: int, l: int|
            0 <= k < 512 && 0 <= l < 512 ==> #[trigger] child2(mem1, pt.root(), k, l) != Some(
                p as u64,
            ),
        mem1.is_table(p) ==> forall|i: int|
            0 <= i < 512 ==> !mem1.table(p)[i].is_valid_spec(),
        mem2.is_table(p) ==> forall|i: int|
            0 <= i < 512 ==> !mem2.table(p)[i].is_valid_spec(),
    ensures
        pt.wf(mem2),
        forall|n: int, i: int|
            0 <= i < 512 ==> #[trigger] child(mem2, n, i) == child(mem1, n, i),
        forall|k: int, l: int|
            0 <= k < 512 && 0 <= l < 512 ==> #[trigger] child2(mem2, pt.root(), k, l) == child2(
                mem1,
                pt.root(),
                k,
                l,
            ),
        forall|w: u64| #[trigger] walk(mem2, pt.root(), w) == walk(mem1, pt.root(), w),
{
    let root = pt.root();
    assert forall|n: int, i: int| 0 <= i < 512 implies #[trigger] child(mem2, n, i) == child(
        mem1,
        n,
        i,
    ) by {
        if n == p {
            if mem1.is_table(p) {
                assert(!mem1.table(p)[i].is_valid_spec());
            }
            if mem2.is_table(p) {
                assert(!mem2.table(p)[i].is_valid_spec());
            }
        } else {
            if mem1.contains(n) {
                assert(mem2.frame(n) == mem1.frame(n));
            }
        }
    }
    assert forall|k: int, l: int| 0 <= k < 512 && 0 <= l < 512 implies #[trigger] child2(
        mem2,
        root,
        k,
        l,
    ) == child2(mem1, root, k, l) by {
        assert(child(mem2, root, k) == child(mem1, root, k));
        match child(mem1, root, k) {
            Some(n1) => {
                assert(child(mem2, n1 as int, l) == child(mem1, n1 as int, l));
            },
            None => {},
        }
    }
    assert forall|w: u64| #[trigger] walk(mem2, root, w) == walk(mem1, root, w) by {
        let i = l2_idx(w);
        let j = l1_idx(w);
        assert(0 <= i < 512 && 0 <= j < 512);
        assert(child2(mem2, root, i, j) == child2(mem1, root, i, j));
        match child2(mem1, root, i, j) {
            Some(n0) => {
                assert(n0 as int != p);
                assert(mem2.is_table(n0 as int) == mem1.is_table(n0 as int));
                if mem1.is_table(n0 as int) {
                    assert(mem2.table(n0 as int) == mem1.table(n0 as int));
                }
            },
            None => {},
        }
    }
    assert(pt.wf(mem2)) by {
        assert(mem2.is_table(root)) by {
            assert(mem2.frame(root) == mem1.frame(root));
        }
        assert forall|i: int|
            0 <= i < pt.frames@.len() implies mem2.is_table(
            #[trigger] pt.frames@[i].0.0 as int,
        ) by {
            assert(mem1.is_table(pt.frames@[i].0.0 as int));
            assert(pt.frames@[i].0.0 as int != p);
            assert(mem2.frame(pt.frames@[i].0.0 as int) == mem1.frame(pt.frames@[i].0.0 as int));
        }
    }
}


/// Extending a table's owned frames with one more tracker.
proof fn lemma_owns_push(pt1: PageTable, pt2: PageTable, p: u64)
    requires
        pt2.frames@ == pt1.frames@.push(FrameTracker(PhysPageNum(p))),
    ensures
        forall|q: int| #[trigger] pt2.owns(q) <==> pt1.owns(q) || q == p as int,
{
    assert forall|q: int| #[trigger] pt2.owns(q) <==> pt1.owns(q) || q == p as int by {
        if pt1.owns(q) {
            let i = choose|i: int| 0 <= i < pt1.frames@.len() && pt1.frames@[i].0.0 == q;
            assert(pt2.frames@[i].0.0 == q);
        }
        if q == p as int {
            assert(pt2.frames@[pt1.frames@.len() as int].0.0 == q);
        }
        if pt2.owns(q) {
            let i = choose|i: int| 0 <= i < pt2.frames@.len() && pt2.frames@[i].0.0 == q;
            if i < pt1.frames@.len() {
                assert(pt1.frames@[i].0.0 == q);
            }
        }
    }
}

/// Linking a fresh, empty directory frame `p` into entry `i2` of the root
/// directory: the invariant extends to the new frame and no walk result
/// changes, because the path through `i2` was absent before and dead-ends
/// in the empty directory now.
proof fn lemma_link_root_child(
    pt1: PageTable,
    pt2: PageTable,
    mem1: PhysMemory,
    mem2: PhysMemory,
    p: u64,
    i2: int,
    e: PageTableEntry,
)
    requires
        pt1.wf(mem1),
        mem1.wf(),
        pt2.root_ppn == pt1.root_ppn,
        pt2.frames@ == pt1.frames@.push(FrameTracker(PhysPageNum(p))),
        p < PPN_BOUND,
        mem1.is_table(p as int),
        forall|i: int| 0 <= i < 512 ==> !mem1.table(p as int)[i].is_valid_spec(),
        p as int != pt1.root(),
        !pt1.owns(p as int),
        forall|k: int| 0 <= k < 512 ==> #[trigger] child(mem1, pt1.root(), k) != Some(p),
        forall|k: int, l: int|
            0 <= k < 512 && 0 <= l < 512 ==> #[trigger] child2(mem1, pt1.root(), k, l) != Some(p),
        0 <= i2 < 512,
        child(mem1, pt1.root(), i2) is None,
        mem1.same_except(mem2, pt1.root()),
        mem2.is_table(pt1.root()),
        mem2.table(pt1.root()) == mem1.table(pt1.root()).update(i2, e),
        e.is_valid_spec(),
        e.ppn_spec() == p,
    ensures
        pt2.wf(mem2),
        forall|w: u64| #[trigger] walk(mem2, pt1.root(), w) == walk(mem1, pt1.root(), w),
        child(mem2, pt1.root(), i2) == Some(p),
        forall|k: int|
            0 <= k < 512 && k != i2 ==> #[trigger] child(mem2, pt1.root(), k) == child(
                mem1,
                pt1.root(),
                k,
            ),
        forall|l: int| 0 <= l < 512 ==> #[trigger] child(mem2, p as int, l) is None,
        forall|k: int, l: int|
            0 <= k < 512 && 0 <= l < 512 && k != i2 ==> #[trigger] child2(mem2, pt1.root(), k, l)
                == child2(mem1, pt1.root(), k, l),
{
    let root = pt1.root();
    lemma_owns_push(pt1, pt2, p);
    assert(p as u64 as int == p as int);
    // frames other than the root are untouched.
    assert forall|n: int, l: int| n != root && 0 <= l < 512 implies #[trigger] child(mem2, n, l)
        == child(mem1, n, l) by {
        if mem1.contains(n) {
            assert(mem2.frame(n) == mem1.frame(n));
        }
    }
    assert forall|l: int| 0 <= l < 512 implies #[trigger] child(mem2, p as int, l) is None by {
        assert(child(mem2, p as int, l) == child(mem1, p as int, l));
        assert(!mem1.table(p as int)[l].is_valid_spec());
    }
    assert(child(mem2, root, i2) == Some(p)) by {
        assert(mem2.table(root)[i2] == e);
    }
    assert forall|k: int| 0 <= k < 512 && k != i2 implies #[trigger] child(mem2, root, k)
        == child(mem1, root, k) by {
        assert(mem2.table(root)[k] == mem1.table(root)[k]);
    }
    assert forall|k: int, l: int|
        0 <= k < 512 && 0 <= l < 512 && k != i2 implies #[trigger] child2(mem2, root, k, l)
        == child2(mem1, root, k, l) by {
        match child(mem1, root, k) {
            Some(n1) => {
                assert(n1 as int != root);
                assert(child(mem2, n1 as int, l) == child(mem1, n1 as int, l));
            },
            None => {},
        }
    }
    // no walk result changes.
    assert forall|w: u64| #[trigger] walk(mem2, root, w) == walk(mem1, root, w) by {
        let i = l2_idx(w);
        let j = l1_idx(w);
        assert(0 <= i < 512 && 0 <= j < 512);
        if i == i2 {
            assert(child2(mem1, root, i, j) is None);
            assert(child2(mem2, root, i, j) == child(mem2, p as int, j));
            assert(child(mem2, p as int, j) is None);
        } else {
            assert(child2(mem2, root, i, j) == child2(mem1, root, i, j));
            match child2(mem1, root, i, j) {
                Some(n0) => {
                    assert(n0 as int != root);
                    assert(mem2.frame(n0 as int) == mem1.frame(n0 as int));
                },
                None => {},
            }
        }
    }
    // the invariant holds again.
    assert(pt2.wf(mem2)) by {
        assert(pt2.owns(root));
        assert forall|i: int|
            0 <= i < pt2.frames@.len() implies mem2.is_table(
            #[trigger] pt2.frames@[i].0.0 as int,
        ) by {
            if i < pt1.frames@.len() {
                assert(pt2.frames@[i] == pt1.frames@[i]);
                assert(mem1.is_table(pt1.frames@[i].0.0 as int));
                if pt1.frames@[i].0.0 as int != root {
                    assert(mem2.frame(pt1.frames@[i].0.0 as int) == mem1.frame(
                        pt1.frames@[i].0.0 as int,
                    ));
                }
            } else {
                assert(pt2.frames@[i].0.0 == p);
                assert(p as int != root);
                assert(mem2.frame(p as int) == mem1.frame(p as int));
            }
        }
        assert forall|i: int, j: int|
            0 <= i < j < pt2.frames@.len() implies #[trigger] pt2.frames@[i].0.0
            != #[trigger] pt2.frames@[j].0.0 by {
            if j < pt1.frames@.len() {
                assert(pt2.frames@[i] == pt1.frames@[i] && pt2.frames@[j] == pt1.frames@[j]);
            } else {
                assert(pt2.frames@[j].0.0 == p);
                assert(pt2.frames@[i] == pt1.frames@[i]);
                assert(!pt1.owns(p as int));
                if pt1.frames@[i].0.0 == p {
                    assert(pt1.owns(p as int));
                }
            }
        }
        assert forall|i: int| 0 <= i < 512 implies match #[trigger] child(mem2, root, i) {
            Some(n1) => mem2.is_table(n1 as int) && pt2.owns(n1 as int) && n1 as int != root,
            None => true,
        } by {
            if i == i2 {
                assert(child(mem2, root, i) == Some(p));
            } else {
                match child(mem1, root, i) {
                    Some(n1) => {
                        assert(n1 as int != root);
                        assert(mem2.frame(n1 as int) == mem1.frame(n1 as int));
                    },
                    None => {},
                }
            }
        }
        assert forall|i: int, j: int|
            0 <= i < 512 && 0 <= j < 512 && i != j && #[trigger] child(mem2, root, i) is Some
                && #[trigger] child(mem2, root, j) is Some implies child(mem2, root, i) != child(
            mem2,
            root,
            j,
        ) by {
            if i == i2 {
                assert(child(mem2, root, j) == child(mem1, root, j));
                assert(child(mem1, root, j) != Some(p));
            } else if j == i2 {
                assert(child(mem2, root, i) == child(mem1, root, i));
                assert(child(mem1, root, i) != Some(p));
            } else {
                assert(child(mem2, root, i) == child(mem1, root, i));
                assert(child(mem2, root, j) == child(mem1, root, j));
            }
        }
        assert forall|i: int, j: int|
            0 <= i < 512 && 0 <= j < 512 implies match #[trigger] child2(mem2, root, i, j) {
            Some(n0) => mem2.is_table(n0 as int) && pt2.owns(n0 as int) && n0 as int != root && (
            forall|k: int| 0 <= k < 512 ==> #[trigger] child(mem2, root, k) != Some(n0)),
            None => true,
        } by {
            if i == i2 {
                assert(child2(mem2, root, i, j) == child(mem2, p as int, j));
                assert(child2(mem2, root, i, j) is None);
            } else {
                assert(child2(mem2, root, i, j) == child2(mem1, root, i, j));
                match child2(mem1, root, i, j) {
                    Some(n0) => {
                        assert(n0 as int != root);
                        assert(mem2.frame(n0 as int) == mem1.frame(n0 as int));
                        assert(child2(mem1, root, i, j) != Some(p));
                        assert forall|k: int| 0 <= k < 512 implies #[trigger] child(
                            mem2,
                            root,
                            k,
                        ) != Some(n0) by {
                            if k == i2 {
                                assert(child(mem2, root, k) == Some(p));
                                assert(n0 != p);
                            } else {
                                assert(child(mem2, root, k) == child(mem1, root, k));
                                assert(child(mem1, root, k) != Some(n0));
                            }
                        }
                    },
                    None => {},
                }
            }
        }
        assert forall|i: int, j: int, k: int, l: int|
            0 <= i < 512 && 0 <= j < 512 && 0 <= k < 512 && 0 <= l < 512 && (i != k || j != l)
                && #[trigger] child2(mem2, root, i, j) is Some && #[trigger] child2(
                mem2,
                root,
                k,
                l,
            ) is Some implies child2(mem2, root, i, j) != child2(mem2, root, k, l) by {
            assert(i != i2 && k != i2);
            assert(child2(mem2, root, i, j) == child2(mem1, root, i, j));
            assert(child2(mem2, root, k, l) == child2(mem1, root, k, l));
        }
    }
}


/// Linking a fresh, empty directory frame `q` into entry `i1` of the
/// mid-level directory `n1` (itself entry `i2` of the root): the invariant
/// extends to the new frame, and no translation changes — the path through
/// `(i2, i1)` was absent before and now dead-ends in invalid leaf slots.
proof fn lemma_link_mid_child(
    pt1: PageTable,
    pt2: PageTable,
    mem1: PhysMemory,
    mem2: PhysMemory,
    i2: int,
    n1: u64,
    i1: int,
    q: u64,
    e: PageTableEntry,
)
    requires
        pt1.wf(mem1),
        mem1.wf(),
        pt2.root_ppn == pt1.root_ppn,
        pt2.frames@ == pt1.frames@.push(FrameTracker(PhysPageNum(q))),
        0 <= i2 < 512,
        0 <= i1 < 512,
        child(mem1, pt1.root(), i2) == Some(n1),
        child(mem1, n1 as int, i1) is None,
        q < PPN_BOUND,
        mem1.is_table(q as int),
        forall|i: int| 0 <= i < 512 ==> !mem1.table(q as int)[i].is_valid_spec(),
        q as int != pt1.root(),
        !pt1.owns(q as int),
        forall|k: int| 0 <= k < 512 ==> #[trigger] child(mem1, pt1.root(), k) != Some(q),
        forall|k: int, l: int|
            0 <= k < 512 && 0 <= l < 512 ==> #[trigger] child2(mem1, pt1.root(), k, l) != Some(q),
        mem1.same_except(mem2, n1 as int),
        mem2.is_table(n1 as int),
        mem2.table(n1 as int) == mem1.table(n1 as int).update(i1, e),
        e.is_valid_spec(),
        e.ppn_spec() == q,
    ensures
        pt2.wf(mem2),
        forall|w: u64| #[trigger] lookup(mem2, pt1.root(), w) == lookup(mem1, pt1.root(), w),
        forall|w: u64|
            !(l2_idx(w) == i2 && l1_idx(w) == i1) ==> #[trigger] walk(mem2, pt1.root(), w)
                == walk(mem1, pt1.root(), w),
        child2(mem2, pt1.root(), i2, i1) == Some(q),
        forall|k: int| 0 <= k < 512 ==> #[trigger] child(mem2, pt1.root(), k) == child(
            mem1,
            pt1.root(),
            k,
        ),
        forall|k: int, l: int|
            0 <= k < 512 && 0 <= l < 512 && (k != i2 || l != i1) ==> #[trigger] child2(
                mem2,
                pt1.root(),
                k,
                l,
            ) == child2(mem1, pt1.root(), k, l),
{
    let root = pt1.root();
    lemma_owns_push(pt1, pt2, q);
    assert(n1 as int != root);
    assert(n1 != q);
    assert(mem1.is_table(n1 as int));
    // frames other than n1 are untouched.
    assert forall|n: int, l: int| n != n1 as int && 0 <= l < 512 implies #[trigger] child(
        mem2,
        n,
        l,
    ) == child(mem1, n, l) by {
        if mem1.contains(n) {
            assert(mem2.frame(n) == mem1.frame(n));
        }
    }
    assert forall|k: int| 0 <= k < 512 implies #[trigger] child(mem2, root, k) == child(
        mem1,
        root,
        k,
    ) by {}
    assert forall|l: int| 0 <= l < 512 implies #[trigger] child(mem2, q as int, l) is None by {
        assert(child(mem2, q as int, l) == child(mem1, q as int, l));
        assert(!mem1.table(q as int)[l].is_valid_spec());
    }
    assert(child(mem2, n1 as int, i1) == Some(q)) by {
        assert(mem2.table(n1 as int)[i1] == e);
    }
    assert(child2(mem2, root, i2, i1) == Some(q));
    assert forall|k: int, l: int|
        0 <= k < 512 && 0 <= l < 512 && (k != i2 || l != i1) implies #[trigger] child2(
        mem2,
        root,
        k,
        l,
    ) == child2(mem1, root, k, l) by {
        match child(mem1, root, k) {
            Some(m) => {
                if m == n1 {
                    assert(k == i2);
                    assert(l != i1);
                    assert(mem2.table(n1 as int)[l] == mem1.table(n1 as int)[l]);
                } else {
                    assert(child(mem2, m as int, l) == child(mem1, m as int, l));
                }
            },
            None => {},
        }
    }
    // walks away from the new path are unchanged; on it, the leaf is invalid.
    assert forall|w: u64|
        !(l2_idx(w) == i2 && l1_idx(w) == i1) implies #[trigger] walk(mem2, root, w) == walk(
        mem1,
        root,
        w,
    ) by {
        let i = l2_idx(w);
        let j = l1_idx(w);
        assert(0 <= i < 512 && 0 <= j < 512);
        assert(child2(mem2, root, i, j) == child2(mem1, root, i, j));
        match child2(mem1, root, i, j) {
            Some(n0) => {
                assert(n0 as int != root);
                assert(n0 != n1) by {
                    if n0 == n1 {
                        assert(child(mem1, root, i2) == Some(n0));
                    }
                }
                assert(mem2.frame(n0 as int) == mem1.frame(n0 as int));
            },
            None => {},
        }
    }
    assert forall|w: u64| #[trigger] lookup(mem2, root, w) == lookup(mem1, root, w) by {
        let i = l2_idx(w);
        let j = l1_idx(w);
        if i == i2 && j == i1 {
            assert(child2(mem1, root, i, j) is None);
            assert(walk(mem1, root, w) is None);
            assert(child2(mem2, root, i, j) == Some(q));
            assert(walk(mem2, root, w) == Some(mem2.table(q as int)[l0_idx(w)])) by {
                assert(mem2.frame(q as int) == mem1.frame(q as int));
            }
            assert(!mem2.table(q as int)[l0_idx(w)].is_valid_spec()) by {
                assert(mem2.table(q as int) == mem1.table(q as int));
                assert(0 <= l0_idx(w) < 512);
            }
        }
    }
    // the invariant holds again.
    assert(pt2.wf(mem2)) by {
        assert(mem2.is_table(root)) by {
            assert(mem2.frame(root) == mem1.frame(root));
        }
        assert(pt2.owns(root));
        assert forall|i: int|
            0 <= i < pt2.frames@.len() implies mem2.is_table(
            #[trigger] pt2.frames@[i].0.0 as int,
        ) by {
            if i < pt1.frames@.len() {
                assert(pt2.frames@[i] == pt1.frames@[i]);
                assert(mem1.is_table(pt1.frames@[i].0.0 as int));
                if pt1.frames@[i].0.0 as int != n1 as int {
                    assert(mem2.frame(pt1.frames@[i].0.0 as int) == mem1.frame(
                        pt1.frames@[i].0.0 as int,
                    ));
                }
            } else {
                assert(pt2.frames@[i].0.0 == q);
                assert(mem2.frame(q as int) == mem1.frame(q as int));
            }
        }
        assert forall|i: int, j: int|
            0 <= i < j < pt2.frames@.len() implies #[trigger] pt2.frames@[i].0.0
            != #[trigger] pt2.frames@[j].0.0 by {
            if j < pt1.frames@.len() {
                assert(pt2.frames@[i] == pt1.frames@[i] && pt2.frames@[j] == pt1.frames@[j]);
            } else {
                assert(pt2.frames@[j].0.0 == q);
                assert(pt2.frames@[i] == pt1.frames@[i]);
                if pt1.frames@[i].0.0 == q {
                    assert(pt1.owns(q as int));
                }
            }
        }
        assert forall|i: int| 0 <= i < 512 implies match #[trigger] child(mem2, root, i) {
            Some(m) => mem2.is_table(m as int) && pt2.owns(m as int) && m as int != root,
            None => true,
        } by {
            match child(mem1, root, i) {
                Some(m) => {
                    assert(m as int != root);
                    if m != n1 {
                        assert(mem2.frame(m as int) == mem1.frame(m as int));
                    }
                },
                None => {},
            }
        }
        assert forall|i: int, j: int|
            0 <= i < 512 && 0 <= j < 512 implies match #[trigger] child2(mem2, root, i, j) {
            Some(n0) => mem2.is_table(n0 as int) && pt2.owns(n0 as int) && n0 as int != root && (
            forall|k: int| 0 <= k < 512 ==> #[trigger] child(mem2, root, k) != Some(n0)),
            None => true,
        } by {
            if i == i2 && j == i1 {
                assert(child2(mem2, root, i, j) == Some(q));
                assert(mem2.is_table(q as int)) by {
                    assert(mem2.frame(q as int) == mem1.frame(q as int));
                }
                assert forall|k: int| 0 <= k < 512 implies #[trigger] child(mem2, root, k)
                    != Some(q) by {
                    assert(child(mem2, root, k) == child(mem1, root, k));
                    assert(child(mem1, root, k) != Some(q));
                }
            } else {
                assert(child2(mem2, root, i, j) == child2(mem1, root, i, j));
                match child2(mem1, root, i, j) {
                    Some(n0) => {
                        assert(n0 as int != root);
                        assert(n0 != n1) by {
                            if n0 == n1 {
                                assert(child(mem1, root, i2) == Some(n0));
                            }
                        }
                        assert(mem2.frame(n0 as int) == mem1.frame(n0 as int));
                        assert forall|k: int| 0 <= k < 512 implies #[trigger] child(
                            mem2,
                            root,
                            k,
                        ) != Some(n0) by {
                            assert(child(mem2, root, k) == child(mem1, root, k));
                            assert(child(mem1, root, k) != Some(n0));
                        }
                    },
                    None => {},
                }
            }
        }
        assert forall|i: int, j: int, k: int, l: int|
            0 <= i < 512 && 0 <= j < 512 && 0 <= k < 512 && 0 <= l < 512 && (i != k || j != l)
                && #[trigger] child2(mem2, root, i, j) is Some && #[trigger] child2(
                mem2,
                root,
                k,
                l,
            ) is Some implies child2(mem2, root, i, j) != child2(mem2, root, k, l) by {
            if i == i2 && j == i1 {
                assert(child2(mem2, root, i, j) == Some(q));
                assert(child2(mem2, root, k, l) == child2(mem1, root, k, l));
                assert(child2(mem1, root, k, l) != Some(q));
            } else if k == i2 && l == i1 {
                assert(child2(mem2, root, k, l) == Some(q));
                assert(child2(mem2, root, i, j) == child2(mem1, root, i, j));
                assert(child2(mem1, root, i, j) != Some(q));
            } else {
                assert(child2(mem2, root, i, j) == child2(mem1, root, i, j));
                assert(child2(mem2, root, k, l) == child2(mem1, root, k, l));
            }
        }
    }
}


/// Writing the leaf entry reached through `(i2, i1)` at index `i0`: the
/// invariant is untouched, the walk for page numbers with exactly those
/// three indexes now yields the new leaf, and every other walk is
/// unchanged.
proof fn lemma_leaf_write(
    pt: PageTable,
    mem1: PhysMemory,
    mem2: PhysMemory,
    i2: int,
    i1: int,
    i0: int,
    n0: u64,
    leaf: PageTableEntry,
)
    requires
        pt.wf(mem1),
        mem1.wf(),
        0 <= i2 < 512,
        0 <= i1 < 512,
        0 <= i0 < 512,
        child2(mem1, pt.root(), i2, i1) == Some(n0),
        mem1.same_except(mem2, n0 as int),
        mem2.is_table(n0 as int),
        mem2.table(n0 as int) == mem1.table(n0 as int).update(i0, leaf),
    ensures
        pt.wf(mem2),
        forall|w: u64|
            l2_idx(w) == i2 && l1_idx(w) == i1 && l0_idx(w) == i0 ==> #[trigger] walk(
                mem2,
                pt.root(),
                w,
            ) == Some(leaf),
        forall|w: u64|
            !(l2_idx(w) == i2 && l1_idx(w) == i1 && l0_idx(w) == i0) ==> #[trigger] walk(
                mem2,
                pt.root(),
                w,
            ) == walk(mem1, pt.root(), w),
        forall|k: int, l: int|
            0 <= k < 512 && 0 <= l < 512 ==> #[trigger] child2(mem2, pt.root(), k, l) == child2(
                mem1,
                pt.root(),
                k,
                l,
            ),
{
    let root = pt.root();
    assert(n0 as int != root);
    assert(mem1.is_table(n0 as int));
    assert(forall|k: int| 0 <= k < 512 ==> #[trigger] child(mem1, root, k) != Some(n0));
    // frames other than n0 are untouched.
    assert forall|n: int, l: int| n != n0 as int && 0 <= l < 512 implies #[trigger] child(
        mem2,
        n,
        l,
    ) == child(mem1, n, l) by {
        if mem1.contains(n) {
            assert(mem2.frame(n) == mem1.frame(n));
        }
    }
    assert forall|k: int| 0 <= k < 512 implies #[trigger] child(mem2, root, k) == child(
        mem1,
        root,
        k,
    ) by {}
    assert forall|k: int, l: int| 0 <= k < 512 && 0 <= l < 512 implies #[trigger] child2(
        mem2,
        root,
        k,
        l,
    ) == child2(mem1, root, k, l) by {
        match child(mem1, root, k) {
            Some(m) => {
                assert(m != n0);
                assert(child(mem2, m as int, l) == child(mem1, m as int, l));
            },
            None => {},
        }
    }
    assert forall|w: u64|
        l2_idx(w) == i2 && l1_idx(w) == i1 && l0_idx(w) == i0 implies #[trigger] walk(
        mem2,
        root,
        w,
    ) == Some(leaf) by {
        assert(child2(mem2, root, i2, i1) == Some(n0));
        assert(mem2.table(n0 as int)[i0] == leaf);
    }
    assert forall|w: u64|
        !(l2_idx(w) == i2 && l1_idx(w) == i1 && l0_idx(w) == i0) implies #[trigger] walk(
        mem2,
        root,
        w,
    ) == walk(mem1, root, w) by {
        let i = l2_idx(w);
        let j = l1_idx(w);
        let l = l0_idx(w);
        assert(0 <= i < 512 && 0 <= j < 512 && 0 <= l < 512);
        assert(child2(mem2, root, i, j) == child2(mem1, root, i, j));
        match child2(mem1, root, i, j) {
            Some(m) => {
                if m == n0 {
                    assert(i == i2 && j == i1) by {
                        if i != i2 || j != i1 {
                            assert(child2(mem1, root, i, j) != child2(mem1, root, i2, i1));
                        }
                    }
                    assert(l != i0);
                    assert(mem2.table(n0 as int)[l] == mem1.table(n0 as int)[l]);
                } else {
                    assert(mem2.frame(m as int) == mem1.frame(m as int));
                }
            },
            None => {},
        }
    }
    // the invariant holds again: no directory link changed, and the leaf
    // directory is still a directory.
    assert(pt.wf(mem2)) by {
        assert(mem2.is_table(root)) by {
            assert(mem2.frame(root) == mem1.frame(root));
        }
        assert forall|i: int|
            0 <= i < pt.frames@.len() implies mem2.is_table(
            #[trigger] pt.frames@[i].0.0 as int,
        ) by {
            assert(mem1.is_table(pt.frames@[i].0.0 as int));
            if pt.frames@[i].0.0 as int != n0 as int {
                assert(mem2.frame(pt.frames@[i].0.0 as int) == mem1.frame(
                    pt.frames@[i].0.0 as int,
                ));
            }
        }
        assert forall|i: int| 0 <= i < 512 implies match #[trigger] child(mem2, root, i) {
            Some(m) => mem2.is_table(m as int) && pt.owns(m as int) && m as int != root,
            None => true,
        } by {
            match child(mem1, root, i) {
                Some(m) => {
                    assert(m != n0);
                    assert(mem2.frame(m as int) == mem1.frame(m as int));
                },
                None => {},
            }
        }
        assert forall|i: int, j: int|
            0 <= i < 512 && 0 <= j < 512 implies match #[trigger] child2(mem2, root, i, j) {
            Some(m) => mem2.is_table(m as int) && pt.owns(m as int) && m as int != root && (forall|
                k: int,
            | 0 <= k < 512 ==> #[trigger] child(mem2, root, k) != Some(m)),
            None => true,
        } by {
            assert(child2(mem2, root, i, j) == child2(mem1, root, i, j));
            match child2(mem1, root, i, j) {
                Some(m) => {
                    if m != n0 {
                        assert(mem2.frame(m as int) == mem1.frame(m as int));
                    }
                    assert(mem2.is_table(m as int));
                    assert forall|k: int| 0 <= k < 512 implies #[trigger] child(mem2, root, k)
                        != Some(m) by {
                        assert(child(mem2, root, k) == child(mem1, root, k));
                        assert(child(mem1, root, k) != Some(m));
                    }
                },
                None => {},
            }
        }
        assert forall|i: int, j: int, k: int, l: int|
            0 <= i < 512 && 0 <= j < 512 && 0 <= k < 512 && 0 <= l < 512 && (i != k || j != l)
                && #[trigger] child2(mem2, root, i, j) is Some && #[trigger] child2(
                mem2,
                root,
                k,
                l,
            ) is Some implies child2(mem2, root, i, j) != child2(mem2, root, k, l) by {
            assert(child2(mem2, root, i, j) == child2(mem1, root, i, j));
            assert(child2(mem2, root, k, l) == child2(mem1, root, k, l));
        }
    }
}


/// Allocate one fresh frame and shape it into an empty directory frame.
/// The frame was free, so the table `pt` neither owns nor references it,
/// and no walk through `pt` changes.
fn alloc_table_frame(
    mem: &mut PhysMemory,
    fa: &mut StackFrameAllocator,
    Ghost(pt): Ghost<PageTable>,
) -> (p: PhysPageNum)
    requires
        pt.wf(*old(mem)),
        old(fa).wf(*old(mem)),
        old(fa).free_count() >= 1,
    ensures
        pt.wf(*final(mem)),
        final(fa).wf(*final(mem)),
        final(fa).end == old(fa).end,
        final(fa).free_count() == old(fa).free_count() - 1,
        old(mem).same_except(*final(mem), p.0 as int),
        old(mem).is_free(p.0 as int),
        final(mem).is_table(p.0 as int),
        forall|i: int| 0 <= i < 512 ==> !final(mem).table(p.0 as int)[i].is_valid_spec(),
        p.0 < PPN_BOUND,
        p.0 as int != pt.root(),
        !pt.owns(p.0 as int),
        forall|k: int| 0 <= k < 512 ==> #[trigger] child(*final(mem), pt.root(), k) != Some(p.0),
        forall|k: int, l: int|
            0 <= k < 512 && 0 <= l < 512 ==> #[trigger] child2(*final(mem), pt.root(), k, l)
                != Some(p.0),
        forall|w: u64| #[trigger] walk(*final(mem), pt.root(), w) == walk(*old(mem), pt.root(), w),
{
    let ghost m0 = *mem;
    let page: PhysPageNum = match fa.alloc_page(mem) {
        Some(pg) => pg,
        None => {
            proof {
                assert(false);
            }
            PhysPageNum(0)
        },
    };
    let ghost m1 = *mem;
    proof {
        lemma_free_frame_unreferenced(pt, m0, page.0 as int);
        lemma_unreferenced_frame_update(pt, m0, m1, page.0 as int);
    }
    mem.set_table(page.0);
    let ghost m2 = *mem;
    proof {
        assert forall|i: int| 0 <= i < 512 implies !m2.table(page.0 as int)[i].is_valid_spec() by {
            assert(m2.table(page.0 as int)[i].bits == 0);
        }
        assert forall|k: int| 0 <= k < 512 implies #[trigger] child(m1, pt.root(), k) != Some(
            page.0,
        ) by {
            assert(child(m1, pt.root(), k) == child(m0, pt.root(), k));
        }
        assert forall|k: int, l: int| 0 <= k < 512 && 0 <= l < 512 implies #[trigger] child2(
            m1,
            pt.root(),
            k,
            l,
        ) != Some(page.0) by {
            assert(child2(m1, pt.root(), k, l) == child2(m0, pt.root(), k, l));
        }
        lemma_unreferenced_frame_update(pt, m1, m2, page.0 as int);
        crate::mm::frame_allocator::lemma_fa_wf_nonfree_update(*fa, m1, m2, page.0 as int);
        assert forall|k: int| 0 <= k < 512 implies #[trigger] child(m2, pt.root(), k) != Some(
            page.0,
        ) by {
            assert(child(m2, pt.root(), k) == child(m1, pt.root(), k));
        }
        assert forall|k: int, l: int| 0 <= k < 512 && 0 <= l < 512 implies #[trigger] child2(
            m2,
            pt.root(),
            k,
            l,
        ) != Some(page.0) by {
            assert(child2(m2, pt.root(), k, l) == child2(m1, pt.root(), k, l));
        }
    }
    page
}


impl PageTable {
    /// Install the leaf mapping `vpn -> ppn` with permission `flags` plus
    /// the Valid bit, allocating missing directory frames on the way down.
    /// The page number must not be validly mapped yet: a mapping conflict
    /// is a kernel bug, not an input. Every other translation of this
    /// table is unchanged, and the only frames touched are this table's
    /// own directories and freshly allocated frames.
    #[verifier::rlimit(100)]
    #[verifier::spinoff_prover]
    pub fn map(
        &mut self,
        mem: &mut PhysMemory,
        fa: &mut StackFrameAllocator,
        vpn: VirtPageNum,
        ppn: PhysPageNum,
        flags: u8,
    )
        requires
            old(self).wf(*old(mem)),
            old(fa).wf(*old(mem)),
            vpn.0 < VPN_BOUND,
            ppn.0 < PPN_BOUND,
            flags % 2 == 0,
            old(fa).free_count() >= 2 || child2(
                *old(mem),
                old(self).root(),
                l2_idx(vpn.0),
                l1_idx(vpn.0),
            ) is Some,
            lookup(*old(mem), old(self).root(), vpn.0) is None,
        ensures
            final(self).wf(*final(mem)),
            final(fa).wf(*final(mem)),
            final(self).root_ppn == old(self).root_ppn,
            final(fa).end == old(fa).end,
            final(mem).base_spec() == old(mem).base_spec(),
            final(mem).end_spec() == old(mem).end_spec(),
            old(fa).free_count() - 2 <= final(fa).free_count() <= old(fa).free_count(),
            lookup(*final(mem), old(self).root(), vpn.0) matches Some(l) && l.ppn_spec() == ppn.0
                && l.flags_spec() == flags + 1,
            forall|w: u64|
                w < VPN_BOUND && w != vpn.0 ==> #[trigger] lookup(*final(mem), old(self).root(), w)
                    == lookup(*old(mem), old(self).root(), w),
            forall|q: int|
                old(mem).contains(q) && #[trigger] final(mem).frame(q) != old(mem).frame(q) ==> old(
                    mem,
                ).frame(q) is Free || old(self).owns(q),
            forall|q: int|
                #[trigger] final(self).owns(q) ==> old(self).owns(q) || old(mem).frame(q) is Free,
            forall|q: int| old(self).owns(q) ==> #[trigger] final(self).owns(q),
            child2(*final(mem), old(self).root(), l2_idx(vpn.0), l1_idx(vpn.0)) is Some,
            child2(*old(mem), old(self).root(), l2_idx(vpn.0), l1_idx(vpn.0)) is Some ==> final(fa).free_count() == old(fa).free_count(),
    {
        let idx = vpn.indexes();
        let root = self.root_ppn;
        let ghost m0 = *mem;
        let ghost pt0 = *self;
        let ghost i2 = idx[2] as int;
        let ghost i1 = idx[1] as int;
        let ghost i0 = idx[0] as int;
        // ----- level 2: find or create the mid-level directory.
        let e2 = mem.read_pte(root.0, idx[2]);
        let n1: PhysPageNum;
        if !e2.is_valid() {
            proof {
                assert(child(m0, pt0.root(), i2) is None);
            }
            let page = alloc_table_frame(mem, fa, Ghost(pt0));
            let ghost m2 = *mem;
            let e = PageTableEntry::new(page, PTE_V);
            mem.write_pte(root.0, idx[2], e);
            self.frames.push(FrameTracker::new(page));
            let ghost m3 = *mem;
            proof {
                assert(child(m2, pt0.root(), i2) is None) by {
                    assert(child(m2, pt0.root(), i2) == child(m0, pt0.root(), i2)) by {
                        assert(walk(m2, pt0.root(), vpn.0) == walk(m0, pt0.root(), vpn.0));
                        assert(m2.frame(pt0.root()) == m0.frame(pt0.root()));
                    }
                }
                lemma_link_root_child(pt0, *self, m2, m3, page.0, i2, e);
                crate::mm::frame_allocator::lemma_fa_wf_nonfree_update(
                    *fa,
                    m2,
                    m3,
                    pt0.root(),
                );
                lemma_owns_push(pt0, *self, page.0);
                assert forall|w: u64| #[trigger] lookup(m3, pt0.root(), w) == lookup(
                    m0,
                    pt0.root(),
                    w,
                ) by {
                    assert(walk(m3, pt0.root(), w) == walk(m2, pt0.root(), w));
                    assert(walk(m2, pt0.root(), w) == walk(m0, pt0.root(), w));
                }
            }
            n1 = page;
        } else {
            n1 = e2.ppn();
            proof {
                assert(child(m0, pt0.root(), i2) == Some(n1.0));
            }
        }
        let ghost ma = *mem;
        let ghost pta = *self;
        proof {
            assert(pta.wf(ma));
            assert(fa.wf(ma));
            assert(child(ma, pt0.root(), i2) == Some(n1.0));
            assert(forall|w: u64| #[trigger] lookup(ma, pt0.root(), w) == lookup(
                m0,
                pt0.root(),
                w,
            ));
            assert(forall|q: int|
                m0.contains(q) && #[trigger] ma.frame(q) != m0.frame(q) ==> m0.frame(q) is Free
                    || pt0.owns(q));
            assert(forall|q: int| #[trigger] pta.owns(q) ==> pt0.owns(q) || m0.frame(q) is Free);
            assert(forall|q: int| pt0.owns(q) ==> #[trigger] pta.owns(q));
        }
        // ----- level 1: find or create the leaf directory.
        let e1 = mem.read_pte(n1.0, idx[1]);
        let n0: PhysPageNum;
        if !e1.is_valid() {
            proof {
                assert(child(ma, n1.0 as int, i1) is None);
            }
            let page = alloc_table_frame(mem, fa, Ghost(pta));
            let ghost m2 = *mem;
            let e = PageTableEntry::new(page, PTE_V);
            mem.write_pte(n1.0, idx[1], e);
            self.frames.push(FrameTracker::new(page));
            let ghost m3 = *mem;
            proof {
                assert(child(m2, pta.root(), i2) == Some(n1.0)) by {
                    assert(m2.frame(pta.root()) == ma.frame(pta.root())) by {
                        assert(pta.root() != page.0 as int);
                    }
                }
                assert(child(m2, n1.0 as int, i1) is None) by {
                    assert(m2.frame(n1.0 as int) == ma.frame(n1.0 as int)) by {
                        assert(n1.0 as int != page.0 as int) by {
                            assert(child(ma, pta.root(), i2) == Some(n1.0));
                            assert(ma.is_table(n1.0 as int));
                            assert(ma.is_free(page.0 as int));
                        }
                    }
                }
                lemma_link_mid_child(pta, *self, m2, m3, i2, n1.0, i1, page.0, e);
                crate::mm::frame_allocator::lemma_fa_wf_nonfree_update(
                    *fa,
                    m2,
                    m3,
                    n1.0 as int,
                );
                lemma_owns_push(pta, *self, page.0);
                assert forall|w: u64| #[trigger] lookup(m3, pta.root(), w) == lookup(
                    ma,
                    pta.root(),
                    w,
                ) by {
                    assert(lookup(m3, pta.root(), w) == lookup(m2, pta.root(), w));
                    assert(walk(m2, pta.root(), w) == walk(ma, pta.root(), w));
                }
            }
            n0 = page;
        } else {
            n0 = e1.ppn();
            proof {
                assert(child(ma, n1.0 as int, i1) == Some(n0.0));
                assert(child2(ma, pta.root(), i2, i1) == Some(n0.0));
            }
        }
        let ghost mb = *mem;
        let ghost ptb = *self;
        proof {
            assert(ptb.wf(mb));
            assert(fa.wf(mb));
            assert(child2(mb, pt0.root(), i2, i1) == Some(n0.0));
            assert(forall|w: u64| #[trigger] lookup(mb, pt0.root(), w) == lookup(
                m0,
                pt0.root(),
                w,
            ));
            assert(forall|q: int|
                m0.contains(q) && #[trigger] mb.frame(q) != m0.frame(q) ==> m0.frame(q) is Free
                    || pt0.owns(q));
            assert(forall|q: int| #[trigger] ptb.owns(q) ==> pt0.owns(q) || m0.frame(q) is Free);
            assert(forall|q: int| pta.owns(q) ==> #[trigger] ptb.owns(q));
        }
        // ----- leaf: install the mapping.
        proof {
            lemma_or_valid_flag(flags);
        }
        let leaf = PageTableEntry::new(ppn, flags | PTE_V);
        mem.write_pte(n0.0, idx[0], leaf);
        let ghost mf = *mem;
        proof {
            lemma_leaf_write(ptb, mb, mf, i2, i1, i0, n0.0, leaf);
            crate::mm::frame_allocator::lemma_fa_wf_nonfree_update(*fa, mb, mf, n0.0 as int);
            assert(ptb.root() == pt0.root());
            assert(l0_idx(vpn.0) == i0 && l1_idx(vpn.0) == i1 && l2_idx(vpn.0) == i2);
            assert(walk(mf, pt0.root(), vpn.0) == Some(leaf));
            assert(leaf.is_valid_spec());
            assert forall|w: u64| w < VPN_BOUND && w != vpn.0 implies #[trigger] lookup(
                mf,
                pt0.root(),
                w,
            ) == lookup(m0, pt0.root(), w) by {
                if l0_idx(w) == i0 && l1_idx(w) == i1 && l2_idx(w) == i2 {
                    assert(w as int % 512 == vpn.0 as int % 512);
                    assert((w as int / 512) % 512 == (vpn.0 as int / 512) % 512);
                    assert((w as int / 262144) % 512 == (vpn.0 as int / 262144) % 512);
                    lemma_vpn_from_indexes(w, vpn.0);
                    assert(false);
                } else {
                    assert(walk(mf, ptb.root(), w) == walk(mb, ptb.root(), w));
                    assert(lookup(mf, pt0.root(), w) == lookup(mb, pt0.root(), w));
                    assert(lookup(mb, pt0.root(), w) == lookup(m0, pt0.root(), w));
                }
            }
            assert forall|q: int|
                m0.contains(q) && #[trigger] mf.frame(q) != m0.frame(q) implies m0.frame(
                q,
            ) is Free || pt0.owns(q) by {
                if mb.frame(q) != m0.frame(q) {
                } else {
                    assert(q == n0.0 as int);
                    assert(ptb.owns(q));
                    if !pt0.owns(q) {
                        assert(m0.frame(q) is Free);
                    }
                }
            }
            assert(child2(mf, pt0.root(), i2, i1) == child2(mb, pt0.root(), i2, i1));
            assert(child2(mf, pt0.root(), i2, i1) is Some);
            if child2(m0, pt0.root(), i2, i1) is Some {
                assert(child(m0, pt0.root(), i2) is Some);
                assert(fa.free_count() == old(fa).free_count());
            }
        }
    }
}


impl PageTable {
    /// A fresh table: one owned, empty root directory; every translation
    /// is absent.
    pub fn new(mem: &mut PhysMemory, fa: &mut StackFrameAllocator) -> (r: Self)
        requires
            old(fa).wf(*old(mem)),
            old(fa).free_count() >= 1,
        ensures
            r.wf(*final(mem)),
            final(fa).wf(*final(mem)),
            final(fa).end == old(fa).end,
            final(fa).free_count() == old(fa).free_count() - 1,
            old(mem).is_free(r.root()),
            old(mem).same_except(*final(mem), r.root()),
            r.root_ppn.0 < PPN_BOUND,
            forall|w: u64| #[trigger] lookup(*final(mem), r.root(), w) is None,
            forall|q: int| #[trigger] r.owns(q) <==> q == r.root(),
    {
        let page: PhysPageNum = match fa.alloc_page(mem) {
            Some(pg) => pg,
            None => {
                proof {
                    assert(false);
                }
                PhysPageNum(0)
            },
        };
        let ghost m1 = *mem;
        mem.set_table(page.0);
        proof {
            crate::mm::frame_allocator::lemma_fa_wf_nonfree_update(*fa, m1, *mem, page.0 as int);
        }
        let mut frames: Vec<FrameTracker> = Vec::new();
        frames.push(FrameTracker::new(page));
        let r = PageTable { root_ppn: page, frames };
        proof {
            let m2 = *mem;
            assert(r.owns(r.root())) by {
                assert(r.frames@[0].0.0 == page.0);
            }
            assert forall|q: int| #[trigger] r.owns(q) implies q == r.root() by {
                let i = choose|i: int| 0 <= i < r.frames@.len() && r.frames@[i].0.0 == q;
            }
            assert forall|i: int| 0 <= i < 512 implies (#[trigger] child(
                m2,
                r.root(),
                i,
            )) is None by {
                assert(m2.table(r.root())[i].bits == 0);
            }
            assert(r.wf(m2));
            assert forall|w: u64| #[trigger] lookup(m2, r.root(), w) is None by {
                assert(0 <= l2_idx(w) < 512);
                assert(child(m2, r.root(), l2_idx(w)) is None);
            }
        }
        r
    }

    /// A non-owning view of an existing table, rebuilt from a SATP token:
    /// translation works, but this value owns no frames and must never be
    /// used to free any.
    pub fn from_token(satp: u64) -> (r: Self)
        ensures
            r.root_ppn.0 == satp as int % PPN_BOUND as int,
            r.frames@.len() == 0,
    {
        PageTable { root_ppn: PhysPageNum::from_usize(satp), frames: Vec::new() }
    }

    /// The SATP value that activates this table: mode SV39 over the root
    /// page number.
    pub fn token(&self) -> (r: u64)
        requires
            self.root_ppn.0 < PPN_BOUND,
        ensures
            r == self.root_ppn.0 + SATP_MODE_SV39,
            r as int % PPN_BOUND as int == self.root_ppn.0,
    {
        proof {
            lemma_token_bits(self.root_ppn.0);
        }
        self.root_ppn.0 | SATP_MODE_SV39
    }

    /// Walk the three levels without mutating anything; the result is the
    /// leaf entry if every directory on the path exists, whether or not
    /// the leaf is valid.
    fn find_pte(&self, mem: &PhysMemory, vpn: VirtPageNum) -> (r: Option<PageTableEntry>)
        ensures
            r == walk(*mem, self.root(), vpn.0),
    {
        let idx = vpn.indexes();
        if !mem.check_table(self.root_ppn.0) {
            return None;
        }
        let e2 = mem.read_pte(self.root_ppn.0, idx[2]);
        if !e2.is_valid() {
            return None;
        }
        let n1 = e2.ppn();
        if !mem.check_table(n1.0) {
            return None;
        }
        let e1 = mem.read_pte(n1.0, idx[1]);
        if !e1.is_valid() {
            return None;
        }
        let n0 = e1.ppn();
        if !mem.check_table(n0.0) {
            return None;
        }
        Some(mem.read_pte(n0.0, idx[0]))
    }

    /// The leaf entry reached for `vpn`, if the directories on its path
    /// exist.
    pub fn translate(&self, mem: &PhysMemory, vpn: VirtPageNum) -> (r: Option<PageTableEntry>)
        ensures
            r == walk(*mem, self.root(), vpn.0),
    {
        self.find_pte(mem, vpn)
    }

    /// Remove the leaf mapping of `vpn` by clearing its entry. The page
    /// number must be validly mapped: unmapping an absent page is a
    /// kernel bug, not an input. Every other translation is unchanged and
    /// only this table's own directories are touched.
    pub fn unmap(&self, mem: &mut PhysMemory, vpn: VirtPageNum)
        requires
            self.wf(*old(mem)),
            old(mem).wf(),
            vpn.0 < VPN_BOUND,
            lookup(*old(mem), self.root(), vpn.0) is Some,
        ensures
            self.wf(*final(mem)),
            final(mem).base_spec() == old(mem).base_spec(),
            final(mem).end_spec() == old(mem).end_spec(),
            lookup(*final(mem), self.root(), vpn.0) is None,
            forall|w: u64|
                w < VPN_BOUND && w != vpn.0 ==> #[trigger] lookup(*final(mem), self.root(), w)
                    == lookup(*old(mem), self.root(), w),
            forall|q: int|
                old(mem).contains(q) && #[trigger] final(mem).frame(q) != old(mem).frame(q)
                    ==> self.owns(q),
    {
        let idx = vpn.indexes();
        let ghost m0 = *mem;
        let ghost i2 = idx[2] as int;
        let ghost i1 = idx[1] as int;
        let ghost i0 = idx[0] as int;
        let e2 = mem.read_pte(self.root_ppn.0, idx[2]);
        let n1 = e2.ppn();
        proof {
            assert(child(m0, self.root(), i2) == Some(n1.0));
        }
        let e1 = mem.read_pte(n1.0, idx[1]);
        let n0 = e1.ppn();
        proof {
            assert(child(m0, n1.0 as int, i1) == Some(n0.0));
            assert(child2(m0, self.root(), i2, i1) == Some(n0.0));
        }
        mem.write_pte(n0.0, idx[0], PageTableEntry::empty());
        proof {
            let mf = *mem;
            let leaf = PageTableEntry { bits: 0 };
            lemma_leaf_write(*self, m0, mf, i2, i1, i0, n0.0, leaf);
            assert(l0_idx(vpn.0) == i0 && l1_idx(vpn.0) == i1 && l2_idx(vpn.0) == i2);
            assert(walk(mf, self.root(), vpn.0) == Some(leaf));
            assert forall|w: u64| w < VPN_BOUND && w != vpn.0 implies #[trigger] lookup(
                mf,
                self.root(),
                w,
            ) == lookup(m0, self.root(), w) by {
                if l0_idx(w) == i0 && l1_idx(w) == i1 && l2_idx(w) == i2 {
                    lemma_vpn_from_indexes(w, vpn.0);
                    assert(false);
                } else {
                    assert(walk(mf, self.root(), w) == walk(m0, self.root(), w));
                }
            }
            assert forall|q: int|
                m0.contains(q) && #[trigger] mf.frame(q) != m0.frame(q) implies self.owns(q) by {
                assert(q == n0.0 as int);
            }
        }
    }
}


/// Changing the contents of a frame that is not (and does not become) a
/// directory frame leaves a table's invariant and every walk through it
/// unchanged.
pub proof fn lemma_nondir_frame_update(
    pt: PageTable,
    mem1: PhysMemory,
    mem2: PhysMemory,
    p: int,
)
    requires
        pt.wf(mem1),
        mem1.wf(),
        0 <= p < PPN_BOUND,
        !mem1.is_table(p),
        !mem2.is_table(p),
        mem1.same_except(mem2, p),
    ensures
        pt.wf(mem2),
        forall|w: u64| #[trigger] walk(mem2, pt.root(), w) == walk(mem1, pt.root(), w),
        forall|w: u64| #[trigger] lookup(mem2, pt.root(), w) == lookup(mem1, pt.root(), w),
        forall|k: int, l: int|
            0 <= k < 512 && 0 <= l < 512 ==> #[trigger] child2(mem2, pt.root(), k, l) == child2(
                mem1,
                pt.root(),
                k,
                l,
            ),
{
    lemma_free_frame_unreferenced(pt, mem1, p);
    lemma_unreferenced_frame_update(pt, mem1, mem2, p);
}


/// The byte that user virtual address `va` reaches under root `root`: the
/// walk must yield a valid leaf whose frame is a data frame of the pool.
pub open spec fn translated_byte(mem: PhysMemory, root: int, va: u64) -> Option<u8> {
    let vpn = (va as int / 4096) as u64;
    match lookup(mem, root, vpn) {
        Some(e) => if mem.is_data(e.ppn_spec() as int) {
            Some(mem.data(e.ppn_spec() as int)[va as int % 4096])
        } else {
            None
        },
        None => None,
    }
}

/// Gather the `len` bytes at user range `[ptr, ptr + len)` of the address
/// space named by `token`, reading through its page table; nothing if any
/// page of the range is unmapped or not backed by a pool data frame.
pub fn translated_byte_buffer(mem: &PhysMemory, token: u64, ptr: u64, len: u64) -> (r: Option<
    Vec<u8>,
>)
    requires
        ptr + len < crate::mm::address::VA_BOUND,
    ensures
        r is Some <==> (forall|k: int|
            0 <= k < len ==> #[trigger] translated_byte(
                *mem,
                (token as int % PPN_BOUND as int) as int,
                (ptr + k) as u64,
            ) is Some),
        r matches Some(v) ==> v@.len() == len && (forall|k: int|
            0 <= k < len ==> #[trigger] v@[k] == translated_byte(
                *mem,
                (token as int % PPN_BOUND as int) as int,
                (ptr + k) as u64,
            )->Some_0),
{
    let page_table = PageTable::from_token(token);
    let ghost root = token as int % PPN_BOUND as int;
    let mut v: Vec<u8> = Vec::new();
    let mut k: u64 = 0;
    while k < len
        invariant
            0 <= k <= len,
            ptr + len < crate::mm::address::VA_BOUND,
            page_table.root() == token as int % PPN_BOUND as int,
            root == token as int % PPN_BOUND as int,
            v@.len() == k,
            forall|j: int|
                0 <= j < k ==> #[trigger] translated_byte(*mem, root, (ptr + j) as u64) is Some,
            forall|j: int|
                0 <= j < k ==> #[trigger] v@[j] == translated_byte(
                    *mem,
                    root,
                    (ptr + j) as u64,
                )->Some_0,
        decreases len - k,
    {
        let va = crate::mm::address::VirtAddr(ptr + k);
        let vpn = va.floor();
        let fail: bool;
        match page_table.translate(mem, vpn) {
            Some(pte) => {
                if pte.is_valid() {
                    let p = pte.ppn();
                    if mem.check_data(p.0) {
                        let off = va.page_offset();
                        v.push(mem.read_byte(p.0, off as usize));
                        fail = false;
                    } else {
                        fail = true;
                    }
                } else {
                    fail = true;
                }
            },
            None => {
                fail = true;
            },
        }
        if fail {
            proof {
                assert(translated_byte(*mem, root, (ptr + k) as u64) is None);
            }
            return None;
        }
        proof {
            assert(translated_byte(*mem, root, (ptr + k) as u64) is Some);
        }
        k = k + 1;
    }
    Some(v)
}

/// Write `data` to the user range starting at `ptr` of the address space
/// named by `token`, through possibly non-contiguous physical pages.
/// Nothing is written and `false` comes back if any page of the range is
/// unmapped or not backed by a pool data frame; only pool data frames are
/// ever written.
pub fn translated_write_buffer(
    mem: &mut PhysMemory,
    token: u64,
    ptr: u64,
    data: &Vec<u8>,
) -> (r: bool)
    requires
        ptr + data@.len() < crate::mm::address::VA_BOUND,
    ensures
        final(mem).base_spec() == old(mem).base_spec(),
        final(mem).end_spec() == old(mem).end_spec(),
        r == (forall|k: int|
            0 <= k < data@.len() ==> #[trigger] translated_byte(
                *old(mem),
                (token as int % PPN_BOUND as int) as int,
                (ptr + k) as u64,
            ) is Some),
        !r ==> *final(mem) == *old(mem),
        forall|q: int|
            old(mem).contains(q) && #[trigger] final(mem).frame(q) != old(mem).frame(q) ==> old(
                mem,
            ).is_data(q) && final(mem).is_data(q) && final(mem).data(q).len() == old(mem).data(
                q,
            ).len(),
        r ==> forall|k: int|
            0 <= k < data@.len() ==> #[trigger] translated_byte(
                *final(mem),
                (token as int % PPN_BOUND as int) as int,
                (ptr + k) as u64,
            ) is Some,
        r && data@.len() <= FRAME_BYTES ==> forall|k: int|
            0 <= k < data@.len() ==> #[trigger] translated_byte(
                *final(mem),
                (token as int % PPN_BOUND as int) as int,
                (ptr + k) as u64,
            ) == Some(data@[k]),
{
    let dlen: usize = data.len();
    match translated_byte_buffer(mem, token, ptr, dlen as u64) {
        Some(_) => {},
        None => {
            return false;
        },
    }
    let page_table = PageTable::from_token(token);
    let ghost root = token as int % PPN_BOUND as int;
    let ghost m0 = *mem;
    let mut k: usize = 0;
    while k < dlen
        invariant
            0 <= k <= dlen,
            dlen == data@.len(),
            ptr + dlen < crate::mm::address::VA_BOUND,
            page_table.root() == token as int % PPN_BOUND as int,
            root == token as int % PPN_BOUND as int,
            m0.base_spec() == mem.base_spec(),
            m0.end_spec() == mem.end_spec(),
            forall|j: int|
                0 <= j < dlen ==> #[trigger] translated_byte(*mem, root, (ptr + j) as u64) is Some,
            dlen <= FRAME_BYTES ==> forall|j: int|
                0 <= j < k ==> #[trigger] translated_byte(*mem, root, (ptr + j) as u64) == Some(
                    data@[j],
                ),
            forall|q: int|
                m0.contains(q) && #[trigger] mem.frame(q) != m0.frame(q) ==> m0.is_data(q)
                    && mem.is_data(q) && mem.data(q).len() == m0.data(q).len(),
        decreases dlen - k,
    {
        let ghost m_pre = *mem;
        let va = crate::mm::address::VirtAddr(ptr + k as u64);
        let vpn = va.floor();
        match page_table.translate(mem, vpn) {
            Some(pte) => {
                if pte.is_valid() {
                    let p = pte.ppn();
                    if mem.check_data(p.0) {
                        let off = va.page_offset();
                        mem.write_byte(p.0, off as usize, data[k]);
                        proof {
                            assert forall|j: int|
                                0 <= j < dlen implies #[trigger] translated_byte(
                                *mem,
                                root,
                                (ptr + j) as u64,
                            ) is Some by {
                                assert(translated_byte(m_pre, root, (ptr + j) as u64) is Some);
                                let vj = (ptr + j) as u64;
                                let vpnj = (vj as int / 4096) as u64;
                                assert(lookup(*mem, root, vpnj) == lookup(m_pre, root, vpnj)) by {
                                    assert(!m_pre.is_table(p.0 as int));
                                    assert(!mem.is_table(p.0 as int));
                                    lemma_walks_table_only(m_pre, *mem, root, p.0 as int, vpnj);
                                }
                                match lookup(m_pre, root, vpnj) {
                                    Some(e) => {
                                        assert(m_pre.is_data(e.ppn_spec() as int));
                                        if e.ppn_spec() == p.0 {
                                            assert(mem.is_data(e.ppn_spec() as int));
                                        } else {
                                            assert(mem.frame(e.ppn_spec() as int) == m_pre.frame(
                                                e.ppn_spec() as int,
                                            ));
                                        }
                                    },
                                    None => {},
                                }
                            }
                            if dlen <= FRAME_BYTES {
                                assert forall|j: int|
                                    0 <= j < k + 1 implies #[trigger] translated_byte(
                                    *mem,
                                    root,
                                    (ptr + j) as u64,
                                ) == Some(data@[j]) by {
                                    let vj = (ptr + j) as u64;
                                    let vpnj = (vj as int / 4096) as u64;
                                    assert(lookup(*mem, root, vpnj) == lookup(m_pre, root, vpnj))
                                        by {
                                        lemma_walks_table_only(
                                            m_pre,
                                            *mem,
                                            root,
                                            p.0 as int,
                                            vpnj,
                                        );
                                    }
                                    if j < k {
                                        assert(translated_byte(m_pre, root, vj) == Some(
                                            data@[j],
                                        ));
                                        match lookup(m_pre, root, vpnj) {
                                            Some(e) => {
                                                let f = e.ppn_spec() as int;
                                                assert(m_pre.is_data(f));
                                                if f == p.0 as int {
                                                    lemma_offset_distinct(
                                                        ptr as int,
                                                        j,
                                                        k as int,
                                                    );
                                                    assert(vj as int % 4096 != va.0 as int
                                                        % 4096);
                                                    assert(mem.data(f)[vj as int % 4096]
                                                        == m_pre.data(f)[vj as int % 4096]);
                                                } else {
                                                    assert(mem.frame(f) == m_pre.frame(f));
                                                }
                                            },
                                            None => {},
                                        }
                                    } else {
                                        assert(j == k);
                                        assert(lookup(m_pre, root, vpnj) == Some(pte));
                                        assert(mem.data(p.0 as int)[va.0 as int % 4096]
                                            == data@[k as int]);
                                    }
                                }
                            }
                        }
                    } else {
                        proof {
                            let j = k as int;
                            assert(translated_byte(*mem, root, (ptr + j) as u64) is Some);
                            assert((ptr + j) as u64 == va.0);
                            assert(false);
                        }
                    }
                } else {
                    proof {
                        let j = k as int;
                        assert(translated_byte(*mem, root, (ptr + j) as u64) is Some);
                        assert((ptr + j) as u64 == va.0);
                        assert(false);
                    }
                }
            },
            None => {
                proof {
                    let j = k as int;
                    assert(translated_byte(*mem, root, (ptr + j) as u64) is Some);
                    assert((ptr + j) as u64 == va.0);
                    assert(false);
                }
            },
        }
        k = k + 1;
    }
    true
}

/// A walk only reads directory frames, so changing a non-directory frame
/// leaves it unchanged — even without any table invariant.
proof fn lemma_walks_table_only(m1: PhysMemory, m2: PhysMemory, root: int, p: int, vpn: u64)
    requires
        m1.same_except(m2, p),
        !m1.is_table(p),
        !m2.is_table(p),
    ensures
        walk(m2, root, vpn) == walk(m1, root, vpn),
        lookup(m2, root, vpn) == lookup(m1, root, vpn),
{
    assert forall|n: int, i: int| 0 <= i < 512 implies #[trigger] child(m2, n, i) == child(
        m1,
        n,
        i,
    ) by {
        if n == p {
        } else {
            if m1.contains(n) {
                assert(m2.frame(n) == m1.frame(n));
            }
        }
    }
    let i = l2_idx(vpn);
    let j = l1_idx(vpn);
    assert(0 <= i < 512 && 0 <= j < 512);
    assert(child(m2, root, i) == child(m1, root, i));
    match child(m1, root, i) {
        Some(n1) => {
            assert(child(m2, n1 as int, j) == child(m1, n1 as int, j));
            match child(m1, n1 as int, j) {
                Some(n0) => {
                    if n0 as int != p {
                        if m1.contains(n0 as int) {
                            assert(m2.frame(n0 as int) == m1.frame(n0 as int));
                        }
                    }
                },
                None => {},
            }
        },
        None => {},
    }
}


/// An entry whose flag byte has the low bit set is valid.
pub proof fn lemma_valid_from_flags(e: PageTableEntry)
    requires
        e.flags_spec() % 2 == 1,
    ensures
        e.is_valid_spec(),
{
    lemma_mod_mod(e.bits as int);
}


/// Two byte indexes less than a page apart never share a page offset.
proof fn lemma_offset_distinct(base: int, j: int, i: int)
    requires
        0 <= base,
        0 <= j < i,
        i - j < 4096,
    ensures
        (base + j) % 4096 != (base + i) % 4096,
{
    if (base + j) % 4096 == (base + i) % 4096 {
        lemma_fundamental_div_mod(base + j, 4096);
        lemma_fundamental_div_mod(base + i, 4096);
        let d1 = (base + j) / 4096;
        let d2 = (base + i) / 4096;
        assert(i - j == 4096 * d2 - 4096 * d1);
        assert(false) by (nonlinear_arith)
            requires
                i - j == 4096 * d2 - 4096 * d1,
                0 < i - j < 4096,
        ;
    }
}

} // verus!
