//! Page-granular address types for SV39: 56-bit physical and 39-bit virtual
//! addresses, 12-bit page offsets, and the three 9-bit page-directory index
//! components of a virtual page number. Values are width-masked on
//! construction.

use vstd::prelude::*;
use crate::config::{PAGE_SIZE, PAGE_SIZE_BITS};
use crate::utils::range::StepByOne;

verus! {

/// 2^56: one past the largest physical address.
pub const PA_BOUND: u64 = 0x100_0000_0000_0000;

/// 2^39: one past the largest virtual address.
pub const VA_BOUND: u64 = 0x80_0000_0000;

/// 2^44: one past the largest physical page number.
pub const PPN_BOUND: u64 = 0x1000_0000_0000;

/// 2^27: one past the largest virtual page number.
pub const VPN_BOUND: u64 = 0x800_0000;

/// Entries per page directory: 2^9.
pub const PT_SIZE: u64 = 512;

#[derive(Copy, Clone, Debug, PartialEq, Eq, Structural)]
pub struct PhysAddr(pub u64);

#[derive(Copy, Clone, Debug, PartialEq, Eq, Structural)]
pub struct VirtAddr(pub u64);

#[derive(Copy, Clone, Debug, PartialEq, Eq, Structural)]
pub struct PhysPageNum(pub u64);

#[derive(Copy, Clone, Debug, PartialEq, Eq, Structural)]
pub struct VirtPageNum(pub u64);

proof fn lemma_mask_pa(v: u64)
    by (bit_vector)
    ensures
        v & 0xFF_FFFF_FFFF_FFFF == v % 0x100_0000_0000_0000,
{
}

proof fn lemma_mask_va(v: u64)
    by (bit_vector)
    ensures
        v & 0x7F_FFFF_FFFF == v % 0x80_0000_0000,
{
}

proof fn lemma_mask_ppn(v: u64)
    by (bit_vector)
    ensures
        v & 0xFFF_FFFF_FFFF == v % 0x1000_0000_0000,
{
}

proof fn lemma_mask_vpn(v: u64)
    by (bit_vector)
    ensures
        v & 0x7FF_FFFF == v % 0x800_0000,
{
}

proof fn lemma_shift_page(v: u64)
    by (bit_vector)
    ensures
        v >> 12 == v / 4096,
        v & 0xFFF == v % 4096,
{
}

proof fn lemma_level_indexes(v: u64)
    by (bit_vector)
    ensures
        v & 0x1FF == v % 512,
        (v >> 9) & 0x1FF == (v / 512) % 512,
        (v >> 18) & 0x1FF == (v / 262144) % 512,
{
}

impl PhysAddr {
    /// Construct a physical address, keeping the low 56 bits.
    pub fn from_usize(v: u64) -> (r: PhysAddr)
        ensures
            r.0 == v as int % PA_BOUND as int,
            v < PA_BOUND ==> r.0 == v,
    {
        proof {
            lemma_mask_pa(v);
        }
        PhysAddr(v & (PA_BOUND - 1))
    }

    /// Page number of the page this address lies in.
    pub fn floor(&self) -> (r: PhysPageNum)
        ensures
            r.0 == self.0 as int / PAGE_SIZE as int,
            self.0 < PA_BOUND ==> r.0 < PPN_BOUND,
    {
        PhysPageNum(self.0 / PAGE_SIZE)
    }

    /// Page number of the first page boundary at or above this address.
    pub fn ceil(&self) -> (r: PhysPageNum)
        requires
            self.0 < PA_BOUND,
        ensures
            r.0 == (self.0 + PAGE_SIZE - 1) as int / PAGE_SIZE as int,
            r.0 <= PPN_BOUND,
            self.0 + PAGE_SIZE <= PA_BOUND ==> r.0 < PPN_BOUND,
    {
        PhysPageNum((self.0 + PAGE_SIZE - 1) / PAGE_SIZE)
    }
}

impl VirtAddr {
    /// Construct a virtual address, keeping the low 39 bits.
    pub fn from_usize(v: u64) -> (r: VirtAddr)
        ensures
            r.0 == v as int % VA_BOUND as int,
            v < VA_BOUND ==> r.0 == v,
    {
        proof {
            lemma_mask_va(v);
        }
        VirtAddr(v & (VA_BOUND - 1))
    }

    /// Page number of the page this address lies in.
    pub fn floor(&self) -> (r: VirtPageNum)
        ensures
            r.0 == self.0 as int / PAGE_SIZE as int,
            self.0 < VA_BOUND ==> r.0 < VPN_BOUND,
    {
        proof {
            lemma_shift_page(self.0);
        }
        VirtPageNum(self.0 >> PAGE_SIZE_BITS)
    }

    /// Page number of the first page boundary at or above this address.
    pub fn ceil(&self) -> (r: VirtPageNum)
        requires
            self.0 < VA_BOUND,
        ensures
            r.0 == (self.0 + PAGE_SIZE - 1) as int / PAGE_SIZE as int,
            r.0 <= VPN_BOUND,
            self.0 + PAGE_SIZE <= VA_BOUND ==> r.0 < VPN_BOUND,
    {
        proof {
            lemma_shift_page((self.0 + PAGE_SIZE - 1) as u64);
        }
        VirtPageNum((self.0 + PAGE_SIZE - 1) >> PAGE_SIZE_BITS)
    }

    /// Offset of this address within its page.
    pub fn page_offset(&self) -> (r: u64)
        ensures
            r == self.0 as int % PAGE_SIZE as int,
            r < PAGE_SIZE,
    {
        proof {
            lemma_shift_page(self.0);
        }
        self.0 & (PAGE_SIZE - 1)
    }
}

impl PhysPageNum {
    /// Construct a physical page number, keeping the low 44 bits.
    pub fn from_usize(v: u64) -> (r: PhysPageNum)
        ensures
            r.0 == v as int % PPN_BOUND as int,
            v < PPN_BOUND ==> r.0 == v,
    {
        proof {
            lemma_mask_ppn(v);
        }
        PhysPageNum(v & (PPN_BOUND - 1))
    }

    /// First address of this page.
    pub fn base_addr(&self) -> (r: PhysAddr)
        requires
            self.0 < PPN_BOUND,
        ensures
            r.0 == self.0 * PAGE_SIZE,
    {
        PhysAddr(self.0 * PAGE_SIZE)
    }
}

impl VirtPageNum {
    /// Construct a virtual page number, keeping the low 27 bits.
    pub fn from_usize(v: u64) -> (r: VirtPageNum)
        ensures
            r.0 == v as int % VPN_BOUND as int,
            v < VPN_BOUND ==> r.0 == v,
    {
        proof {
            lemma_mask_vpn(v);
        }
        VirtPageNum(v & (VPN_BOUND - 1))
    }

    /// First address of this page.
    pub fn base_addr(&self) -> (r: VirtAddr)
        requires
            self.0 < VPN_BOUND,
        ensures
            r.0 == self.0 * PAGE_SIZE,
    {
        VirtAddr(self.0 * PAGE_SIZE)
    }

    /// The three 9-bit page-directory indexes of this page number, least
    /// significant level first; `r[2]` indexes the root directory.
    pub fn indexes(&self) -> (r: [usize; 3])
        ensures
            r[0] == self.0 as int % PT_SIZE as int,
            r[1] == (self.0 as int / PT_SIZE as int) % PT_SIZE as int,
            r[2] == (self.0 as int / (PT_SIZE * PT_SIZE) as int) % PT_SIZE as int,
            r[0] < PT_SIZE,
            r[1] < PT_SIZE,
            r[2] < PT_SIZE,
    {
        proof {
            lemma_level_indexes(self.0);
        }
        let idx0: usize = (self.0 & 0x1FF) as usize;
        let idx1: usize = ((self.0 >> 9) & 0x1FF) as usize;
        let idx2: usize = ((self.0 >> 18) & 0x1FF) as usize;
        [idx0, idx1, idx2]
    }
}

impl StepByOne for VirtPageNum {
    open spec fn can_step(&self) -> bool {
        self.0 < u64::MAX
    }

    open spec fn step_spec(&self) -> Self {
        VirtPageNum((self.0 + 1) as u64)
    }

    fn step(&mut self) {
        self.0 = self.0 + 1;
    }
}

} // verus!
