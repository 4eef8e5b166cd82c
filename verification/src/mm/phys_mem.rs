//! Physical memory as a bounds-checked arena indexed by physical page
//! number. Every frame of the managed pool is either free, a page-directory
//! frame of 512 entries, or a data frame of 4096 bytes; all reads and
//! writes of frame contents go through checked, typed accessors.

use vstd::prelude::*;
use crate::mm::address::{PPN_BOUND};
use crate::mm::page_table::PageTableEntry;

verus! {

/// Bytes in a data frame.
pub const FRAME_BYTES: usize = 4096;

/// Entries in a page-directory frame.
pub const FRAME_ENTRIES: usize = 512;

/// Largest number of frames an arena may manage; keeps index arithmetic
/// within `usize` on any host.
pub const FRAME_COUNT_MAX: u64 = 0x100_0000;

/// The contents of one physical frame of the managed pool.
pub enum FrameData {
    /// Not handed out by the allocator.
    Free,
    /// A page-directory frame: 512 page-table entries.
    Table(Vec<PageTableEntry>),
    /// A data frame: 4096 bytes.
    Data(Vec<u8>),
}

/// The managed pool of physical frames `[base, base + frames.len())`.
pub struct PhysMemory {
    pub base: u64,
    pub frames: Vec<FrameData>,
}

impl PhysMemory {
    /// First page number of the pool.
    pub open spec fn base_spec(self) -> int {
        self.base as int
    }

    /// One past the last page number of the pool.
    pub open spec fn end_spec(self) -> int {
        self.base as int + self.frames@.len()
    }

    /// Structural bounds of the arena itself.
    pub open spec fn wf(self) -> bool {
        &&& self.end_spec() <= PPN_BOUND
        &&& self.frames@.len() <= FRAME_COUNT_MAX
    }

    /// Whether the pool manages page `p`.
    pub open spec fn contains(self, p: int) -> bool {
        self.base_spec() <= p < self.end_spec()
    }

    /// The contents of frame `p`.
    pub open spec fn frame(self, p: int) -> FrameData {
        self.frames@[p - self.base_spec()]
    }

    /// Whether frame `p` is a managed, well-formed page-directory frame.
    pub open spec fn is_table(self, p: int) -> bool {
        &&& self.contains(p)
        &&& self.frame(p) matches FrameData::Table(t) && t@.len() == FRAME_ENTRIES
    }

    /// Whether frame `p` is a managed, well-formed data frame.
    pub open spec fn is_data(self, p: int) -> bool {
        &&& self.contains(p)
        &&& self.frame(p) matches FrameData::Data(d) && d@.len() == FRAME_BYTES
    }

    /// Whether frame `p` is managed and free.
    pub open spec fn is_free(self, p: int) -> bool {
        &&& self.contains(p)
        &&& self.frame(p) is Free
    }

    /// The entries of page-directory frame `p`.
    pub open spec fn table(self, p: int) -> Seq<PageTableEntry> {
        self.frame(p)->Table_0@
    }

    /// The bytes of data frame `p`.
    pub open spec fn data(self, p: int) -> Seq<u8> {
        self.frame(p)->Data_0@
    }

    /// Everything but the contents of frame `p` is the same in `self` and
    /// `other`.
    pub open spec fn same_except(self, other: Self, p: int) -> bool {
        &&& other.base_spec() == self.base_spec()
        &&& other.frames@.len() == self.frames@.len()
        &&& forall|q: int| self.contains(q) && q != p ==> other.frame(q) == self.frame(q)
    }

    /// Index of managed page `p` in the frame vector.
    fn index_of(&self, p: u64) -> (idx: usize)
        requires
            self.contains(p as int),
        ensures
            idx == p - self.base_spec(),
    {
        let off: u64 = p - self.base;
        let len_u: u64 = self.frames.len() as u64;
        proof {
            assert(off < len_u);
        }
        off as usize
    }

    /// A pool covering `[base, end)` with every frame free.
    pub fn new(base: u64, end: u64) -> (r: Self)
        requires
            base <= end,
            end <= PPN_BOUND,
            end - base <= FRAME_COUNT_MAX,
        ensures
            r.wf(),
            r.base_spec() == base,
            r.end_spec() == end,
            forall|p: int| r.contains(p) ==> r.frame(p) is Free,
    {
        let count: usize = (end - base) as usize;
        let mut frames: Vec<FrameData> = Vec::new();
        let mut i: usize = 0;
        while i < count
            invariant
                i <= count,
                frames@.len() == i,
                forall|j: int| 0 <= j < i ==> frames@[j] is Free,
            decreases count - i,
        {
            frames.push(FrameData::Free);
            i = i + 1;
        }
        PhysMemory { base, frames }
    }

    /// Whether `p` is a managed page-directory frame.
    pub fn check_table(&self, p: u64) -> (r: bool)
        ensures
            r == self.is_table(p as int),
    {
        if self.base <= p && p - self.base < self.frames.len() as u64 {
            let idx: usize = (p - self.base) as usize;
            match &self.frames[idx] {
                FrameData::Table(t) => t.len() == FRAME_ENTRIES,
                _ => false,
            }
        } else {
            false
        }
    }

    /// Whether `p` is a managed data frame.
    pub fn check_data(&self, p: u64) -> (r: bool)
        ensures
            r == self.is_data(p as int),
    {
        if self.base <= p && p - self.base < self.frames.len() as u64 {
            let idx: usize = (p - self.base) as usize;
            match &self.frames[idx] {
                FrameData::Data(d) => d.len() == FRAME_BYTES,
                _ => false,
            }
        } else {
            false
        }
    }

    /// Read entry `i` of page-directory frame `p`.
    pub fn read_pte(&self, p: u64, i: usize) -> (r: PageTableEntry)
        requires
            self.is_table(p as int),
            i < FRAME_ENTRIES,
        ensures
            r == self.table(p as int)[i as int],
    {
        let idx: usize = self.index_of(p);
        match &self.frames[idx] {
            FrameData::Table(t) => t[i],
            _ => PageTableEntry::empty(),
        }
    }

    /// Write entry `i` of page-directory frame `p`.
    pub fn write_pte(&mut self, p: u64, i: usize, e: PageTableEntry)
        requires
            old(self).is_table(p as int),
            i < FRAME_ENTRIES,
        ensures
            final(self).is_table(p as int),
            final(self).table(p as int) == old(self).table(p as int).update(i as int, e),
            old(self).same_except(*final(self), p as int),
    {
        let idx: usize = self.index_of(p);
        let fd = &mut self.frames[idx];
        match fd {
            FrameData::Table(t) => {
                t[i] = e;
            },
            _ => {},
        }
    }

    /// Read byte `i` of data frame `p`.
    pub fn read_byte(&self, p: u64, i: usize) -> (r: u8)
        requires
            self.is_data(p as int),
            i < FRAME_BYTES,
        ensures
            r == self.data(p as int)[i as int],
    {
        let idx: usize = self.index_of(p);
        match &self.frames[idx] {
            FrameData::Data(d) => d[i],
            _ => 0,
        }
    }

    /// Write byte `i` of data frame `p`.
    pub fn write_byte(&mut self, p: u64, i: usize, b: u8)
        requires
            old(self).is_data(p as int),
            i < FRAME_BYTES,
        ensures
            final(self).is_data(p as int),
            final(self).data(p as int) == old(self).data(p as int).update(i as int, b),
            old(self).same_except(*final(self), p as int),
    {
        let idx: usize = self.index_of(p);
        let fd = &mut self.frames[idx];
        match fd {
            FrameData::Data(d) => {
                d[i] = b;
            },
            _ => {},
        }
    }

    /// Turn managed frame `p` into a page-directory frame of empty entries.
    pub fn set_table(&mut self, p: u64)
        requires
            old(self).contains(p as int),
        ensures
            final(self).is_table(p as int),
            final(self).table(p as int) == Seq::new(
                FRAME_ENTRIES as nat,
                |i: int| PageTableEntry { bits: 0 },
            ),
            old(self).same_except(*final(self), p as int),
    {
        let idx: usize = self.index_of(p);
        let mut t: Vec<PageTableEntry> = Vec::new();
        let mut i: usize = 0;
        while i < FRAME_ENTRIES
            invariant
                i <= FRAME_ENTRIES,
                t@.len() == i,
                forall|j: int| 0 <= j < i ==> t@[j] == (PageTableEntry { bits: 0 }),
            decreases FRAME_ENTRIES - i,
        {
            t.push(PageTableEntry::empty());
            i = i + 1;
        }
        self.frames[idx] = FrameData::Table(t);
        proof {
            assert(self.table(p as int) =~= Seq::new(
                FRAME_ENTRIES as nat,
                |i: int| PageTableEntry { bits: 0 },
            ));
        }
    }

    /// Turn managed frame `p` into a zero-filled data frame.
    pub fn set_data_zero(&mut self, p: u64)
        requires
            old(self).contains(p as int),
        ensures
            final(self).is_data(p as int),
            final(self).data(p as int) == Seq::new(FRAME_BYTES as nat, |i: int| 0u8),
            old(self).same_except(*final(self), p as int),
    {
        let idx: usize = self.index_of(p);
        let mut d: Vec<u8> = Vec::new();
        let mut i: usize = 0;
        while i < FRAME_BYTES
            invariant
                i <= FRAME_BYTES,
                d@.len() == i,
                forall|j: int| 0 <= j < i ==> d@[j] == 0u8,
            decreases FRAME_BYTES - i,
        {
            d.push(0);
            i = i + 1;
        }
        self.frames[idx] = FrameData::Data(d);
        proof {
            assert(self.data(p as int) =~= Seq::new(FRAME_BYTES as nat, |i: int| 0u8));
        }
    }

    /// Mark managed frame `p` free again.
    pub fn set_free(&mut self, p: u64)
        requires
            old(self).contains(p as int),
        ensures
            final(self).is_free(p as int),
            old(self).same_except(*final(self), p as int),
    {
        let idx: usize = self.index_of(p);
        self.frames[idx] = FrameData::Free;
    }
}

} // verus!
