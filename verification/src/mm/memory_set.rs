//! An address space: one page table plus an ordered collection of memory
//! areas whose page ranges never intersect. Every page of every area is
//! mapped in the page table with the area's permissions, the shared
//! trampoline page is mapped at the top of the space, and nothing else is
//! mapped.

use vstd::prelude::*;
use vstd::string::StringExecFns;
use crate::error::KernelError;
use crate::config::{PAGE_SIZE, USER_STACK_SIZE};
use crate::mm::address::{PhysPageNum, VirtPageNum, PPN_BOUND, VA_BOUND, VPN_BOUND};
use crate::mm::frame_allocator::{FrameTracker, StackFrameAllocator};
use crate::mm::memory_area::{find_frame, Mapping, MemoryArea};
use crate::mm::page_table::{
    child, child2, l1_idx, l2_idx, lookup, walk, MapPermission, PageTable, PageTableEntry, PTE_R,
    PTE_V, PTE_W,
    PTE_X,
};
use crate::mm::phys_mem::{PhysMemory, FRAME_BYTES};
use crate::utils::range::VirtPageNumRange;

verus! {

/// Page number of the trampoline page: the last page of the 39-bit
/// virtual range.
pub const TRAMPOLINE_VPN: u64 = 0x7FF_FFFF;

/// An address space.
pub struct MemorySet {
    pub page_table: PageTable,
    pub areas: Vec<(MemoryArea, bool)>,
    pub trampoline: Option<PhysPageNum>,
}

impl MemorySet {
    /// The root directory frame of this space's page table.
    pub open spec fn root(self) -> int {
        self.page_table.root()
    }

    /// Whether some area's range contains page `v`.
    pub open spec fn covered(self, v: int) -> bool {
        exists|a: int|
            0 <= a < self.areas@.len() && (#[trigger] self.areas@[a]).0.vpn_range.contains_vpn(v)
    }

    /// Whether `q` backs this space: a page-table directory frame or a
    /// backing frame of one of its areas.
    pub open spec fn owns_frame(self, q: int) -> bool {
        self.page_table.owns(q) || exists|a: int|
            0 <= a < self.areas@.len() && (#[trigger] self.areas@[a]).0.has_frame(q)
    }

    /// The translation of page `v` agrees with area `a`: present, backed
    /// by the area's frame for `v`, with the area's permissions plus the
    /// Valid bit.
    pub open spec fn lookup_matches_area(self, mem: PhysMemory, a: int, v: int) -> bool {
        match lookup(mem, self.root(), v as u64) {
            Some(e) => {
                &&& Some(e.ppn_spec()) == self.areas@[a].0.frame_of(v)
                &&& e.flags_spec() == self.areas@[a].0.map_perm + 1
            },
            None => false,
        }
    }

    /// The address-space invariant.
    pub open spec fn wf(self, mem: PhysMemory) -> bool {
        &&& mem.wf()
        &&& self.page_table.wf(mem)
        &&& forall|a: int| 0 <= a < self.areas@.len() ==> (#[trigger] self.areas@[a]).0.wf_in(mem)
        &&& forall|a: int, b: int|
            0 <= a < b < self.areas@.len() ==> !(#[trigger] self.areas@[a]).0.vpn_range.overlaps(
                (#[trigger] self.areas@[b]).0.vpn_range,
            )
        &&& forall|a: int, v: int|
            0 <= a < self.areas@.len() && #[trigger] self.areas@[a].0.vpn_range.contains_vpn(v)
                ==> self.lookup_matches_area(mem, a, v)
        &&& match self.trampoline {
            Some(p) => p.0 < PPN_BOUND && (lookup(mem, self.root(), TRAMPOLINE_VPN) matches Some(e)
                && e.ppn_spec() == p.0 && e.flags_spec() == 11),
            None => true,
        }
        &&& forall|v: u64|
            v < VPN_BOUND && !self.covered(v as int) && !(self.trampoline is Some && v
                == TRAMPOLINE_VPN) ==> #[trigger] lookup(mem, self.root(), v) is None
        &&& forall|a: int|
            0 <= a < self.areas@.len() ==> !(#[trigger] self.areas@[a]).0.vpn_range.contains_vpn(
                TRAMPOLINE_VPN as int,
            )
        &&& forall|a: int, b: int, q: int|
            0 <= a < self.areas@.len() && 0 <= b < self.areas@.len() && a != b ==> !(
            #[trigger] self.areas@[a].0.has_frame(q) && #[trigger] self.areas@[b].0.has_frame(q))
    }

    /// An empty address space: a fresh page table, no areas, no
    /// trampoline.
    pub fn new(mem: &mut PhysMemory, fa: &mut StackFrameAllocator) -> (r: Self)
        requires
            old(fa).wf(*old(mem)),
            old(fa).free_count() >= 1,
        ensures
            r.wf(*final(mem)),
            final(fa).wf(*final(mem)),
            final(fa).end == old(fa).end,
            final(fa).free_count() == old(fa).free_count() - 1,
            final(mem).base_spec() == old(mem).base_spec(),
            final(mem).end_spec() == old(mem).end_spec(),
            r.areas@.len() == 0,
            r.trampoline is None,
            old(mem).is_free(r.root()),
            old(mem).same_except(*final(mem), r.root()),
            forall|q: int| #[trigger] r.owns_frame(q) <==> q == r.root(),
    {
        let page_table = PageTable::new(mem, fa);
        let r = MemorySet { page_table, areas: Vec::new(), trampoline: None };
        proof {
            assert forall|q: int| #[trigger] r.owns_frame(q) <==> q == r.root() by {
                assert(r.page_table.owns(q) <==> q == r.root());
            }
        }
        r
    }

    /// The SATP token that activates this space.
    pub fn token(&self, mem: &PhysMemory) -> (r: u64)
        requires
            self.wf(*mem),
        ensures
            r == self.page_table.root_ppn.0 + crate::mm::page_table::SATP_MODE_SV39,
            r as int % PPN_BOUND as int == self.root(),
    {
        self.page_table.token()
    }

    /// The physical page `vpn` translates to, if it is mapped.
    pub fn translate(&self, mem: &PhysMemory, vpn: VirtPageNum) -> (r: Option<PhysPageNum>)
        ensures
            r == match lookup(*mem, self.root(), vpn.0) {
                Some(e) => Some(PhysPageNum(e.ppn_spec())),
                None => None,
            },
    {
        match self.page_table.translate(mem, vpn) {
            Some(pte) => {
                if pte.is_valid() {
                    Some(pte.ppn())
                } else {
                    None
                }
            },
            None => None,
        }
    }

    /// The raw leaf entry for `vpn`, valid or not, if the walk completes.
    pub fn translate_entry(&self, mem: &PhysMemory, vpn: VirtPageNum) -> (r: Option<
        PageTableEntry,
    >)
        ensures
            r == walk(*mem, self.root(), vpn.0),
    {
        self.page_table.translate(mem, vpn)
    }

    /// Map the shared trampoline page at the highest page of the space,
    /// readable and executable, backed by the given physical page of
    /// trampoline code. Done once, before any areas are pushed at the top.
    pub fn map_trampoline(
        &mut self,
        mem: &mut PhysMemory,
        fa: &mut StackFrameAllocator,
        tramp_ppn: PhysPageNum,
    )
        requires
            old(self).wf(*old(mem)),
            old(fa).wf(*old(mem)),
            old(self).trampoline is None,
            old(fa).free_count() >= 2,
            tramp_ppn.0 < PPN_BOUND,
        ensures
            final(self).wf(*final(mem)),
            final(fa).wf(*final(mem)),
            final(fa).end == old(fa).end,
            old(fa).free_count() - 2 <= final(fa).free_count() <= old(fa).free_count(),
            final(mem).base_spec() == old(mem).base_spec(),
            final(mem).end_spec() == old(mem).end_spec(),
            final(self).areas == old(self).areas,
            final(self).trampoline == Some(tramp_ppn),
            final(self).page_table.root_ppn == old(self).page_table.root_ppn,
            forall|w: u64|
                w < VPN_BOUND && w != TRAMPOLINE_VPN ==> #[trigger] lookup(
                    *final(mem),
                    old(self).root(),
                    w,
                ) == lookup(*old(mem), old(self).root(), w),
            forall|q: int|
                old(mem).contains(q) && #[trigger] final(mem).frame(q) != old(mem).frame(q) ==> old(
                    mem,
                ).frame(q) is Free || old(self).page_table.owns(q),
            forall|q: int|
                #[trigger] final(self).owns_frame(q) ==> old(self).owns_frame(q) || old(
                    mem,
                ).frame(q) is Free,
    {
        let ghost m0 = *mem;
        let ghost s0 = *old(self);
        proof {
            assert(!s0.covered(TRAMPOLINE_VPN as int));
            assert(lookup(m0, s0.root(), TRAMPOLINE_VPN) is None);
        }
        let flags: u8 = PTE_R | PTE_X;
        proof {
            assert((2u8 | 8u8) == 10u8) by (bit_vector);
        }
        self.page_table.map(mem, fa, VirtPageNum(TRAMPOLINE_VPN), tramp_ppn, flags);
        self.trampoline = Some(tramp_ppn);
        proof {
            let mf = *mem;
            let sf = *self;
            assert(lookup(mf, sf.root(), TRAMPOLINE_VPN) matches Some(e) && e.ppn_spec()
                == tramp_ppn.0 && e.flags_spec() == 11);
            assert forall|a: int|
                0 <= a < sf.areas@.len() implies (#[trigger] sf.areas@[a]).0.wf_in(mf) by {
                lemma_area_wf_in_preserved(s0, sf.areas@[a].0, m0, mf);
            }
            assert forall|a: int, v: int|
                0 <= a < sf.areas@.len() && #[trigger] sf.areas@[a].0.vpn_range.contains_vpn(
                    v,
                ) implies sf.lookup_matches_area(mf, a, v) by {
                assert(s0.lookup_matches_area(m0, a, v));
                assert(0 <= v < VPN_BOUND);
                assert(v as u64 != TRAMPOLINE_VPN);
                assert(lookup(mf, sf.root(), v as u64) == lookup(m0, s0.root(), v as u64));
            }
            assert forall|v: u64|
                v < VPN_BOUND && !sf.covered(v as int) && !(sf.trampoline is Some && v
                    == TRAMPOLINE_VPN) implies #[trigger] lookup(mf, sf.root(), v) is None by {
                assert(!s0.covered(v as int));
                assert(lookup(mf, sf.root(), v) == lookup(m0, s0.root(), v));
            }
            assert forall|q: int| #[trigger] sf.owns_frame(q) implies s0.owns_frame(q) || m0.frame(
                q,
            ) is Free by {
                if sf.page_table.owns(q) {
                } else {
                    let a = choose|a: int|
                        0 <= a < sf.areas@.len() && (#[trigger] sf.areas@[a]).0.has_frame(q);
                    assert(s0.areas@[a].0.has_frame(q));
                }
            }
        }
    }
}

/// An area's frames are untouched by an update whose footprint avoids
/// them, so its well-formedness in the arena is preserved.
proof fn lemma_area_wf_in_preserved(
    s0: MemorySet,
    area: MemoryArea,
    mem0: PhysMemory,
    mem1: PhysMemory,
)
    requires
        area.wf_in(mem0),
        mem1.base_spec() == mem0.base_spec(),
        mem1.end_spec() == mem0.end_spec(),
        forall|q: int|
            mem0.contains(q) && #[trigger] mem1.frame(q) != mem0.frame(q) ==> mem0.frame(
                q,
            ) is Free || s0.page_table.owns(q),
        s0.page_table.wf(mem0),
    ensures
        area.wf_in(mem1),
{
    match area.mapping {
        Mapping::Identical => {},
        Mapping::Framed(pairs) => {
            assert forall|i: int| 0 <= i < pairs@.len() implies mem1.is_data(
                #[trigger] pairs@[i].1.0.0 as int,
            ) by {
                let q = pairs@[i].1.0.0 as int;
                assert(mem0.is_data(q));
                assert(!(mem0.frame(q) is Free));
                assert(!s0.page_table.owns(q)) by {
                    if s0.page_table.owns(q) {
                        assert(mem0.is_table(q));
                    }
                }
                assert(mem1.frame(q) == mem0.frame(q));
            }
        },
    }
}


/// Copy `cnt` payload bytes from `d[src0..]` to the start of data frame
/// `p`, leaving its remaining bytes untouched. The frame is no directory,
/// so no translation of `pt` changes and the allocator coupling is kept.
fn fill_frame(
    mem: &mut PhysMemory,
    p: u64,
    d: &Vec<u8>,
    src0: usize,
    cnt: usize,
    Ghost(pt): Ghost<PageTable>,
    Ghost(fa): Ghost<StackFrameAllocator>,
)
    requires
        old(mem).wf(),
        pt.wf(*old(mem)),
        fa.wf(*old(mem)),
        old(mem).is_data(p as int),
        p < PPN_BOUND,
        cnt <= FRAME_BYTES,
        src0 + cnt <= d@.len(),
    ensures
        final(mem).wf(),
        pt.wf(*final(mem)),
        fa.wf(*final(mem)),
        final(mem).base_spec() == old(mem).base_spec(),
        final(mem).end_spec() == old(mem).end_spec(),
        old(mem).same_except(*final(mem), p as int),
        final(mem).is_data(p as int),
        forall|i: int| 0 <= i < cnt ==> #[trigger] final(mem).data(p as int)[i] == d@[src0 + i],
        forall|i: int|
            cnt <= i < FRAME_BYTES ==> #[trigger] final(mem).data(p as int)[i] == old(mem).data(
                p as int,
            )[i],
        forall|w: u64| #[trigger] lookup(*final(mem), pt.root(), w) == lookup(
            *old(mem),
            pt.root(),
            w,
        ),
        forall|k: int, l: int|
            0 <= k < 512 && 0 <= l < 512 ==> #[trigger] child2(*final(mem), pt.root(), k, l)
                == child2(*old(mem), pt.root(), k, l),
{
    let ghost m0 = *mem;
    let dl: usize = d.len();
    let mut i: usize = 0;
    while i < cnt
        invariant
            m0.wf(),
            i <= cnt,
            cnt <= FRAME_BYTES,
            src0 + cnt <= dl,
            dl == d@.len(),
            m0.same_except(*mem, p as int),
            m0.is_data(p as int),
            mem.is_data(p as int),
            forall|j: int| 0 <= j < i ==> #[trigger] mem.data(p as int)[j] == d@[src0 + j],
            forall|j: int|
                i <= j < FRAME_BYTES ==> #[trigger] mem.data(p as int)[j] == m0.data(p as int)[j],
        decreases cnt - i,
    {
        mem.write_byte(p, i, d[src0 + i]);
        i = i + 1;
    }
    proof {
        assert(!m0.is_table(p as int));
        assert(!mem.is_table(p as int));
        crate::mm::page_table::lemma_nondir_frame_update(pt, m0, *mem, p as int);
        crate::mm::frame_allocator::lemma_fa_wf_nonfree_update(fa, m0, *mem, p as int);
    }
}


/// The payload bytes, if any, as a sequence.
pub open spec fn payload_view(data: Option<&Vec<u8>>) -> Option<Seq<u8>> {
    match data {
        Some(d) => Some(d@),
        None => None,
    }
}

/// The bytes page `j` of an area must hold after its payload is copied
/// in: the matching payload window, zero beyond the payload.
pub open spec fn expected_page(pd: Option<Seq<u8>>, j: int) -> Seq<u8> {
    Seq::new(
        FRAME_BYTES as nat,
        |i: int|
            match pd {
                Some(d) => if j * FRAME_BYTES + i < d.len() {
                    d[j * FRAME_BYTES + i]
                } else {
                    0u8
                },
                None => 0u8,
            },
    )
}

impl MemorySet {
    /// Whether `range` intersects some existing area's range.
    pub open spec fn overlaps_existing(self, range: VirtPageNumRange) -> bool {
        exists|a: int|
            0 <= a < self.areas@.len() && range.overlaps(
                (#[trigger] self.areas@[a]).0.vpn_range,
            )
    }

    /// Directory budget for mapping `[v, end)` within an area that began
    /// at `start`: one credit per 512-page block still to be entered;
    /// each credit pays for the at most two directory frames a block
    /// entry can allocate.
    pub open spec fn dir_entries_left(start: int, v: int, end: int) -> int {
        if v >= end {
            0
        } else {
            (if v == start || v % 512 == 0 {
                1int
            } else {
                0int
            }) + (end - 1) / 512 - v / 512
        }
    }

    /// Frames that suffice to map `range`: one backing frame per page
    /// when frame-backed, plus two frames per 512-page block for the
    /// directories, which consecutive pages share.
    pub open spec fn frames_needed(range: VirtPageNumRange, framed: bool) -> int {
        (if framed {
            range.end_spec() - range.start_spec()
        } else {
            0int
        }) + 2 * Self::dir_entries_left(range.start_spec(), range.start_spec(), range.end_spec())
    }

    /// Whether `push_area` rejects a request for `range`: it intersects
    /// an existing area, claims the reserved trampoline page, the payload
    /// exceeds the range, or the frame pool cannot back it.
    pub open spec fn rejects_push_range(
        self,
        fa: StackFrameAllocator,
        range: VirtPageNumRange,
        framed: bool,
        pd: Option<Seq<u8>>,
    ) -> bool {
        ||| self.overlaps_existing(range)
        ||| range.contains_vpn(TRAMPOLINE_VPN as int)
        ||| fa.free_count() < Self::frames_needed(range, framed)
        ||| (pd matches Some(d) && d.len() > (range.end_spec() - range.start_spec())
            * FRAME_BYTES)
    }

    /// Whether `push_area` rejects this request.
    pub open spec fn rejects_push(
        self,
        fa: StackFrameAllocator,
        area: MemoryArea,
        pd: Option<Seq<u8>>,
    ) -> bool {
        self.rejects_push_range(fa, area.vpn_range, area.is_framed(), pd)
    }

    /// Insert a new area: reject it without any mutation if its range
    /// intersects an existing area (or the reserved trampoline page), if
    /// the payload does not fit the range, or if the frame pool cannot
    /// back it; otherwise back and map every page of the range and copy
    /// the payload in page by page, zero-filling the remainder.
    #[verifier::rlimit(100)]
    #[verifier::spinoff_prover]
    pub fn push_area(
        &mut self,
        mem: &mut PhysMemory,
        fa: &mut StackFrameAllocator,
        new_area: MemoryArea,
        droppable: bool,
        data: Option<&Vec<u8>>,
    ) -> (r: Result<(), KernelError>)
        requires
            old(self).wf(*old(mem)),
            old(fa).wf(*old(mem)),
            new_area.wf_basic(),
            new_area.unmapped(),
            data is Some ==> new_area.is_framed(),
        ensures
            final(fa).wf(*final(mem)),
            final(fa).end == old(fa).end,
            final(mem).base_spec() == old(mem).base_spec(),
            final(mem).end_spec() == old(mem).end_spec(),
            r is Err <==> old(self).rejects_push(*old(fa), new_area, payload_view(data)),
            r is Err ==> *final(self) == *old(self) && *final(mem) == *old(mem) && *final(fa)
                == *old(fa),
            r is Ok ==> {
                let sf = *final(self);
                let last = sf.areas@.len() - 1;
                &&& sf.wf(*final(mem))
                &&& sf.areas@.len() == old(self).areas@.len() + 1
                &&& forall|a: int|
                    0 <= a < old(self).areas@.len() ==> #[trigger] sf.areas@[a] == old(
                        self,
                    ).areas@[a]
                &&& sf.areas@[last].1 == droppable
                &&& sf.areas@[last].0.vpn_range == new_area.vpn_range
                &&& sf.areas@[last].0.map_perm == new_area.map_perm
                &&& sf.areas@[last].0.is_framed() == new_area.is_framed()
                &&& sf.trampoline == old(self).trampoline
                &&& sf.page_table.root_ppn == old(self).page_table.root_ppn
                &&& forall|w: u64|
                    w < VPN_BOUND && !new_area.vpn_range.contains_vpn(w as int)
                        ==> #[trigger] lookup(*final(mem), old(self).root(), w) == lookup(
                        *old(mem),
                        old(self).root(),
                        w,
                    )
                &&& (new_area.is_framed() ==> forall|u: int|
                    new_area.vpn_range.contains_vpn(u) ==> ((#[trigger] sf.areas@[last].0.frame_of(
                        u,
                    )) matches Some(f) && final(mem).data(f as int) == expected_page(
                        payload_view(data),
                        u - new_area.vpn_range.start_spec(),
                    )))
                &&& forall|q: int|
                    old(mem).contains(q) && #[trigger] final(mem).frame(q) != old(mem).frame(q)
                        ==> old(mem).frame(q) is Free || old(self).page_table.owns(q)
                &&& forall|q: int|
                    #[trigger] sf.owns_frame(q) ==> old(self).owns_frame(q) || old(mem).frame(
                        q,
                    ) is Free
                &&& final(fa).free_count() >= old(fa).free_count() - Self::frames_needed(
                    new_area.vpn_range,
                    new_area.is_framed(),
                )
            },
    {
        let range = new_area.get_vpn_range();
        let start: u64 = range.get_start().0;
        let end: u64 = range.get_end().0;
        // Reject an intersection with any existing area, making no change.
        let n: usize = self.areas.len();
        let mut i: usize = 0;
        while i < n
            invariant
                old(self).wf(*old(mem)),
                old(fa).wf(*old(mem)),
                *self == *old(self),
                *mem == *old(mem),
                *fa == *old(fa),
                n == self.areas@.len(),
                i <= n,
                range == new_area.vpn_range,
                forall|a: int|
                    0 <= a < i ==> !range.overlaps((#[trigger] self.areas@[a]).0.vpn_range),
            decreases n - i,
        {
            let existing = self.areas[i].0.get_vpn_range();
            match range.intersect(existing) {
                Some(_) => {
                    return Err(
                        KernelError::InvalidArgument(
                            String::from_str("the new area overlaps an existing one"),
                        ),
                    );
                },
                None => {},
            }
            i = i + 1;
        }
        // Reject a claim on the reserved trampoline page.
        if start <= TRAMPOLINE_VPN && TRAMPOLINE_VPN < end {
            return Err(
                KernelError::InvalidArgument(
                    String::from_str("the new area claims the trampoline page"),
                ),
            );
        }
        // Reject a request the frame pool cannot back.
        let len_pages: u64 = end - start;
        let is_framed_area: bool = match &new_area.mapping {
            Mapping::Identical => false,
            Mapping::Framed(_) => true,
        };
        let blocks: u64 = if end > start {
            proof {
                lemma_block_bounds(start, end);
            }
            1 + ((end - 1) / 512 - start / 512)
        } else {
            0
        };
        let needed: u64 = (if is_framed_area {
            len_pages
        } else {
            0
        }) + 2 * blocks;
        if !fa.has_free(needed) {
            return Err(KernelError::OutOfFrames);
        }
        // Reject a payload larger than the range, before any mutation.
        match data {
            Some(d) => {
                if d.len() as u64 > len_pages * (FRAME_BYTES as u64) {
                    return Err(
                        KernelError::InvalidArgument(
                            String::from_str("the payload exceeds the area"),
                        ),
                    );
                }
            },
            None => {},
        }
        proof {
            assert(!old(self).rejects_push(*old(fa), new_area, payload_view(data)));
        }
        // Back and map every page, copying the payload in page by page.
        let ghost m0 = *old(mem);
        let ghost s0 = *old(self);
        let ghost pd = payload_view(data);
        let mut area = new_area;
        let mut v: u64 = start;
        while v < end
            invariant
                start <= v <= end,
                end <= VPN_BOUND,
                start == new_area.vpn_range.start_spec(),
                end == new_area.vpn_range.end_spec(),
                pd == payload_view(data),
                data is Some ==> new_area.is_framed(),
                pd matches Some(d) ==> d.len() <= (end - start) * FRAME_BYTES,
                area.vpn_range == new_area.vpn_range,
                area.map_perm == new_area.map_perm,
                area.is_framed() == new_area.is_framed(),
                area.wf_basic(),
                !area.is_framed() ==> area == new_area,
                mem.wf(),
                self.page_table.wf(*mem),
                fa.wf(*mem),
                fa.end == old(fa).end,
                fa.current.0 <= fa.end.0,
                mem.base_spec() == m0.base_spec(),
                mem.end_spec() == m0.end_spec(),
                fa.free_count() >= (if area.is_framed() {
                    end - v
                } else {
                    0int
                }) + 2 * Self::dir_entries_left(start as int, v as int, end as int),
                old(fa).free_count() - fa.free_count() <= Self::frames_needed(
                    new_area.vpn_range,
                    new_area.is_framed(),
                ) - ((if area.is_framed() {
                    end - v
                } else {
                    0int
                }) + 2 * Self::dir_entries_left(start as int, v as int, end as int)),
                v > start ==> child2(
                    *mem,
                    s0.root(),
                    crate::mm::page_table::l2_idx((v - 1) as u64),
                    crate::mm::page_table::l1_idx((v - 1) as u64),
                ) is Some,
                self.areas@ == s0.areas@,
                self.trampoline == s0.trampoline,
                self.page_table.root_ppn == s0.page_table.root_ppn,
                s0.wf(m0),
                forall|a: int|
                    0 <= a < s0.areas@.len() ==> !new_area.vpn_range.overlaps(
                        (#[trigger] s0.areas@[a]).0.vpn_range,
                    ),
                !new_area.vpn_range.contains_vpn(TRAMPOLINE_VPN as int),
                area.framed_upto(*mem, v as int),
                area.is_framed() ==> forall|u: int|
                    start <= u < v ==> (#[trigger] area.frame_of(u)) is Some,
                area.is_framed() ==> forall|q: int|
                    #[trigger] area.has_frame(q) ==> m0.frame(q) is Free,
                forall|u: int|
                    start <= u < v ==> match lookup(*mem, s0.root(), u as u64) {
                        Some(e) => Some(e.ppn_spec()) == (#[trigger] area.frame_of(u))
                            && e.flags_spec() == area.map_perm + 1,
                        None => false,
                    },
                forall|w: u64|
                    w < VPN_BOUND && !(start <= w < v) ==> #[trigger] lookup(*mem, s0.root(), w)
                        == lookup(m0, s0.root(), w),
                area.is_framed() ==> forall|u: int|
                    start <= u < v ==> ((#[trigger] area.frame_of(u)) matches Some(f)
                        && mem.data(f as int) == expected_page(pd, u - start)),
                forall|q: int|
                    m0.contains(q) && #[trigger] mem.frame(q) != m0.frame(q) ==> m0.frame(
                        q,
                    ) is Free || s0.page_table.owns(q),
                forall|q: int|
                    #[trigger] self.page_table.owns(q) ==> s0.page_table.owns(q) || m0.frame(
                        q,
                    ) is Free,
                forall|q: int| s0.page_table.owns(q) ==> #[trigger] self.page_table.owns(q),
            decreases end - v,
        {
            let vpn = VirtPageNum(v);
            let ghost m_pre = *mem;
            let ghost area_pre = area;
            proof {
                if area.is_framed() {
                    assert(area.frame_of(v as int) is None) by {
                        if area.frame_of(v as int) is Some {
                            crate::mm::memory_area::lemma_find_frame_entry(
                                area.mapping->Framed_0@,
                                v as int,
                            );
                        }
                    }
                }
            }
            // Obtain the backing frame.
            let ppn = area.map(mem, fa, vpn);
            let ghost m_alloc = *mem;
            proof {
                if area_pre.is_framed() {
                    assert(!m_pre.is_table(ppn.0 as int));
                    assert(!m_alloc.is_table(ppn.0 as int));
                    crate::mm::page_table::lemma_nondir_frame_update(
                        self.page_table,
                        m_pre,
                        m_alloc,
                        ppn.0 as int,
                    );
                    // the fresh frame was free at loop entry too.
                    assert(m0.frame(ppn.0 as int) is Free) by {
                        if m_pre.frame(ppn.0 as int) != m0.frame(ppn.0 as int) {
                            if s0.page_table.owns(ppn.0 as int) {
                                assert(self.page_table.owns(ppn.0 as int));
                                assert(m_pre.is_table(ppn.0 as int));
                            }
                        }
                    }
                }
            }
            // Copy the payload window for this page into the fresh frame.
            match data {
                Some(d) => {
                    let j: u64 = v - start;
                    let src0_u: u64 = j * (FRAME_BYTES as u64);
                    let dlen: usize = d.len();
                    if src0_u < dlen as u64 {
                        let src0: usize = src0_u as usize;
                        let rest: usize = dlen - src0;
                        let cnt: usize = if rest < FRAME_BYTES {
                            rest
                        } else {
                            FRAME_BYTES
                        };
                        fill_frame(
                            mem,
                            ppn.0,
                            d,
                            src0,
                            cnt,
                            Ghost(self.page_table),
                            Ghost(*fa),
                        );
                        proof {
                            assert(mem.data(ppn.0 as int) =~= expected_page(pd, j as int));
                        }
                    } else {
                        proof {
                            assert(mem.data(ppn.0 as int) =~= expected_page(pd, j as int));
                        }
                    }
                },
                None => {
                    proof {
                        if area_pre.is_framed() {
                            assert(mem.data(ppn.0 as int) =~= expected_page(pd, (v - start) as int));
                        }
                    }
                },
            }
            let ghost m_fill = *mem;
            proof {
                // previously mapped pages and frames are untouched so far.
                if area_pre.is_framed() {
                    assert(m_pre.same_except(m_fill, ppn.0 as int));
                }
                assert forall|w: u64| w < VPN_BOUND && !(start <= w < v) implies #[trigger] lookup(
                    m_fill,
                    s0.root(),
                    w,
                ) == lookup(m0, s0.root(), w) by {
                    assert(lookup(m_fill, s0.root(), w) == lookup(m_pre, s0.root(), w));
                }
                lemma_block_step(start, v, end);
                if v > start && v % 512 != 0 {
                    assert(crate::mm::page_table::l2_idx(vpn.0) == crate::mm::page_table::l2_idx(
                        (v - 1) as u64,
                    ) && crate::mm::page_table::l1_idx(vpn.0) == crate::mm::page_table::l1_idx(
                        (v - 1) as u64,
                    ));
                    assert(child2(
                        m_fill,
                        s0.root(),
                        crate::mm::page_table::l2_idx(vpn.0),
                        crate::mm::page_table::l1_idx(vpn.0),
                    ) is Some) by {
                        assert(child2(
                            m_pre,
                            s0.root(),
                            crate::mm::page_table::l2_idx(vpn.0),
                            crate::mm::page_table::l1_idx(vpn.0),
                        ) is Some);
                        if area_pre.is_framed() {
                            assert(child2(
                                m_alloc,
                                s0.root(),
                                crate::mm::page_table::l2_idx(vpn.0),
                                crate::mm::page_table::l1_idx(vpn.0),
                            ) == child2(
                                m_pre,
                                s0.root(),
                                crate::mm::page_table::l2_idx(vpn.0),
                                crate::mm::page_table::l1_idx(vpn.0),
                            ));
                        }
                    }
                }
                assert(lookup(m_fill, s0.root(), vpn.0) is None) by {
                    assert(!s0.covered(v as int)) by {
                        if s0.covered(v as int) {
                            let a = choose|a: int|
                                0 <= a < s0.areas@.len()
                                    && (#[trigger] s0.areas@[a]).0.vpn_range.contains_vpn(v as int);
                            assert(new_area.vpn_range.overlaps(s0.areas@[a].0.vpn_range));
                        }
                    }
                    assert(lookup(m0, s0.root(), vpn.0) is None);
                }
            }
            // Install the translation.
            self.page_table.map(mem, fa, vpn, ppn, area.get_map_perm());
            proof {
                let m_map = *mem;
                // data frames survive the page-table update.
                assert forall|q: int|
                    m_fill.is_data(q) implies #[trigger] m_map.frame(q) == m_fill.frame(q) by {
                    if m_map.frame(q) != m_fill.frame(q) {
                        assert(m_fill.frame(q) is Free || self.page_table.owns(q));
                    }
                }
                if area.is_framed() {
                    assert forall|u: int|
                        start <= u < v + 1 implies ((#[trigger] area.frame_of(u)) matches Some(f)
                        && m_map.data(f as int) == expected_page(pd, u - start)) by {
                        if u < v {
                            assert(area_pre.frame_of(u) is Some);
                            assert(area.frame_of(u) == area_pre.frame_of(u));
                            let f = area.frame_of(u)->Some_0;
                            assert(m_pre.data(f as int) == expected_page(pd, u - start));
                            assert(m_pre.is_data(f as int)) by {
                                crate::mm::memory_area::lemma_find_frame_entry(
                                    area_pre.mapping->Framed_0@,
                                    u,
                                );
                                let k = choose|k: int|
                                    0 <= k < area_pre.mapping->Framed_0@.len()
                                        && area_pre.mapping->Framed_0@[k].0.0 == u
                                        && area_pre.mapping->Framed_0@[k].1.0.0 == f;
                                assert(m_pre.is_data(
                                    area_pre.mapping->Framed_0@[k].1.0.0 as int,
                                ));
                            }
                            assert(m_fill.frame(f as int) == m_pre.frame(f as int)) by {
                                assert(m_pre.is_free(ppn.0 as int));
                                assert(f as int != ppn.0 as int);
                                assert(m_pre.same_except(m_fill, ppn.0 as int));
                            }
                            assert(m_map.frame(f as int) == m_fill.frame(f as int));
                        } else {
                            assert(area.frame_of(u) == Some(ppn.0));
                            assert(m_map.data(ppn.0 as int) == expected_page(pd, u - start));
                        }
                    }
                }
                // lookups of previously mapped pages are unchanged.
                assert forall|u: int| start <= u < v + 1 implies match lookup(
                    m_map,
                    s0.root(),
                    u as u64,
                ) {
                    Some(e) => Some(e.ppn_spec()) == (#[trigger] area.frame_of(u))
                        && e.flags_spec() == area.map_perm + 1,
                    None => false,
                } by {
                    if u < v {
                        assert(lookup(m_map, s0.root(), u as u64) == lookup(
                            m_fill,
                            s0.root(),
                            u as u64,
                        ));
                        assert(lookup(m_fill, s0.root(), u as u64) == lookup(
                            m_pre,
                            s0.root(),
                            u as u64,
                        ));
                        assert(area.frame_of(u) == area_pre.frame_of(u));
                    } else {
                        assert(lookup(m_map, s0.root(), u as u64) matches Some(e) && e.ppn_spec()
                            == ppn.0 && e.flags_spec() == area.map_perm + 1);
                        if area.is_framed() {
                            assert(area.frame_of(u) == Some(ppn.0));
                        } else {
                            assert(area.frame_of(u) == Some(u as u64));
                            assert(ppn.0 == vpn.0);
                        }
                    }
                }
                // the accumulated footprint.
                assert forall|q: int|
                    m0.contains(q) && #[trigger] m_map.frame(q) != m0.frame(q) implies m0.frame(
                    q,
                ) is Free || s0.page_table.owns(q) by {
                    if m_map.frame(q) != m_fill.frame(q) {
                        if m_fill.frame(q) is Free {
                            if m_fill.frame(q) != m0.frame(q) {
                                if s0.page_table.owns(q) {
                                } else {
                                    assert(m0.frame(q) is Free);
                                }
                            }
                        } else {
                            assert(self.page_table.owns(q));
                            assert(s0.page_table.owns(q) || m0.frame(q) is Free);
                        }
                    } else if m_fill.frame(q) != m0.frame(q) {
                    }
                }
                // framed_upto extends by one page.
                if area.is_framed() {
                    let pairs0 = area_pre.mapping->Framed_0@;
                    assert forall|k: int| 0 <= k < pairs0.len() implies m_map.is_data(
                        (#[trigger] pairs0[k]).1.0.0 as int,
                    ) by {
                        assert(m_pre.is_data(pairs0[k].1.0.0 as int));
                        assert(area_pre.has_frame(pairs0[k].1.0.0 as int));
                        assert(m_fill.frame(pairs0[k].1.0.0 as int) == m_pre.frame(
                            pairs0[k].1.0.0 as int,
                        ));
                        assert(m_map.frame(pairs0[k].1.0.0 as int) == m_fill.frame(
                            pairs0[k].1.0.0 as int,
                        ));
                    }
                    crate::mm::memory_area::lemma_framed_upto_extend(
                        area_pre,
                        area,
                        m_pre,
                        m_map,
                        v as int,
                        ppn.0,
                    );
                }
            }
            v = v + 1;
        }
        // Record the new area.
        let ghost area_final = area;
        self.areas.push((area, droppable));
        proof {
            let sf = *self;
            let mf = *mem;
            let last = s0.areas@.len() as int;
            assert(sf.areas@ == s0.areas@.push((area_final, droppable)));
            assert(sf.areas@[last].0 == area_final);
            assert forall|a: int| 0 <= a < last implies #[trigger] sf.areas@[a] == s0.areas@[a] by {}
            // each old area keeps its well-formedness and translations.
            assert forall|a: int|
                0 <= a < sf.areas@.len() implies (#[trigger] sf.areas@[a]).0.wf_in(mf) by {
                if a < last {
                    lemma_area_wf_in_preserved(s0, sf.areas@[a].0, m0, mf);
                } else {
                    assert(area_final.framed_upto(mf, area_final.vpn_range.end_spec()));
                }
            }
            assert forall|a: int, b: int|
                0 <= a < b < sf.areas@.len() implies !(#[trigger] sf.areas@[a]).0.vpn_range.overlaps(
                (#[trigger] sf.areas@[b]).0.vpn_range,
            ) by {
                if b < last {
                    assert(s0.areas@[a] == sf.areas@[a] && s0.areas@[b] == sf.areas@[b]);
                } else {
                    assert(!new_area.vpn_range.overlaps(s0.areas@[a].0.vpn_range));
                }
            }
            assert forall|a: int, u: int|
                0 <= a < sf.areas@.len() && #[trigger] sf.areas@[a].0.vpn_range.contains_vpn(
                    u,
                ) implies sf.lookup_matches_area(mf, a, u) by {
                if a < last {
                    assert(s0.lookup_matches_area(m0, a, u));
                    assert(0 <= u < VPN_BOUND);
                    assert(!(start <= u < end)) by {
                        if start <= u < end {
                            assert(new_area.vpn_range.overlaps(s0.areas@[a].0.vpn_range));
                        }
                    }
                    assert(lookup(mf, s0.root(), u as u64) == lookup(m0, s0.root(), u as u64));
                } else {
                }
            }
            match sf.trampoline {
                Some(p) => {
                    assert(lookup(mf, sf.root(), TRAMPOLINE_VPN) == lookup(
                        m0,
                        s0.root(),
                        TRAMPOLINE_VPN,
                    ));
                },
                None => {},
            }
            assert forall|w: u64|
                w < VPN_BOUND && !sf.covered(w as int) && !(sf.trampoline is Some && w
                    == TRAMPOLINE_VPN) implies #[trigger] lookup(mf, sf.root(), w) is None by {
                assert(!s0.covered(w as int)) by {
                    if s0.covered(w as int) {
                        let a = choose|a: int|
                            0 <= a < s0.areas@.len()
                                && (#[trigger] s0.areas@[a]).0.vpn_range.contains_vpn(w as int);
                        assert(sf.areas@[a].0.vpn_range.contains_vpn(w as int));
                        assert(sf.covered(w as int));
                    }
                }
                assert(!(start <= w < end)) by {
                    if start <= w < end {
                        assert(sf.areas@[last].0.vpn_range.contains_vpn(w as int));
                        assert(sf.covered(w as int));
                    }
                }
                assert(lookup(mf, s0.root(), w) == lookup(m0, s0.root(), w));
            }
            assert forall|a: int|
                0 <= a < sf.areas@.len() implies !(
            #[trigger] sf.areas@[a]).0.vpn_range.contains_vpn(TRAMPOLINE_VPN as int) by {
                if a < last {
                    assert(s0.areas@[a] == sf.areas@[a]);
                }
            }
            assert forall|a: int, b: int, q: int|
                0 <= a < sf.areas@.len() && 0 <= b < sf.areas@.len() && a != b implies !(
            #[trigger] sf.areas@[a].0.has_frame(q) && #[trigger] sf.areas@[b].0.has_frame(q)) by {
                if sf.areas@[a].0.has_frame(q) && sf.areas@[b].0.has_frame(q) {
                    if a < last && b < last {
                        assert(s0.areas@[a].0.has_frame(q) && s0.areas@[b].0.has_frame(q));
                    } else {
                        let o = if a < last {
                            a
                        } else {
                            b
                        };
                        assert(s0.areas@[o].0.has_frame(q));
                        assert(area_final.has_frame(q));
                        assert(m0.frame(q) is Free);
                        assert(s0.areas@[o].0.wf_in(m0));
                        let pairs = s0.areas@[o].0.mapping->Framed_0@;
                        let k = choose|k: int| 0 <= k < pairs.len() && pairs[k].1.0.0 == q;
                        assert(m0.is_data(q));
                    }
                }
            }
            assert forall|q: int| #[trigger] sf.owns_frame(q) implies s0.owns_frame(q) || m0.frame(
                q,
            ) is Free by {
                if sf.page_table.owns(q) {
                } else {
                    let a = choose|a: int|
                        0 <= a < sf.areas@.len() && (#[trigger] sf.areas@[a]).0.has_frame(q);
                    if a < last {
                        assert(s0.areas@[a].0.has_frame(q));
                        assert(s0.owns_frame(q));
                    } else {
                        assert(area_final.has_frame(q));
                    }
                }
            }
            assert(sf.wf(mf));
        }
        Ok(())
    }
}


impl MemorySet {
    /// Whether some area is droppable and matches `range` exactly.
    pub open spec fn has_droppable_match(self, range: VirtPageNumRange) -> bool {
        exists|a: int|
            0 <= a < self.areas@.len() && (#[trigger] self.areas@[a]).1
                && self.areas@[a].0.vpn_range == range
    }

    /// Remove the area whose range equals `vpn_range` exactly and is
    /// droppable: unmap every page and recycle its backing frames. A
    /// range that matches no droppable area is rejected without mutation.
    #[verifier::rlimit(100)]
    #[verifier::spinoff_prover]
    pub fn drop_area(
        &mut self,
        mem: &mut PhysMemory,
        fa: &mut StackFrameAllocator,
        vpn_range: VirtPageNumRange,
    ) -> (r: Result<(), KernelError>)
        requires
            old(self).wf(*old(mem)),
            old(fa).wf(*old(mem)),
            old(fa).end.0 as int == old(mem).end_spec(),
        ensures
            final(self).wf(*final(mem)),
            final(fa).wf(*final(mem)),
            final(fa).end == old(fa).end,
            final(mem).base_spec() == old(mem).base_spec(),
            final(mem).end_spec() == old(mem).end_spec(),
            r is Err <==> !old(self).has_droppable_match(vpn_range),
            r is Err ==> *final(self) == *old(self) && *final(mem) == *old(mem) && *final(fa)
                == *old(fa),
            r is Ok ==> {
                &&& final(self).areas@.len() == old(self).areas@.len() - 1
                &&& final(self).trampoline == old(self).trampoline
                &&& final(self).page_table.root_ppn == old(self).page_table.root_ppn
                &&& forall|w: u64|
                    w < VPN_BOUND && vpn_range.contains_vpn(w as int) ==> #[trigger] lookup(
                        *final(mem),
                        old(self).root(),
                        w,
                    ) is None
                &&& forall|w: u64|
                    w < VPN_BOUND && !vpn_range.contains_vpn(w as int) ==> #[trigger] lookup(
                        *final(mem),
                        old(self).root(),
                        w,
                    ) == lookup(*old(mem), old(self).root(), w)
                &&& forall|q: int|
                    old(mem).contains(q) && #[trigger] final(mem).frame(q) != old(mem).frame(q)
                        ==> old(self).owns_frame(q)
                &&& forall|q: int|
                    #[trigger] final(self).owns_frame(q) ==> old(self).owns_frame(q)
                &&& final(fa).free_count() >= old(fa).free_count()
                &&& exists|a: int|
                    0 <= a < old(self).areas@.len() && (#[trigger] old(self).areas@[a]).1 && old(
                        self,
                    ).areas@[a].0.vpn_range == vpn_range && final(self).areas@ == old(
                        self,
                    ).areas@.remove(a)
            },
    {
        let n: usize = self.areas.len();
        let mut i: usize = 0;
        let mut found: Option<usize> = None;
        while i < n
            invariant
                old(self).wf(*old(mem)),
                old(fa).wf(*old(mem)),
                *self == *old(self),
                *mem == *old(mem),
                *fa == *old(fa),
                n == self.areas@.len(),
                i <= n,
                match found {
                    Some(k) => 0 <= k < n && self.areas@[k as int].1
                        && self.areas@[k as int].0.vpn_range == vpn_range,
                    None => forall|a: int|
                        0 <= a < i ==> !((#[trigger] self.areas@[a]).1 && self.areas@[a].0.vpn_range
                            == vpn_range),
                },
            decreases n - i,
        {
            match found {
                Some(_) => {},
                None => {
                    let droppable: bool = self.areas[i].1;
                    let r2 = self.areas[i].0.get_vpn_range();
                    if droppable && r2.get_start().0 == vpn_range.get_start().0 && r2.get_end().0
                        == vpn_range.get_end().0 {
                        proof {
                            assert(r2 == vpn_range);
                        }
                        found = Some(i);
                    }
                },
            }
            i = i + 1;
        }
        let idx: usize = match found {
            Some(k) => k,
            None => {
                proof {
                    assert(!old(self).has_droppable_match(vpn_range));
                }
                return Err(
                    KernelError::InvalidArgument(
                        String::from_str("no droppable area matches the range"),
                    ),
                );
            },
        };
        proof {
            assert(old(self).has_droppable_match(vpn_range));
        }
        let pair = self.areas.remove(idx);
        let area = pair.0;
        let ghost s0 = *old(self);
        let ghost m0 = *old(mem);
        let ghost fa0 = *old(fa);
        let start: u64 = area.get_vpn_range().get_start().0;
        let end: u64 = area.get_vpn_range().get_end().0;
        proof {
            assert(area == s0.areas@[idx as int].0);
            assert(area.wf_in(m0));
            assert(self.areas@ == s0.areas@.remove(idx as int));
            assert(start == vpn_range.start_spec() && end == vpn_range.end_spec());
        }
        proof {
            assert forall|u: int| start <= u < end implies ((#[trigger] lookup(
                m0,
                s0.root(),
                u as u64,
            )) matches Some(e) && Some(e.ppn_spec()) == area.frame_of(u)) by {
                assert(s0.areas@[idx as int].0.vpn_range.contains_vpn(u));
                assert(s0.lookup_matches_area(m0, idx as int, u));
            }
            if area.is_framed() {
                assert forall|u: int| start <= u < end implies ((#[trigger] area.frame_of(
                    u,
                )) matches Some(f) && mem.is_data(f as int)) by {
                    assert(area.vpn_range.contains_vpn(u));
                    assert(area.frame_of(u) is Some);
                    let f = area.frame_of(u)->Some_0;
                    crate::mm::memory_area::lemma_find_frame_entry(area.mapping->Framed_0@, u);
                    let k = choose|k: int|
                        0 <= k < area.mapping->Framed_0@.len() && area.mapping->Framed_0@[k].0.0
                            == u && area.mapping->Framed_0@[k].1.0.0 == f;
                    assert(m0.is_data(area.mapping->Framed_0@[k].1.0.0 as int));
                }
            }
        }
        let mut v: u64 = start;
        while v < end
            invariant
                start <= v <= end,
                end <= VPN_BOUND,
                0 <= idx < s0.areas@.len(),
                area == s0.areas@[idx as int].0,
                start == area.vpn_range.start_spec(),
                end == area.vpn_range.end_spec(),
                forall|u: int|
                    start <= u < end ==> ((#[trigger] lookup(m0, s0.root(), u as u64)) matches Some(
                        e,
                    ) && Some(e.ppn_spec()) == area.frame_of(u)),
                area.pairs_distinct(),
                mem.wf(),
                self.page_table.wf(*mem),
                self.page_table == s0.page_table,
                fa.wf(*mem),
                fa.end == fa0.end,
                fa.end.0 as int == mem.end_spec(),
                fa.free_count() >= fa0.free_count(),
                mem.base_spec() == m0.base_spec(),
                mem.end_spec() == m0.end_spec(),
                self.areas@ == s0.areas@.remove(idx as int),
                self.trampoline == s0.trampoline,
                forall|u: int|
                    start <= u < v ==> #[trigger] lookup(*mem, s0.root(), u as u64) is None,
                forall|u: int|
                    v <= u < end ==> #[trigger] lookup(*mem, s0.root(), u as u64) == lookup(
                        m0,
                        s0.root(),
                        u as u64,
                    ),
                forall|u: int|
                    v <= u < end && area.is_framed() ==> ((#[trigger] area.frame_of(
                        u,
                    )) matches Some(f) && mem.is_data(f as int)),
                forall|w: u64|
                    w < VPN_BOUND && !(start <= w < end) ==> #[trigger] lookup(*mem, s0.root(), w)
                        == lookup(m0, s0.root(), w),
                forall|q: int|
                    m0.contains(q) && #[trigger] mem.frame(q) != m0.frame(q) ==> s0.page_table.owns(
                        q,
                    ) || area.has_frame(q),
            decreases end - v,
        {
            let vpn = VirtPageNum(v);
            let ghost m_pre = *mem;
            proof {
                assert(lookup(m_pre, s0.root(), vpn.0) == lookup(m0, s0.root(), vpn.0));
                assert(lookup(m_pre, s0.root(), vpn.0) is Some);
            }
            let pte = match self.page_table.translate(mem, vpn) {
                Some(e) => e,
                None => {
                    proof {
                        assert(false);
                    }
                    PageTableEntry::empty()
                },
            };
            let frame: PhysPageNum = pte.ppn();
            self.page_table.unmap(mem, vpn);
            let ghost m_unmap = *mem;
            proof {
                assert forall|q: int| m_pre.is_free(q) implies #[trigger] m_unmap.frame(q)
                    == m_pre.frame(q) by {
                    if m_unmap.frame(q) != m_pre.frame(q) {
                        assert(self.page_table.owns(q));
                        assert(m_pre.is_table(q));
                    }
                }
                crate::mm::frame_allocator::lemma_fa_wf_free_frames_unchanged(*fa, m_pre, m_unmap);
                assert(Some(frame.0) == area.frame_of(v as int));
                assert forall|u: int|
                    v + 1 <= u < end implies #[trigger] lookup(m_unmap, s0.root(), u as u64)
                    == lookup(m0, s0.root(), u as u64) by {
                    assert(u as u64 != vpn.0);
                    assert(lookup(m_unmap, s0.root(), u as u64) == lookup(
                        m_pre,
                        s0.root(),
                        u as u64,
                    ));
                }
            }
            let is_framed: bool = match &area.mapping {
                Mapping::Identical => false,
                Mapping::Framed(_) => true,
            };
            if is_framed {
                proof {
                    assert(area.frame_of(v as int) matches Some(f) && m_unmap.is_data(f as int))
                        by {
                        assert(mem.frame(frame.0 as int) == m_pre.frame(frame.0 as int)) by {
                            assert(m_pre.is_data(frame.0 as int));
                            if m_unmap.frame(frame.0 as int) != m_pre.frame(frame.0 as int) {
                                assert(self.page_table.owns(frame.0 as int));
                                assert(m_pre.is_table(frame.0 as int));
                            }
                        }
                    }
                    assert(!m_unmap.is_free(frame.0 as int));
                    assert(!fa.recycled_contains(frame.0 as int)) by {
                        if fa.recycled_contains(frame.0 as int) {
                            let k = choose|k: int|
                                0 <= k < fa.recycled@.len() && fa.recycled@[k].0 == frame.0 as int;
                            assert(m_unmap.is_free(fa.recycled@[k].0 as int));
                        }
                    }
                    assert(frame.0 < fa.current.0) by {
                        assert(m_unmap.is_data(frame.0 as int));
                        assert((frame.0 as int) < m_unmap.end_spec());
                        if frame.0 >= fa.current.0 {
                            assert(m_unmap.is_free(frame.0 as int));
                        }
                    }
                }
                let res = fa.dealloc(mem, frame);
                proof {
                    assert(res is Ok);
                    lemma_drop_dealloc_post(
                        self.page_table,
                        area,
                        m_unmap,
                        *mem,
                        frame.0,
                        v as int,
                        end as int,
                    );
                    assert(area.has_frame(frame.0 as int)) by {
                        crate::mm::memory_area::lemma_find_frame_entry(
                            area.mapping->Framed_0@,
                            v as int,
                        );
                    }
                }
            }
            proof {
                assert forall|q: int|
                    m0.contains(q) && #[trigger] mem.frame(q) != m0.frame(q) implies s0
                    .page_table.owns(q) || area.has_frame(q) by {
                    if mem.frame(q) != m_unmap.frame(q) {
                        assert(q == frame.0 as int);
                    } else if m_unmap.frame(q) != m_pre.frame(q) {
                        assert(self.page_table.owns(q));
                    }
                }
            }
            v = v + 1;
        }
        proof {
            let sf = *self;
            let mf = *mem;
            let last = s0.areas@.len() - 1;
            assert forall|a: int|
                0 <= a < sf.areas@.len() implies #[trigger] sf.areas@[a] == (if a < idx {
                s0.areas@[a]
            } else {
                s0.areas@[a + 1]
            }) by {}
            assert forall|a: int|
                0 <= a < sf.areas@.len() implies (#[trigger] sf.areas@[a]).0.wf_in(mf) by {
                let a0 = if a < idx {
                    a
                } else {
                    a + 1
                };
                assert(sf.areas@[a] == s0.areas@[a0]);
                let ar = s0.areas@[a0].0;
                assert(ar.wf_in(m0));
                match ar.mapping {
                    Mapping::Identical => {},
                    Mapping::Framed(pairs) => {
                        assert forall|k: int| 0 <= k < pairs@.len() implies mf.is_data(
                            (#[trigger] pairs@[k]).1.0.0 as int,
                        ) by {
                            let q = pairs@[k].1.0.0 as int;
                            assert(m0.is_data(q));
                            assert(ar.has_frame(q));
                            if mf.frame(q) != m0.frame(q) {
                                if s0.page_table.owns(q) {
                                    assert(m0.is_table(q));
                                } else {
                                    assert(area.has_frame(q));
                                    assert(a0 != idx);
                                    assert(s0.areas@[a0].0.has_frame(q) && s0.areas@[idx
                                        as int].0.has_frame(q));
                                }
                            }
                        }
                    },
                }
            }
            assert forall|a: int, b: int|
                0 <= a < b < sf.areas@.len() implies !(#[trigger] sf.areas@[a]).0.vpn_range.overlaps(
                (#[trigger] sf.areas@[b]).0.vpn_range,
            ) by {
                let a0 = if a < idx {
                    a
                } else {
                    a + 1
                };
                let b0 = if b < idx {
                    b
                } else {
                    b + 1
                };
                assert(sf.areas@[a] == s0.areas@[a0] && sf.areas@[b] == s0.areas@[b0]);
            }
            assert forall|a: int, u: int|
                0 <= a < sf.areas@.len() && #[trigger] sf.areas@[a].0.vpn_range.contains_vpn(
                    u,
                ) implies sf.lookup_matches_area(mf, a, u) by {
                let a0 = if a < idx {
                    a
                } else {
                    a + 1
                };
                assert(sf.areas@[a] == s0.areas@[a0]);
                assert(s0.areas@[a0].0.vpn_range.contains_vpn(u));
                assert(s0.lookup_matches_area(m0, a0, u));
                assert(0 <= u < VPN_BOUND);
                assert(!(start <= u < end)) by {
                    if start <= u < end {
                        assert(a0 != idx);
                        assert(s0.areas@[a0].0.vpn_range.overlaps(s0.areas@[idx as int].0.vpn_range))
                            ;
                    }
                }
                assert(lookup(mf, s0.root(), u as u64) == lookup(m0, s0.root(), u as u64));
            }
            match sf.trampoline {
                Some(p) => {
                    assert(!(start <= TRAMPOLINE_VPN < end)) by {
                        assert(!s0.areas@[idx as int].0.vpn_range.contains_vpn(
                            TRAMPOLINE_VPN as int,
                        ));
                    }
                    assert(lookup(mf, sf.root(), TRAMPOLINE_VPN) == lookup(
                        m0,
                        s0.root(),
                        TRAMPOLINE_VPN,
                    ));
                },
                None => {},
            }
            assert forall|w: u64|
                w < VPN_BOUND && !sf.covered(w as int) && !(sf.trampoline is Some && w
                    == TRAMPOLINE_VPN) implies #[trigger] lookup(mf, sf.root(), w) is None by {
                if start <= w < end {
                } else {
                    assert(lookup(mf, s0.root(), w) == lookup(m0, s0.root(), w));
                    assert(!s0.covered(w as int)) by {
                        if s0.covered(w as int) {
                            let a0 = choose|a0: int|
                                0 <= a0 < s0.areas@.len()
                                    && (#[trigger] s0.areas@[a0]).0.vpn_range.contains_vpn(w as int);
                            assert(a0 == idx) by {
                                if a0 != idx {
                                    let a = if a0 < idx {
                                        a0
                                    } else {
                                        a0 - 1
                                    };
                                    assert(sf.areas@[a] == s0.areas@[a0]);
                                    assert(sf.covered(w as int));
                                }
                            }
                        }
                    }
                }
            }
            assert forall|a: int|
                0 <= a < sf.areas@.len() implies !(
            #[trigger] sf.areas@[a]).0.vpn_range.contains_vpn(TRAMPOLINE_VPN as int) by {
                let a0 = if a < idx {
                    a
                } else {
                    a + 1
                };
                assert(sf.areas@[a] == s0.areas@[a0]);
            }
            assert forall|a: int, b: int, q: int|
                0 <= a < sf.areas@.len() && 0 <= b < sf.areas@.len() && a != b implies !(
            #[trigger] sf.areas@[a].0.has_frame(q) && #[trigger] sf.areas@[b].0.has_frame(q)) by {
                let a0 = if a < idx {
                    a
                } else {
                    a + 1
                };
                let b0 = if b < idx {
                    b
                } else {
                    b + 1
                };
                assert(sf.areas@[a] == s0.areas@[a0] && sf.areas@[b] == s0.areas@[b0]);
                assert(!(s0.areas@[a0].0.has_frame(q) && s0.areas@[b0].0.has_frame(q)));
            }
            assert(sf.wf(mf));
            assert forall|q: int|
                m0.contains(q) && #[trigger] mf.frame(q) != m0.frame(q) implies s0.owns_frame(
                q,
            ) by {
                if area.has_frame(q) {
                    assert(s0.areas@[idx as int].0.has_frame(q));
                }
            }
            assert forall|q: int| #[trigger] sf.owns_frame(q) implies s0.owns_frame(q) by {
                if sf.page_table.owns(q) {
                } else {
                    let a = choose|a: int|
                        0 <= a < sf.areas@.len() && (#[trigger] sf.areas@[a]).0.has_frame(q);
                    let a0 = if a < idx {
                        a
                    } else {
                        a + 1
                    };
                    assert(sf.areas@[a] == s0.areas@[a0]);
                    assert(s0.areas@[a0].0.has_frame(q));
                }
            }
            assert((s0.areas@[idx as int]).1 && s0.areas@[idx as int].0.vpn_range == vpn_range
                && sf.areas@ == s0.areas@.remove(idx as int));
        }
        Ok(())
    }
}


/// Recycling one backing frame of an area keeps the page table, the
/// allocator coupling, every translation, and the remaining backing
/// frames intact.
proof fn lemma_drop_dealloc_post(
    pt: PageTable,
    area: MemoryArea,
    m1: PhysMemory,
    m2: PhysMemory,
    frame: u64,
    v: int,
    hi: int,
)
    requires
        pt.wf(m1),
        m1.wf(),
        area.is_framed(),
        area.pairs_distinct(),
        area.frame_of(v) == Some(frame),
        m1.is_data(frame as int),
        !m2.is_table(frame as int),
        forall|u: int|
            v + 1 <= u < hi ==> ((#[trigger] area.frame_of(u)) matches Some(f) && m1.is_data(
                f as int,
            )),
        m1.same_except(m2, frame as int),
    ensures
        pt.wf(m2),
        forall|w: u64| #[trigger] lookup(m2, pt.root(), w) == lookup(m1, pt.root(), w),
        forall|u: int|
            v + 1 <= u < hi ==> ((#[trigger] area.frame_of(u)) matches Some(f) && m2.is_data(
                f as int,
            )),
{
    crate::mm::page_table::lemma_nondir_frame_update(pt, m1, m2, frame as int);
    assert forall|u: int| v + 1 <= u < hi implies ((#[trigger] area.frame_of(u)) matches Some(f)
        && m2.is_data(f as int)) by {
        let f = area.frame_of(u)->Some_0;
        assert(m1.is_data(f as int));
        area.lemma_distinct_frames(u, v);
        assert(f != frame);
        assert(m2.frame(f as int) == m1.frame(f as int));
    }
}


/// Link-time section boundaries of the kernel image, supplied at boot.
pub struct KernelLayout {
    pub stext: u64,
    pub etext: u64,
    pub srodata: u64,
    pub erodata: u64,
    pub sdata: u64,
    pub edata: u64,
    pub sbss_with_stack: u64,
    pub ebss: u64,
    pub ekernel: u64,
    pub strampoline: u64,
}

impl KernelLayout {
    /// All section addresses lie in the identical-mapped low range and
    /// each section ends no earlier than it starts.
    pub open spec fn wf(self) -> bool {
        &&& self.stext <= self.etext < VA_BOUND
        &&& self.srodata <= self.erodata < VA_BOUND
        &&& self.sdata <= self.edata < VA_BOUND
        &&& self.sbss_with_stack <= self.ebss < VA_BOUND
        &&& self.ekernel <= crate::config::MEMORY_END
        &&& self.strampoline < VA_BOUND
        &&& crate::config::MEMORY_END < VA_BOUND
    }
}

impl MemorySet {
    /// The kernel's own address space: the trampoline page plus
    /// identity-mapped text (R+X), rodata (R), data (R+W), bss (R+W) and
    /// the remaining physical memory (R+W), each derived from the
    /// link-time layout. Identity mapping keeps control flow alive at the
    /// instant the MMU starts using this table.
    #[verifier::rlimit(100)]
    #[verifier::spinoff_prover]
    pub fn new_kernel(
        mem: &mut PhysMemory,
        fa: &mut StackFrameAllocator,
        layout: &KernelLayout,
    ) -> (r: Result<MemorySet, KernelError>)
        requires
            old(fa).wf(*old(mem)),
            layout.wf(),
        ensures
            final(fa).wf(*final(mem)),
            final(fa).end == old(fa).end,
            final(mem).base_spec() == old(mem).base_spec(),
            final(mem).end_spec() == old(mem).end_spec(),
            r matches Ok(ms) ==> {
                &&& ms.wf(*final(mem))
                &&& ms.trampoline == Some(
                    PhysPageNum((layout.strampoline as int / PAGE_SIZE as int) as u64),
                )
                &&& ms.areas@.len() == 5
                &&& forall|a: int| 0 <= a < 5 ==> !(#[trigger] ms.areas@[a]).1
                &&& forall|a: int| 0 <= a < 5 ==> !(#[trigger] ms.areas@[a]).0.is_framed()
                &&& ms.areas@[0].0.map_perm == 10
                &&& ms.areas@[1].0.map_perm == 2
                &&& ms.areas@[2].0.map_perm == 6
                &&& ms.areas@[3].0.map_perm == 6
                &&& ms.areas@[4].0.map_perm == 6
                &&& ms.areas@[0].0.vpn_range.start_spec() == layout.stext as int / PAGE_SIZE as int
                &&& ms.areas@[0].0.vpn_range.end_spec() == (layout.etext + PAGE_SIZE - 1) as int
                    / PAGE_SIZE as int
                &&& ms.areas@[1].0.vpn_range.start_spec() == layout.srodata as int
                    / PAGE_SIZE as int
                &&& ms.areas@[2].0.vpn_range.start_spec() == layout.sdata as int / PAGE_SIZE as int
                &&& ms.areas@[3].0.vpn_range.start_spec() == layout.sbss_with_stack as int
                    / PAGE_SIZE as int
                &&& ms.areas@[4].0.vpn_range.start_spec() == layout.ekernel as int
                    / PAGE_SIZE as int
                &&& forall|q: int|
                    old(mem).contains(q) && #[trigger] final(mem).frame(q) != old(mem).frame(q)
                        ==> old(mem).frame(q) is Free
                &&& forall|q: int|
                    old(mem).contains(q) && #[trigger] ms.owns_frame(q) ==> old(mem).frame(
                        q,
                    ) is Free
            },
            r is Err ==> new_kernel_rejects(*layout, old(fa).free_count()),
    {
        proof {
            lemma_krange_wf(layout.stext, layout.etext);
            lemma_krange_wf(layout.srodata, layout.erodata);
            lemma_krange_wf(layout.sdata, layout.edata);
            lemma_krange_wf(layout.sbss_with_stack, layout.ebss);
            lemma_krange_wf(layout.ekernel, crate::config::MEMORY_END);
            lemma_frames_needed_nonneg(krange(layout.stext, layout.etext));
            lemma_frames_needed_nonneg(krange(layout.srodata, layout.erodata));
            lemma_frames_needed_nonneg(krange(layout.sdata, layout.edata));
            lemma_frames_needed_nonneg(krange(layout.sbss_with_stack, layout.ebss));
            lemma_frames_needed_nonneg(krange(layout.ekernel, crate::config::MEMORY_END));
        }
        if !fa.has_free(3) {
            return Err(KernelError::OutOfFrames);
        }
        let ghost m0 = *mem;
        let mut memory_set = MemorySet::new(mem, fa);
        let ghost sa = memory_set;
        let ghost ma = *mem;
        proof {
            assert forall|q: int|
                m0.contains(q) && #[trigger] ma.frame(q) != m0.frame(q) implies m0.frame(
                q,
            ) is Free || sa.owns_frame(q) by {
                assert(q == sa.root());
            }
        }
        memory_set.map_trampoline(
            mem,
            fa,
            crate::mm::address::PhysAddr::from_usize(layout.strampoline).floor(),
        );
        let ghost sb = memory_set;
        let ghost mb = *mem;
        proof {
            lemma_footprint_chain(sa, sa, sb, m0, ma, mb);
        }
        let r_x: u8 = PTE_R | PTE_X;
        let r_only: u8 = PTE_R;
        proof {
            assert((2u8 | 8u8) == 10u8) by (bit_vector);
        }
        match push_identical(&mut memory_set, mem, fa, layout.stext, layout.etext, r_x) {
            Ok(_) => {},
            Err(e) => {
                return Err(e);
            },
        }
        let ghost sc = memory_set;
        let ghost mc = *mem;
        proof {
            lemma_footprint_chain(sa, sb, sc, m0, mb, mc);
        }
        match push_identical(&mut memory_set, mem, fa, layout.srodata, layout.erodata, r_only) {
            Ok(_) => {},
            Err(e) => {
                return Err(e);
            },
        }
        let ghost sd = memory_set;
        let ghost md = *mem;
        proof {
            lemma_footprint_chain(sa, sc, sd, m0, mc, md);
        }
        match kernel_areas_tail(&mut memory_set, mem, fa, layout) {
            Ok(_) => {},
            Err(e) => {
                return Err(e);
            },
        }
        proof {
            lemma_footprint_chain(sa, sd, memory_set, m0, md, *mem);
            assert forall|q: int|
                m0.contains(q) && #[trigger] mem.frame(q) != m0.frame(q) implies m0.frame(
                q,
            ) is Free by {
                if memory_set.owns_frame(q) || sa.owns_frame(q) {
                }
                if !(m0.frame(q) is Free) {
                    assert(sa.owns_frame(q));
                    assert(q == sa.root());
                    assert(m0.is_free(sa.root()));
                }
            }
            assert forall|q: int|
                m0.contains(q) && #[trigger] memory_set.owns_frame(q) implies m0.frame(
                q,
            ) is Free by {
                if !(m0.frame(q) is Free) {
                    assert(sa.owns_frame(q));
                    assert(q == sa.root());
                    assert(m0.is_free(sa.root()));
                }
            }
        }
        Ok(memory_set)
    }
}

/// Check that the freshly built kernel space protects its sections: the
/// middle of text and rodata must not be writable, the middle of data
/// must not be executable. Returns whether all three checks pass.
pub fn remap_kernel_test(ms: &MemorySet, mem: &PhysMemory, layout: &KernelLayout) -> (r: bool)
    requires
        layout.wf(),
    ensures
        r == ({
            let mid_text = ((layout.stext + layout.etext) as int / 2) % VA_BOUND as int;
            let mid_rodata = ((layout.srodata + layout.erodata) as int / 2) % VA_BOUND as int;
            let mid_data = ((layout.sdata + layout.edata) as int / 2) % VA_BOUND as int;
            &&& lookup(*mem, ms.root(), (mid_text / PAGE_SIZE as int) as u64) matches Some(e)
                && !e.writable_spec()
            &&& lookup(*mem, ms.root(), (mid_rodata / PAGE_SIZE as int) as u64) matches Some(e2)
                && !e2.writable_spec()
            &&& lookup(*mem, ms.root(), (mid_data / PAGE_SIZE as int) as u64) matches Some(e3)
                && !e3.executable_spec()
        }),
{
    let mid_text = crate::mm::address::VirtAddr::from_usize((layout.stext + layout.etext) / 2);
    let mid_rodata = crate::mm::address::VirtAddr::from_usize(
        (layout.srodata + layout.erodata) / 2,
    );
    let mid_data = crate::mm::address::VirtAddr::from_usize((layout.sdata + layout.edata) / 2);
    let t = match ms.translate_entry(mem, mid_text.floor()) {
        Some(e) => e.is_valid() && !e.writable(),
        None => false,
    };
    let ro = match ms.translate_entry(mem, mid_rodata.floor()) {
        Some(e) => e.is_valid() && !e.writable(),
        None => false,
    };
    let d = match ms.translate_entry(mem, mid_data.floor()) {
        Some(e) => e.is_valid() && !e.executable(),
        None => false,
    };
    t && ro && d
}


/// Push one identity-mapped area `[start_va, end_va)` with permissions
/// `perm`, exposing only the structure `new_kernel` needs.
#[verifier::rlimit(100)]
#[verifier::spinoff_prover]
fn push_identical(
    ms: &mut MemorySet,
    mem: &mut PhysMemory,
    fa: &mut StackFrameAllocator,
    start_va: u64,
    end_va: u64,
    perm: u8,
) -> (r: Result<(), KernelError>)
    requires
        old(ms).wf(*old(mem)),
        old(fa).wf(*old(mem)),
        start_va <= end_va,
        end_va < VA_BOUND,
        perm < 32,
        perm % 2 == 0,
    ensures
        final(fa).wf(*final(mem)),
        final(fa).end == old(fa).end,
        final(mem).base_spec() == old(mem).base_spec(),
        final(mem).end_spec() == old(mem).end_spec(),
        r is Err ==> *final(ms) == *old(ms) && *final(mem) == *old(mem) && *final(fa) == *old(fa),
        r is Err <==> old(ms).rejects_push_range(
            *old(fa),
            crate::utils::range::SimpleRange {
                start: crate::mm::address::VirtPageNum(
                    (start_va as int / PAGE_SIZE as int) as u64,
                ),
                end: crate::mm::address::VirtPageNum(
                    ((end_va + PAGE_SIZE - 1) as int / PAGE_SIZE as int) as u64,
                ),
            },
            false,
            None,
        ),
        r is Ok ==> {
            &&& final(ms).wf(*final(mem))
            &&& final(ms).areas@.len() == old(ms).areas@.len() + 1
            &&& forall|a: int|
                0 <= a < old(ms).areas@.len() ==> #[trigger] final(ms).areas@[a] == old(
                    ms,
                ).areas@[a]
            &&& !final(ms).areas@[old(ms).areas@.len() as int].1
            &&& !final(ms).areas@[old(ms).areas@.len() as int].0.is_framed()
            &&& final(ms).areas@[old(ms).areas@.len() as int].0.map_perm == perm
            &&& final(ms).areas@[old(ms).areas@.len() as int].0.vpn_range.start_spec() == start_va
                as int / PAGE_SIZE as int
            &&& final(ms).areas@[old(ms).areas@.len() as int].0.vpn_range.end_spec() == (end_va
                + PAGE_SIZE - 1) as int / PAGE_SIZE as int
            &&& final(ms).trampoline == old(ms).trampoline
            &&& final(ms).page_table.root_ppn == old(ms).page_table.root_ppn
            &&& forall|q: int|
                old(mem).contains(q) && #[trigger] final(mem).frame(q) != old(mem).frame(q)
                    ==> old(mem).frame(q) is Free || old(ms).owns_frame(q)
            &&& forall|q: int|
                old(mem).contains(q) && #[trigger] final(ms).owns_frame(q) ==> old(
                    ms,
                ).owns_frame(q) || old(mem).frame(q) is Free
            &&& final(fa).free_count() >= old(fa).free_count() - MemorySet::frames_needed(
                crate::utils::range::SimpleRange {
                    start: crate::mm::address::VirtPageNum(
                        (start_va as int / PAGE_SIZE as int) as u64,
                    ),
                    end: crate::mm::address::VirtPageNum(
                        ((end_va + PAGE_SIZE - 1) as int / PAGE_SIZE as int) as u64,
                    ),
                },
                false,
            )
        },
{
    let area = MemoryArea::new(
        VirtPageNumRange::new_from_va(
            crate::mm::address::VirtAddr::from_usize(start_va),
            crate::mm::address::VirtAddr::from_usize(end_va),
        ),
        Mapping::Identical,
        perm,
    );
    ms.push_area(mem, fa, area, false, None)
}


/// The last three identity-mapped kernel areas: data, bss, and the
/// physical-memory remainder, all R+W.
#[verifier::rlimit(100)]
#[verifier::spinoff_prover]
fn kernel_areas_tail(
    ms: &mut MemorySet,
    mem: &mut PhysMemory,
    fa: &mut StackFrameAllocator,
    layout: &KernelLayout,
) -> (r: Result<(), KernelError>)
    requires
        old(ms).wf(*old(mem)),
        old(fa).wf(*old(mem)),
        layout.wf(),
    ensures
        final(fa).wf(*final(mem)),
        final(fa).end == old(fa).end,
        final(mem).base_spec() == old(mem).base_spec(),
        final(mem).end_spec() == old(mem).end_spec(),
        final(fa).free_count() >= old(fa).free_count() - MemorySet::frames_needed(
            krange(layout.sdata, layout.edata),
            false,
        ) - MemorySet::frames_needed(krange(layout.sbss_with_stack, layout.ebss), false)
            - MemorySet::frames_needed(krange(layout.ekernel, crate::config::MEMORY_END), false),
        r is Err ==> ({
            let dr = krange(layout.sdata, layout.edata);
            let br = krange(layout.sbss_with_stack, layout.ebss);
            let pr = krange(layout.ekernel, crate::config::MEMORY_END);
            ||| old(ms).rejects_push_range(*old(fa), dr, false, None)
            ||| (exists|a: int|
                0 <= a < old(ms).areas@.len() && br.overlaps(
                    (#[trigger] old(ms).areas@[a]).0.vpn_range,
                ))
            ||| br.overlaps(dr)
            ||| br.contains_vpn(TRAMPOLINE_VPN as int)
            ||| (exists|a: int|
                0 <= a < old(ms).areas@.len() && pr.overlaps(
                    (#[trigger] old(ms).areas@[a]).0.vpn_range,
                ))
            ||| pr.overlaps(dr)
            ||| pr.overlaps(br)
            ||| pr.contains_vpn(TRAMPOLINE_VPN as int)
            ||| old(fa).free_count() < MemorySet::frames_needed(dr, false)
                + MemorySet::frames_needed(br, false) + MemorySet::frames_needed(pr, false)
        }),
        r is Ok ==> {
            &&& final(ms).wf(*final(mem))
            &&& final(ms).areas@.len() == old(ms).areas@.len() + 3
            &&& forall|a: int|
                0 <= a < old(ms).areas@.len() ==> #[trigger] final(ms).areas@[a] == old(
                    ms,
                ).areas@[a]
            &&& forall|a: int|
                old(ms).areas@.len() <= a < final(ms).areas@.len() ==> ((
                #[trigger] final(ms).areas@[a]).1 == false && !final(ms).areas@[a].0.is_framed()
                    && final(ms).areas@[a].0.map_perm == 6)
            &&& final(ms).areas@[old(ms).areas@.len() as int].0.vpn_range.start_spec()
                == layout.sdata as int / PAGE_SIZE as int
            &&& final(ms).areas@[old(ms).areas@.len() as int + 1].0.vpn_range.start_spec()
                == layout.sbss_with_stack as int / PAGE_SIZE as int
            &&& final(ms).areas@[old(ms).areas@.len() as int + 2].0.vpn_range.start_spec()
                == layout.ekernel as int / PAGE_SIZE as int
            &&& final(ms).trampoline == old(ms).trampoline
            &&& final(ms).page_table.root_ppn == old(ms).page_table.root_ppn
            &&& forall|q: int|
                old(mem).contains(q) && #[trigger] final(mem).frame(q) != old(mem).frame(q)
                    ==> old(mem).frame(q) is Free || old(ms).owns_frame(q)
            &&& forall|q: int|
                old(mem).contains(q) && #[trigger] final(ms).owns_frame(q) ==> old(
                    ms,
                ).owns_frame(q) || old(mem).frame(q) is Free
        },
{
    let ghost s0 = *ms;
    let ghost m0 = *mem;
    let r_w: u8 = PTE_R | PTE_W;
    proof {
        assert((2u8 | 4u8) == 6u8) by (bit_vector);
    }
    match push_identical(ms, mem, fa, layout.sdata, layout.edata, r_w) {
        Ok(_) => {},
        Err(e) => {
            return Err(e);
        },
    }
    let ghost s1 = *ms;
    let ghost m1 = *mem;
    match push_identical(ms, mem, fa, layout.sbss_with_stack, layout.ebss, r_w) {
        Ok(_) => {},
        Err(e) => {
            return Err(e);
        },
    }
    let ghost s2 = *ms;
    let ghost m2 = *mem;
    proof {
        lemma_footprint_chain(s0, s1, s2, m0, m1, m2);
    }
    match push_identical(ms, mem, fa, layout.ekernel, crate::config::MEMORY_END, r_w) {
        Ok(_) => {},
        Err(e) => {
            return Err(e);
        },
    }
    proof {
        lemma_footprint_chain(s0, s2, *ms, m0, m2, *mem);
    }
    Ok(())
}


/// Copy `cnt` bytes of `src` starting at `off` into a fresh vector.
fn copy_range(src: &Vec<u8>, off: usize, cnt: usize) -> (r: Vec<u8>)
    requires
        off + cnt <= src@.len(),
    ensures
        r@ == src@.subrange(off as int, off as int + cnt),
{
    let mut r: Vec<u8> = Vec::new();
    let sl: usize = src.len();
    let mut i: usize = 0;
    while i < cnt
        invariant
            i <= cnt,
            src@.len() == sl,
            off + cnt <= src@.len(),
            r@.len() == i,
            forall|j: int| 0 <= j < i ==> #[trigger] r@[j] == src@[off + j],
        decreases cnt - i,
    {
        r.push(src[off + i]);
        i = i + 1;
    }
    proof {
        assert(r@ =~= src@.subrange(off as int, off as int + cnt));
    }
    r
}

/// Push one frame-backed area `[start_va, end_va)`, exposing only its
/// structure.
#[verifier::rlimit(100)]
#[verifier::spinoff_prover]
fn push_framed(
    ms: &mut MemorySet,
    mem: &mut PhysMemory,
    fa: &mut StackFrameAllocator,
    start_va: u64,
    end_va: u64,
    perm: u8,
    droppable: bool,
    data: Option<&Vec<u8>>,
) -> (r: Result<(), KernelError>)
    requires
        old(ms).wf(*old(mem)),
        old(fa).wf(*old(mem)),
        start_va <= end_va,
        end_va < VA_BOUND,
        perm < 32,
        perm % 2 == 0,
    ensures
        final(fa).wf(*final(mem)),
        final(fa).end == old(fa).end,
        final(mem).base_spec() == old(mem).base_spec(),
        final(mem).end_spec() == old(mem).end_spec(),
        r is Err ==> *final(ms) == *old(ms) && *final(mem) == *old(mem) && *final(fa) == *old(fa),
        r is Err <==> old(ms).rejects_push_range(
            *old(fa),
            crate::utils::range::SimpleRange {
                start: crate::mm::address::VirtPageNum(
                    (start_va as int / PAGE_SIZE as int) as u64,
                ),
                end: crate::mm::address::VirtPageNum(
                    ((end_va + PAGE_SIZE - 1) as int / PAGE_SIZE as int) as u64,
                ),
            },
            true,
            payload_view(data),
        ),
        r is Ok ==> {
            &&& final(ms).wf(*final(mem))
            &&& final(ms).areas@.len() == old(ms).areas@.len() + 1
            &&& forall|a: int|
                0 <= a < old(ms).areas@.len() ==> #[trigger] final(ms).areas@[a] == old(
                    ms,
                ).areas@[a]
            &&& final(ms).areas@[old(ms).areas@.len() as int].1 == droppable
            &&& final(ms).areas@[old(ms).areas@.len() as int].0.is_framed()
            &&& final(ms).areas@[old(ms).areas@.len() as int].0.map_perm == perm
            &&& final(ms).areas@[old(ms).areas@.len() as int].0.vpn_range.start_spec() == start_va
                as int / PAGE_SIZE as int
            &&& final(ms).areas@[old(ms).areas@.len() as int].0.vpn_range.end_spec() == (end_va
                + PAGE_SIZE - 1) as int / PAGE_SIZE as int
            &&& final(ms).trampoline == old(ms).trampoline
            &&& final(ms).page_table.root_ppn == old(ms).page_table.root_ppn
            &&& forall|q: int|
                old(mem).contains(q) && #[trigger] final(mem).frame(q) != old(mem).frame(q)
                    ==> old(mem).frame(q) is Free || old(ms).owns_frame(q)
            &&& forall|q: int|
                old(mem).contains(q) && #[trigger] final(ms).owns_frame(q) ==> old(
                    ms,
                ).owns_frame(q) || old(mem).frame(q) is Free
            &&& forall|q: int|
                old(mem).is_data(q) ==> #[trigger] final(mem).frame(q) == old(mem).frame(q)
            &&& final(fa).free_count() >= old(fa).free_count() - MemorySet::frames_needed(
                crate::utils::range::SimpleRange {
                    start: crate::mm::address::VirtPageNum(
                        (start_va as int / PAGE_SIZE as int) as u64,
                    ),
                    end: crate::mm::address::VirtPageNum(
                        ((end_va + PAGE_SIZE - 1) as int / PAGE_SIZE as int) as u64,
                    ),
                },
                true,
            )
            &&& (forall|u: int|
                final(ms).areas@[old(ms).areas@.len() as int].0.vpn_range.contains_vpn(u) ==> ((
                #[trigger] final(ms).areas@[old(ms).areas@.len() as int].0.frame_of(
                    u,
                )) matches Some(f) && final(mem).data(f as int) == expected_page(
                    payload_view(data),
                    u - final(ms).areas@[old(ms).areas@.len() as int].0.vpn_range.start_spec(),
                )))
        },
{
    let ghost s0 = *ms;
    let ghost m0 = *mem;
    let area = MemoryArea::new(
        VirtPageNumRange::new_from_va(
            crate::mm::address::VirtAddr::from_usize(start_va),
            crate::mm::address::VirtAddr::from_usize(end_va),
        ),
        Mapping::new_framed(),
        perm,
    );
    let r = ms.push_area(mem, fa, area, droppable, data);
    proof {
        if r is Ok {
            assert forall|q: int|
                m0.is_data(q) implies #[trigger] mem.frame(q) == m0.frame(q) by {
                if mem.frame(q) != m0.frame(q) {
                    assert(m0.frame(q) is Free || s0.page_table.owns(q));
                    if s0.page_table.owns(q) {
                        assert(m0.is_table(q));
                    }
                }
            }
        }
    }
    r
}

impl MemorySet {
    /// Build a user address space from an ELF image: the trampoline page,
    /// one frame-backed area per loadable segment with permissions derived
    /// from the segment flags plus User, the segment's file bytes copied
    /// in; then, above the highest segment and one unmapped guard page, a
    /// fixed-size user stack (R+W+U); and the trap-context page just below
    /// the trampoline (R+W). Returns the space, the initial user stack
    /// top, and the entry point.
    #[verifier::rlimit(100)]
    #[verifier::spinoff_prover]
    pub fn from_elf(
        mem: &mut PhysMemory,
        fa: &mut StackFrameAllocator,
        elf_data: &Vec<u8>,
        tramp_ppn: PhysPageNum,
    ) -> (r: Result<(MemorySet, u64, u64), KernelError>)
        requires
            old(fa).wf(*old(mem)),
            tramp_ppn.0 < PPN_BOUND,
        ensures
            final(fa).wf(*final(mem)),
            final(fa).end == old(fa).end,
            final(mem).base_spec() == old(mem).base_spec(),
            final(mem).end_spec() == old(mem).end_spec(),
            r matches Ok(out) ==> {
                let ms = out.0;
                let n = ms.areas@.len();
                &&& crate::elf::elf_magic_ok(elf_data@)
                &&& out.2 == crate::elf::le_bytes_val(elf_data@, crate::elf::ELF_ENTRY_OFF as int, 8)
                &&& ms.wf(*final(mem))
                &&& ms.trampoline == Some(tramp_ppn)
                &&& n >= 2
                &&& ms.areas@[n - 2].0.is_framed()
                &&& ms.areas@[n - 2].0.map_perm == 22
                &&& out.1 == ms.areas@[n - 2].0.vpn_range.end_spec() * PAGE_SIZE
                &&& ms.areas@[n - 1].0.is_framed()
                &&& ms.areas@[n - 1].0.map_perm == 6
                &&& ms.areas@[n - 1].0.vpn_range.start_spec() == VPN_BOUND - 2
                &&& ms.areas@[n - 1].0.vpn_range.end_spec() == VPN_BOUND - 1
                &&& forall|q: int|
                    old(mem).contains(q) && #[trigger] final(mem).frame(q) != old(mem).frame(q)
                        ==> old(mem).frame(q) is Free
                &&& forall|q: int|
                    old(mem).contains(q) && #[trigger] ms.owns_frame(q) ==> old(mem).frame(
                        q,
                    ) is Free
                &&& (exists|segs: Seq<crate::elf::ElfSegment>|
                    {
                        &&& crate::elf::seg_list_exact(segs, elf_data@)
                        &&& n == segs.len() + 2
                        &&& final(fa).free_count() >= old(fa).free_count() - 3 - segs_budget(
                            segs,
                            segs.len() as int,
                        ) - MemorySet::frames_needed(stack_range_of(segs), true)
                            - MemorySet::frames_needed(ctx_range(), true)
                        &&& (forall|j: int|
                            0 <= j < segs.len() ==> ({
                                let a = (#[trigger] ms.areas@[j]).0;
                                &&& a.is_framed()
                                &&& !ms.areas@[j].1
                                &&& a.vpn_range.start_spec() == segs[j].vaddr as int
                                    / PAGE_SIZE as int
                                &&& a.vpn_range.end_spec() == (segs[j].vaddr + segs[j].mem_size
                                    + PAGE_SIZE - 1) as int / PAGE_SIZE as int
                                &&& a.map_perm == seg_perm_spec(segs[j].flags)
                                &&& (forall|u: int|
                                    a.vpn_range.contains_vpn(u) ==> ((#[trigger] a.frame_of(
                                        u,
                                    )) matches Some(f) && final(mem).data(f as int)
                                        == expected_page(
                                        Some(
                                            elf_data@.subrange(
                                                segs[j].file_off as int,
                                                segs[j].file_off as int
                                                    + segs[j].file_size as int,
                                            ),
                                        ),
                                        u - a.vpn_range.start_spec(),
                                    )))
                            }))
                    })
            },
            crate::elf::parse_rejects(elf_data@) ==> r is Err,
            r is Err ==> from_elf_rejects(elf_data@, old(fa).free_count()),
    {
        let img = match crate::elf::ElfImage::parse(elf_data) {
            Ok(img) => img,
            Err(e) => {
                return Err(e);
            },
        };
        if !fa.has_free(3) {
            return Err(KernelError::OutOfFrames);
        }
        let ghost m0 = *old(mem);
        let mut memory_set = MemorySet::new(mem, fa);
        let ghost sa = memory_set;
        let ghost ma = *mem;
        proof {
            assert forall|q: int|
                m0.contains(q) && #[trigger] ma.frame(q) != m0.frame(q) implies m0.frame(
                q,
            ) is Free || sa.owns_frame(q) by {
                assert(q == sa.root());
            }
        }
        memory_set.map_trampoline(mem, fa, tramp_ppn);
        proof {
            lemma_footprint_chain(sa, sa, memory_set, m0, ma, *mem);
            assert forall|q: int|
                m0.contains(q) && #[trigger] mem.frame(q) != m0.frame(q) implies m0.frame(
                q,
            ) is Free by {
                if !(m0.frame(q) is Free) {
                    assert(sa.owns_frame(q));
                    assert(m0.is_free(sa.root()));
                }
            }
            assert forall|q: int|
                m0.contains(q) && #[trigger] memory_set.owns_frame(q) implies m0.frame(
                q,
            ) is Free by {
                if !(m0.frame(q) is Free) {
                    assert(sa.owns_frame(q));
                    assert(m0.is_free(sa.root()));
                }
            }
        }
        let nsegs: usize = img.segs.len();
        let mut max_end_vpn: u64 = 0;
        let mut k: usize = 0;
        while k < nsegs
            invariant
                k <= nsegs,
                nsegs == img.segs@.len(),
                img.matches(elf_data@),
                crate::elf::seg_list_exact(img.segs@, elf_data@),
                memory_set.areas@.len() == k,
                forall|j: int|
                    0 <= j < k ==> ({
                        let a = (#[trigger] memory_set.areas@[j]).0;
                        &&& a.is_framed()
                        &&& !memory_set.areas@[j].1
                        &&& a.vpn_range.start_spec() == img.segs@[j].vaddr as int
                            / PAGE_SIZE as int
                        &&& a.vpn_range.end_spec() == (img.segs@[j].vaddr + img.segs@[j].mem_size
                            + PAGE_SIZE - 1) as int / PAGE_SIZE as int
                        &&& a.map_perm == seg_perm_spec(img.segs@[j].flags)
                        &&& (forall|u: int|
                            a.vpn_range.contains_vpn(u) ==> ((#[trigger] a.frame_of(
                                u,
                            )) matches Some(f) && mem.data(f as int) == expected_page(
                                Some(
                                    elf_data@.subrange(
                                        img.segs@[j].file_off as int,
                                        img.segs@[j].file_off as int
                                            + img.segs@[j].file_size as int,
                                    ),
                                ),
                                u - a.vpn_range.start_spec(),
                            )))
                    }),
                memory_set.wf(*mem),
                fa.wf(*mem),
                fa.end == old(fa).end,
                mem.base_spec() == old(mem).base_spec(),
                mem.end_spec() == old(mem).end_spec(),
                memory_set.trampoline == Some(tramp_ppn),
                max_end_vpn <= VPN_BOUND,
                max_end_vpn as int == segs_max_end(img.segs@, k as int),
                fa.free_count() >= old(fa).free_count() - 3 - segs_budget(img.segs@, k as int),
                forall|q: int|
                    old(mem).contains(q) && #[trigger] mem.frame(q) != old(mem).frame(q) ==> old(
                        mem,
                    ).frame(q) is Free,
                forall|q: int|
                    old(mem).contains(q) && #[trigger] memory_set.owns_frame(q) ==> old(
                        mem,
                    ).frame(q) is Free,
            decreases nsegs - k,
        {
            let seg_vaddr: u64 = img.segs[k].vaddr;
            let seg_mem_size: u64 = img.segs[k].mem_size;
            let seg_file_off: usize = img.segs[k].file_off;
            let seg_file_size: usize = img.segs[k].file_size;
            let seg_flags: u32 = img.segs[k].flags;
            if seg_vaddr >= VA_BOUND || seg_mem_size >= VA_BOUND || seg_vaddr + seg_mem_size
                >= VA_BOUND {
                proof {
                    assert(seg_window_high(img.segs@[k as int]));
                    assert(crate::elf::seg_list_exact(img.segs@, elf_data@)
                        && from_elf_layout_rejects(img.segs@, old(fa).free_count()));
                }
                return Err(
                    KernelError::InvalidArgument(String::from_str("segment outside user range")),
                );
            }
            let mut perm: u8 = crate::mm::page_table::PTE_U;
            if seg_flags & 4 != 0 {
                perm = perm + PTE_R;
            }
            if seg_flags & 2 != 0 {
                perm = perm + PTE_W;
            }
            if seg_flags & 1 != 0 {
                perm = perm + crate::mm::page_table::PTE_X;
            }
            proof {
                lemma_u32_flag_bits(seg_flags);
                assert(perm == seg_perm_spec(seg_flags));
            }
            proof {
                assert(img.segs@[k as int].matches_header(
                    elf_data@,
                    crate::elf::le_bytes_val(elf_data@, crate::elf::ELF_PHOFF_OFF as int, 8),
                    crate::elf::le_bytes_val(elf_data@, crate::elf::ELF_PHENTSIZE_OFF as int, 2),
                ));
            }
            let payload: Vec<u8> = copy_range(elf_data, seg_file_off, seg_file_size);
            let ghost s_pre = memory_set;
            let ghost m_pre = *mem;
            let ghost fa_pre = *fa;
            match push_framed(
                &mut memory_set,
                mem,
                fa,
                seg_vaddr,
                seg_vaddr + seg_mem_size,
                perm,
                false,
                Some(&payload),
            ) {
                Ok(_) => {},
                Err(e) => {
                    proof {
                        let segs = img.segs@;
                        let free0 = old(fa).free_count();
                        let rng = crate::utils::range::SimpleRange {
                            start: crate::mm::address::VirtPageNum(
                                (seg_vaddr as int / PAGE_SIZE as int) as u64,
                            ),
                            end: crate::mm::address::VirtPageNum(
                                ((seg_vaddr + seg_mem_size + PAGE_SIZE - 1) as int
                                    / PAGE_SIZE as int) as u64,
                            ),
                        };
                        assert(s_pre.rejects_push_range(
                            fa_pre,
                            rng,
                            true,
                            payload_view(Some(&payload)),
                        ));
                        assert(rng == seg_range(segs[k as int]));
                        if s_pre.overlaps_existing(rng) {
                            let a = choose|a: int|
                                0 <= a < s_pre.areas@.len() && rng.overlaps(
                                    (#[trigger] s_pre.areas@[a]).0.vpn_range,
                                );
                            assert(s_pre.areas@[a].0.vpn_range == seg_range(segs[a]));
                            assert(seg_range(segs[k as int]).overlaps(seg_range(segs[a])));
                        } else if rng.contains_vpn(TRAMPOLINE_VPN as int) {
                        } else if fa_pre.free_count() < MemorySet::frames_needed(rng, true) {
                            lemma_segs_budget_monotone(segs, k as int + 1, segs.len() as int);
                            lemma_segs_max_end_nonneg(segs, segs.len() as int);
                            lemma_frames_needed_nonneg(stack_range_of(segs));
                            lemma_frames_needed_nonneg(ctx_range());
                            assert(free0 < 3 + segs_budget(segs, segs.len() as int)
                                + MemorySet::frames_needed(stack_range_of(segs), true)
                                + MemorySet::frames_needed(ctx_range(), true));
                        } else {
                            assert(payload@.len() > (rng.end_spec() - rng.start_spec())
                                * FRAME_BYTES);
                            assert(segs[k as int].file_size > (seg_end_vpn(segs[k as int])
                                - seg_start_vpn(segs[k as int])) * FRAME_BYTES);
                        }
                        assert(from_elf_layout_rejects(segs, free0));
                        assert(crate::elf::seg_list_exact(segs, elf_data@));
                    }
                    return Err(e);
                },
            }
            proof {
                assert forall|q: int|
                    old(mem).contains(q) && #[trigger] mem.frame(q) != old(mem).frame(
                    q,
                ) implies old(mem).frame(q) is Free by {
                    if mem.frame(q) != m_pre.frame(q) {
                        if !(m_pre.frame(q) is Free) {
                            assert(s_pre.owns_frame(q));
                        }
                    }
                }
                assert forall|q: int|
                    old(mem).contains(q) && #[trigger] memory_set.owns_frame(q) implies old(
                    mem,
                ).frame(q) is Free by {
                    if !(s_pre.owns_frame(q)) {
                        assert(m_pre.frame(q) is Free);
                    }
                }
                assert(memory_set.areas@[k as int].0.vpn_range.start_spec() == seg_vaddr as int
                    / PAGE_SIZE as int);
                assert forall|j: int|
                    0 <= j < k + 1 implies ({
                    let a = (#[trigger] memory_set.areas@[j]).0;
                    &&& a.is_framed()
                    &&& !memory_set.areas@[j].1
                    &&& a.vpn_range.start_spec() == img.segs@[j].vaddr as int / PAGE_SIZE as int
                    &&& a.vpn_range.end_spec() == (img.segs@[j].vaddr + img.segs@[j].mem_size
                        + PAGE_SIZE - 1) as int / PAGE_SIZE as int
                    &&& a.map_perm == seg_perm_spec(img.segs@[j].flags)
                    &&& (forall|u: int|
                        a.vpn_range.contains_vpn(u) ==> ((#[trigger] a.frame_of(
                            u,
                        )) matches Some(f) && mem.data(f as int) == expected_page(
                            Some(
                                elf_data@.subrange(
                                    img.segs@[j].file_off as int,
                                    img.segs@[j].file_off as int + img.segs@[j].file_size as int,
                                ),
                            ),
                            u - a.vpn_range.start_spec(),
                        )))
                }) by {
                    if j < k {
                        assert(memory_set.areas@[j] == s_pre.areas@[j]);
                        let a = s_pre.areas@[j].0;
                        assert forall|u: int|
                            a.vpn_range.contains_vpn(u) implies ((#[trigger] a.frame_of(
                            u,
                        )) matches Some(f) && mem.data(f as int) == expected_page(
                            Some(
                                elf_data@.subrange(
                                    img.segs@[j].file_off as int,
                                    img.segs@[j].file_off as int + img.segs@[j].file_size as int,
                                ),
                            ),
                            u - a.vpn_range.start_spec(),
                        )) by {
                            assert(a.frame_of(u) is Some);
                            let f = a.frame_of(u)->Some_0;
                            assert(m_pre.is_data(f as int)) by {
                                assert(a.wf_in(m_pre));
                                crate::mm::memory_area::lemma_find_frame_entry(
                                    a.mapping->Framed_0@,
                                    u,
                                );
                                let kk = choose|kk: int|
                                    0 <= kk < a.mapping->Framed_0@.len()
                                        && a.mapping->Framed_0@[kk].0.0 == u
                                        && a.mapping->Framed_0@[kk].1.0.0 == f;
                                assert(m_pre.is_data(a.mapping->Framed_0@[kk].1.0.0 as int));
                            }
                            assert(mem.frame(f as int) == m_pre.frame(f as int));
                        }
                    } else {
                        assert(payload@ == elf_data@.subrange(
                            seg_file_off as int,
                            seg_file_off as int + seg_file_size as int,
                        ));
                    }
                }
            }
            let end_vpn: u64 = crate::mm::address::VirtAddr::from_usize(
                seg_vaddr + seg_mem_size,
            ).ceil().0;
            if end_vpn > max_end_vpn {
                max_end_vpn = end_vpn;
            }
            k = k + 1;
        }
        let ghost s_pre2 = memory_set;
        let ghost m_pre2 = *mem;
        let ghost fa_pre2 = *fa;
        let user_stack_top: u64 = match user_space_tail(&mut memory_set, mem, fa, max_end_vpn) {
            Ok(top) => top,
            Err(e) => {
                proof {
                    let segs = img.segs@;
                    let free0 = old(fa).free_count();
                    let sr = crate::utils::range::SimpleRange {
                        start: crate::mm::address::VirtPageNum((max_end_vpn + 1) as u64),
                        end: crate::mm::address::VirtPageNum((max_end_vpn + 3) as u64),
                    };
                    assert(sr == stack_range_of(segs));
                    lemma_segs_max_end_nonneg(segs, segs.len() as int);
                    lemma_frames_needed_nonneg(ctx_range());
                    lemma_frames_needed_nonneg(sr);
                    lemma_segs_budget_monotone(segs, k as int, segs.len() as int);
                    if max_end_vpn * PAGE_SIZE + PAGE_SIZE + USER_STACK_SIZE >= VA_BOUND {
                    } else if s_pre2.rejects_push_range(fa_pre2, sr, true, None) {
                        if s_pre2.overlaps_existing(sr) {
                            let a = choose|a: int|
                                0 <= a < s_pre2.areas@.len() && sr.overlaps(
                                    (#[trigger] s_pre2.areas@[a]).0.vpn_range,
                                );
                            assert(s_pre2.areas@[a].0.vpn_range == seg_range(segs[a]));
                            assert(stack_range_of(segs).overlaps(seg_range(segs[a])));
                        } else if sr.contains_vpn(TRAMPOLINE_VPN as int) {
                        } else {
                            assert(fa_pre2.free_count() < MemorySet::frames_needed(sr, true));
                            assert(free0 < 3 + segs_budget(segs, segs.len() as int)
                                + MemorySet::frames_needed(sr, true)
                                + MemorySet::frames_needed(ctx_range(), true));
                        }
                    } else if (exists|a: int|
                        0 <= a < s_pre2.areas@.len() && ctx_range().overlaps(
                            (#[trigger] s_pre2.areas@[a]).0.vpn_range,
                        )) {
                        let a = choose|a: int|
                            0 <= a < s_pre2.areas@.len() && ctx_range().overlaps(
                                (#[trigger] s_pre2.areas@[a]).0.vpn_range,
                            );
                        assert(s_pre2.areas@[a].0.vpn_range == seg_range(segs[a]));
                        assert(ctx_range().overlaps(seg_range(segs[a])));
                    } else if ctx_range().overlaps(sr) {
                    } else {
                        assert(fa_pre2.free_count() < MemorySet::frames_needed(sr, true)
                            + MemorySet::frames_needed(ctx_range(), true));
                        assert(free0 < 3 + segs_budget(segs, segs.len() as int)
                            + MemorySet::frames_needed(sr, true)
                            + MemorySet::frames_needed(ctx_range(), true));
                    }
                    assert(from_elf_layout_rejects(segs, free0));
                    assert(crate::elf::seg_list_exact(segs, elf_data@));
                }
                return Err(e);
            },
        };
        proof {
            assert forall|q: int|
                old(mem).contains(q) && #[trigger] mem.frame(q) != old(mem).frame(q) implies old(
                mem,
            ).frame(q) is Free by {
                if mem.frame(q) != m_pre2.frame(q) {
                    if !(m_pre2.frame(q) is Free) {
                        assert(s_pre2.owns_frame(q));
                    }
                }
            }
            assert forall|q: int|
                old(mem).contains(q) && #[trigger] memory_set.owns_frame(q) implies old(
                mem,
            ).frame(q) is Free by {
                if !(s_pre2.owns_frame(q)) {
                    assert(m_pre2.frame(q) is Free);
                }
            }
        }
        proof {
            let segs = img.segs@;
            let mf = *mem;
            assert(memory_set.areas@.len() == segs.len() + 2);
            assert forall|j: int|
                0 <= j < segs.len() implies ({
                let a = (#[trigger] memory_set.areas@[j]).0;
                &&& a.is_framed()
                &&& !memory_set.areas@[j].1
                &&& a.vpn_range.start_spec() == segs[j].vaddr as int / PAGE_SIZE as int
                &&& a.vpn_range.end_spec() == (segs[j].vaddr + segs[j].mem_size + PAGE_SIZE
                    - 1) as int / PAGE_SIZE as int
                &&& a.map_perm == seg_perm_spec(segs[j].flags)
                &&& (forall|u: int|
                    a.vpn_range.contains_vpn(u) ==> ((#[trigger] a.frame_of(u)) matches Some(f)
                        && mf.data(f as int) == expected_page(
                        Some(
                            elf_data@.subrange(
                                segs[j].file_off as int,
                                segs[j].file_off as int + segs[j].file_size as int,
                            ),
                        ),
                        u - a.vpn_range.start_spec(),
                    )))
            }) by {
                assert(memory_set.areas@[j] == s_pre2.areas@[j]);
                let a = s_pre2.areas@[j].0;
                assert forall|u: int|
                    a.vpn_range.contains_vpn(u) implies ((#[trigger] a.frame_of(
                    u,
                )) matches Some(f) && mf.data(f as int) == expected_page(
                    Some(
                        elf_data@.subrange(
                            segs[j].file_off as int,
                            segs[j].file_off as int + segs[j].file_size as int,
                        ),
                    ),
                    u - a.vpn_range.start_spec(),
                )) by {
                    assert(a.frame_of(u) is Some);
                    let f = a.frame_of(u)->Some_0;
                    assert(m_pre2.is_data(f as int)) by {
                        assert(a.wf_in(m_pre2));
                        crate::mm::memory_area::lemma_find_frame_entry(a.mapping->Framed_0@, u);
                        let kk = choose|kk: int|
                            0 <= kk < a.mapping->Framed_0@.len() && a.mapping->Framed_0@[kk].0.0
                                == u && a.mapping->Framed_0@[kk].1.0.0 == f;
                        assert(m_pre2.is_data(a.mapping->Framed_0@[kk].1.0.0 as int));
                    }
                    assert(mf.frame(f as int) == m_pre2.frame(f as int));
                }
            }
        }
        Ok((memory_set, user_stack_top, img.entry))
    }
}



/// Map the trap-context page, just below the trampoline, R+W.
#[verifier::rlimit(100)]
#[verifier::spinoff_prover]
fn push_trap_context(
    ms: &mut MemorySet,
    mem: &mut PhysMemory,
    fa: &mut StackFrameAllocator,
) -> (r: Result<(), KernelError>)
    requires
        old(ms).wf(*old(mem)),
        old(fa).wf(*old(mem)),
    ensures
        final(fa).wf(*final(mem)),
        final(fa).end == old(fa).end,
        final(mem).base_spec() == old(mem).base_spec(),
        final(mem).end_spec() == old(mem).end_spec(),
        r is Err ==> *final(ms) == *old(ms) && *final(mem) == *old(mem) && *final(fa) == *old(fa),
        r is Err <==> old(ms).rejects_push_range(*old(fa), ctx_range(), true, None),
        final(fa).free_count() >= old(fa).free_count() - MemorySet::frames_needed(
            ctx_range(),
            true,
        ),
        r is Ok ==> {
            let n = final(ms).areas@.len();
            &&& final(ms).wf(*final(mem))
            &&& n == old(ms).areas@.len() + 1
            &&& forall|a: int|
                0 <= a < old(ms).areas@.len() ==> #[trigger] final(ms).areas@[a] == old(
                    ms,
                ).areas@[a]
            &&& final(ms).areas@[n - 1].0.is_framed()
            &&& final(ms).areas@[n - 1].0.map_perm == 6
            &&& final(ms).areas@[n - 1].0.vpn_range.start_spec() == VPN_BOUND - 2
            &&& final(ms).areas@[n - 1].0.vpn_range.end_spec() == VPN_BOUND - 1
            &&& final(ms).trampoline == old(ms).trampoline
            &&& final(ms).page_table.root_ppn == old(ms).page_table.root_ppn
            &&& (forall|q: int|
                old(mem).contains(q) && #[trigger] final(mem).frame(q) != old(mem).frame(q)
                    ==> old(mem).frame(q) is Free || old(ms).owns_frame(q))
            &&& (forall|q: int|
                old(mem).contains(q) && #[trigger] final(ms).owns_frame(q) ==> old(
                    ms,
                ).owns_frame(q) || old(mem).frame(q) is Free)
            &&& (forall|q: int|
                old(mem).is_data(q) ==> #[trigger] final(mem).frame(q) == old(mem).frame(q))
        },
{
    let ctx_start: u64 = crate::mm::address::VirtAddr::from_usize(
        crate::config::TRAP_CONTEXT_ADDR,
    ).0;
    let ctx_end: u64 = crate::mm::address::VirtAddr::from_usize(crate::config::TRAMPOLINE_ADDR).0;
    let ctx_perm: u8 = 6;
    push_framed(ms, mem, fa, ctx_start, ctx_end, ctx_perm, false, None)
}

/// Finish a user space: one guard page above the highest segment, the
/// fixed-size user stack (R+W+U), and the trap-context page just below
/// the trampoline (R+W). Returns the initial user stack top.
#[verifier::rlimit(100)]
#[verifier::spinoff_prover]
fn user_space_tail(
    ms: &mut MemorySet,
    mem: &mut PhysMemory,
    fa: &mut StackFrameAllocator,
    max_end_vpn: u64,
) -> (r: Result<u64, KernelError>)
    requires
        old(ms).wf(*old(mem)),
        old(fa).wf(*old(mem)),
        max_end_vpn <= VPN_BOUND,
    ensures
        final(fa).wf(*final(mem)),
        final(fa).end == old(fa).end,
        final(mem).base_spec() == old(mem).base_spec(),
        final(mem).end_spec() == old(mem).end_spec(),
        final(fa).free_count() >= old(fa).free_count() - MemorySet::frames_needed(
            crate::utils::range::SimpleRange {
                start: crate::mm::address::VirtPageNum((max_end_vpn + 1) as u64),
                end: crate::mm::address::VirtPageNum((max_end_vpn + 3) as u64),
            },
            true,
        ) - MemorySet::frames_needed(ctx_range(), true),
        r is Err ==> ({
            let sr = crate::utils::range::SimpleRange {
                start: crate::mm::address::VirtPageNum((max_end_vpn + 1) as u64),
                end: crate::mm::address::VirtPageNum((max_end_vpn + 3) as u64),
            };
            ||| max_end_vpn * PAGE_SIZE + PAGE_SIZE + USER_STACK_SIZE >= VA_BOUND
            ||| old(ms).rejects_push_range(*old(fa), sr, true, None)
            ||| (exists|a: int|
                0 <= a < old(ms).areas@.len() && ctx_range().overlaps(
                    (#[trigger] old(ms).areas@[a]).0.vpn_range,
                ))
            ||| ctx_range().overlaps(sr)
            ||| old(fa).free_count() < MemorySet::frames_needed(sr, true)
                + MemorySet::frames_needed(ctx_range(), true)
        }),
        r matches Ok(top) ==> {
            let n = final(ms).areas@.len();
            &&& final(ms).wf(*final(mem))
            &&& (forall|q: int|
                old(mem).is_data(q) ==> #[trigger] final(mem).frame(q) == old(mem).frame(q))
            &&& n == old(ms).areas@.len() + 2
            &&& forall|a: int|
                0 <= a < old(ms).areas@.len() ==> #[trigger] final(ms).areas@[a] == old(
                    ms,
                ).areas@[a]
            &&& final(ms).areas@[n - 2].0.is_framed()
            &&& final(ms).areas@[n - 2].0.map_perm == 22
            &&& top == final(ms).areas@[n - 2].0.vpn_range.end_spec() * PAGE_SIZE
            &&& final(ms).areas@[n - 1].0.is_framed()
            &&& final(ms).areas@[n - 1].0.map_perm == 6
            &&& final(ms).areas@[n - 1].0.vpn_range.start_spec() == VPN_BOUND - 2
            &&& final(ms).areas@[n - 1].0.vpn_range.end_spec() == VPN_BOUND - 1
            &&& final(ms).trampoline == old(ms).trampoline
            &&& final(ms).page_table.root_ppn == old(ms).page_table.root_ppn
            &&& forall|q: int|
                old(mem).contains(q) && #[trigger] final(mem).frame(q) != old(mem).frame(q)
                    ==> old(mem).frame(q) is Free || old(ms).owns_frame(q)
            &&& forall|q: int|
                old(mem).contains(q) && #[trigger] final(ms).owns_frame(q) ==> old(
                    ms,
                ).owns_frame(q) || old(mem).frame(q) is Free
        },
{
    let max_end_va: u64 = max_end_vpn * PAGE_SIZE;
    let user_stack_bottom: u64 = max_end_va + PAGE_SIZE;
    let user_stack_top: u64 = user_stack_bottom + crate::config::USER_STACK_SIZE;
    if user_stack_top >= VA_BOUND {
        return Err(KernelError::InvalidArgument(String::from_str("image too high")));
    }
    let ghost s0 = *ms;
    let ghost m0 = *mem;
    let stack_perm: u8 = 22;
    match push_framed(ms, mem, fa, user_stack_bottom, user_stack_top, stack_perm, false, None) {
        Ok(_) => {},
        Err(e) => {
            return Err(e);
        },
    }
    let ghost s1 = *ms;
    let ghost m1 = *mem;
    match push_trap_context(ms, mem, fa) {
        Ok(_) => {},
        Err(e) => {
            return Err(e);
        },
    }
    proof {
        lemma_footprint_chain(s0, s1, *ms, m0, m1, *mem);
    }
    proof {
        assert(user_stack_top as int % PAGE_SIZE as int == 0 && (user_stack_top + PAGE_SIZE
            - 1) as int / PAGE_SIZE as int == user_stack_top as int / PAGE_SIZE as int && (
        user_stack_top as int / PAGE_SIZE as int) * PAGE_SIZE == user_stack_top) by (
        nonlinear_arith)
            requires
                max_end_vpn <= VPN_BOUND,
                max_end_va == max_end_vpn * PAGE_SIZE,
                user_stack_bottom == max_end_va + PAGE_SIZE,
                user_stack_top == user_stack_bottom + crate::config::USER_STACK_SIZE,
        ;
    }
    Ok(user_stack_top)
}


/// Every frame an address space owns is occupied: directory frames are
/// tables, backing frames are data frames.
pub proof fn lemma_owns_frame_not_free(ms: MemorySet, mem: PhysMemory)
    requires
        ms.wf(mem),
    ensures
        forall|q: int| #[trigger] ms.owns_frame(q) ==> !(mem.frame(q) is Free) && mem.contains(q),
{
    assert forall|q: int| #[trigger] ms.owns_frame(q) implies !(mem.frame(q) is Free)
        && mem.contains(q) by {
        if ms.page_table.owns(q) {
            assert(mem.is_table(q));
        } else {
            let a = choose|a: int|
                0 <= a < ms.areas@.len() && (#[trigger] ms.areas@[a]).0.has_frame(q);
            assert(ms.areas@[a].0.wf_in(mem));
            match ms.areas@[a].0.mapping {
                Mapping::Identical => {},
                Mapping::Framed(pairs) => {
                    let k = choose|k: int| 0 <= k < pairs@.len() && pairs@[k].1.0.0 == q;
                    assert(mem.is_data(pairs@[k].1.0.0 as int));
                },
            }
        }
    }
}

/// An update that leaves every frame this space owns untouched (data
/// frames may change contents but stay data frames) preserves the space's
/// invariant and every translation through it.
pub proof fn lemma_ms_wf_preserved(ms: MemorySet, mem0: PhysMemory, mem1: PhysMemory)
    requires
        ms.wf(mem0),
        mem1.base_spec() == mem0.base_spec(),
        mem1.end_spec() == mem0.end_spec(),
        forall|q: int| ms.page_table.owns(q) ==> #[trigger] mem1.frame(q) == mem0.frame(q),
        forall|q: int| mem0.is_data(q) ==> #[trigger] mem1.is_data(q),
    ensures
        ms.wf(mem1),
        forall|w: u64| #[trigger] walk(mem1, ms.root(), w) == walk(mem0, ms.root(), w),
        forall|w: u64| #[trigger] lookup(mem1, ms.root(), w) == lookup(mem0, ms.root(), w),
{
    let root = ms.root();
    assert(mem1.is_table(root)) by {
        assert(mem1.frame(root) == mem0.frame(root));
    }
    assert forall|i: int| 0 <= i < 512 implies #[trigger] child(mem1, root, i) == child(
        mem0,
        root,
        i,
    ) by {}
    assert forall|i: int, j: int| 0 <= i < 512 && 0 <= j < 512 implies #[trigger] child2(
        mem1,
        root,
        i,
        j,
    ) == child2(mem0, root, i, j) by {
        match child(mem0, root, i) {
            Some(n1) => {
                assert(mem1.frame(n1 as int) == mem0.frame(n1 as int));
            },
            None => {},
        }
    }
    assert forall|w: u64| #[trigger] walk(mem1, root, w) == walk(mem0, root, w) by {
        let i = l2_idx(w);
        let j = l1_idx(w);
        assert(0 <= i < 512 && 0 <= j < 512);
        assert(child2(mem1, root, i, j) == child2(mem0, root, i, j));
        match child2(mem0, root, i, j) {
            Some(n0) => {
                assert(mem1.frame(n0 as int) == mem0.frame(n0 as int));
            },
            None => {},
        }
    }
    assert(ms.page_table.wf(mem1)) by {
        assert forall|i: int|
            0 <= i < ms.page_table.frames@.len() implies mem1.is_table(
            #[trigger] ms.page_table.frames@[i].0.0 as int,
        ) by {
            assert(ms.page_table.owns(ms.page_table.frames@[i].0.0 as int));
            assert(mem1.frame(ms.page_table.frames@[i].0.0 as int) == mem0.frame(
                ms.page_table.frames@[i].0.0 as int,
            ));
        }
    }
    assert forall|a: int| 0 <= a < ms.areas@.len() implies (#[trigger] ms.areas@[a]).0.wf_in(
        mem1,
    ) by {
        match ms.areas@[a].0.mapping {
            Mapping::Identical => {},
            Mapping::Framed(pairs) => {
                assert forall|k: int| 0 <= k < pairs@.len() implies mem1.is_data(
                    (#[trigger] pairs@[k]).1.0.0 as int,
                ) by {
                    assert(mem0.is_data(pairs@[k].1.0.0 as int));
                }
            },
        }
    }
    assert forall|a: int, v: int|
        0 <= a < ms.areas@.len() && #[trigger] ms.areas@[a].0.vpn_range.contains_vpn(
            v,
        ) implies ms.lookup_matches_area(mem1, a, v) by {
        assert(ms.lookup_matches_area(mem0, a, v));
        assert(lookup(mem1, root, v as u64) == lookup(mem0, root, v as u64));
    }
    assert forall|v: u64|
        v < VPN_BOUND && !ms.covered(v as int) && !(ms.trampoline is Some && v
            == TRAMPOLINE_VPN) implies #[trigger] lookup(mem1, root, v) is None by {
        assert(lookup(mem1, root, v) == lookup(mem0, root, v));
    }
}


/// Map one task's private kernel stack `[bottom_va, top_va)`, given in
/// machine addresses at the top of the address space, as a frame-backed
/// R+W area of the kernel space.
#[verifier::rlimit(100)]
#[verifier::spinoff_prover]
pub fn push_kernel_stack(
    ms: &mut MemorySet,
    mem: &mut PhysMemory,
    fa: &mut StackFrameAllocator,
    bottom_va: u64,
    top_va: u64,
) -> (r: Result<(), KernelError>)
    requires
        old(ms).wf(*old(mem)),
        old(fa).wf(*old(mem)),
        bottom_va <= top_va,
        bottom_va >= 0xFFFF_FF80_0000_0000,
    ensures
        final(fa).wf(*final(mem)),
        final(fa).end == old(fa).end,
        final(mem).base_spec() == old(mem).base_spec(),
        final(mem).end_spec() == old(mem).end_spec(),
        r is Err ==> *final(ms) == *old(ms) && *final(mem) == *old(mem) && *final(fa) == *old(fa),
        r is Err <==> old(ms).rejects_push_range(
            *old(fa),
            crate::utils::range::SimpleRange {
                start: crate::mm::address::VirtPageNum(
                    ((bottom_va - 0xFFFF_FF80_0000_0000) as int / PAGE_SIZE as int) as u64,
                ),
                end: crate::mm::address::VirtPageNum(
                    ((top_va - 0xFFFF_FF80_0000_0000 + PAGE_SIZE - 1) as int
                        / PAGE_SIZE as int) as u64,
                ),
            },
            true,
            None,
        ),
        r is Ok ==> {
            &&& final(ms).wf(*final(mem))
            &&& final(ms).areas@.len() == old(ms).areas@.len() + 1
            &&& forall|a: int|
                0 <= a < old(ms).areas@.len() ==> #[trigger] final(ms).areas@[a] == old(
                    ms,
                ).areas@[a]
            &&& final(ms).trampoline == old(ms).trampoline
            &&& final(ms).page_table.root_ppn == old(ms).page_table.root_ppn
            &&& forall|q: int|
                old(mem).contains(q) && #[trigger] final(mem).frame(q) != old(mem).frame(q)
                    ==> old(mem).frame(q) is Free || old(ms).owns_frame(q)
            &&& forall|q: int|
                old(mem).contains(q) && #[trigger] final(ms).owns_frame(q) ==> old(
                    ms,
                ).owns_frame(q) || old(mem).frame(q) is Free
        },
{
    proof {
        lemma_top_window_mask(bottom_va);
        lemma_top_window_mask(top_va);
    }
    let b = crate::mm::address::VirtAddr::from_usize(bottom_va);
    let t = crate::mm::address::VirtAddr::from_usize(top_va);
    let perm: u8 = 6;
    push_framed(ms, mem, fa, b.0, t.0, perm, false, None)
}

/// Masking an address in the top 2^39 window subtracts a fixed offset,
/// so ordering within the window is preserved.
proof fn lemma_top_window_mask(x: u64)
    by (bit_vector)
    requires
        x >= 0xFFFF_FF80_0000_0000,
    ensures
        x % 0x80_0000_0000 == x - 0xFFFF_FF80_0000_0000,
{
}


/// An update that leaves every frame this space owns untouched preserves
/// the space's invariant and every translation through it.
pub proof fn lemma_ms_wf_preserved_frames(ms: MemorySet, mem0: PhysMemory, mem1: PhysMemory)
    requires
        ms.wf(mem0),
        mem1.base_spec() == mem0.base_spec(),
        mem1.end_spec() == mem0.end_spec(),
        forall|q: int| #[trigger] ms.owns_frame(q) ==> mem1.frame(q) == mem0.frame(q),
    ensures
        ms.wf(mem1),
        forall|w: u64| #[trigger] walk(mem1, ms.root(), w) == walk(mem0, ms.root(), w),
        forall|w: u64| #[trigger] lookup(mem1, ms.root(), w) == lookup(mem0, ms.root(), w),
{
    let root = ms.root();
    assert forall|q: int| ms.page_table.owns(q) implies #[trigger] mem1.frame(q) == mem0.frame(
        q,
    ) by {
        assert(ms.owns_frame(q));
    }
    assert(mem1.is_table(root)) by {
        assert(ms.owns_frame(root));
        assert(mem1.frame(root) == mem0.frame(root));
    }
    assert forall|i: int| 0 <= i < 512 implies #[trigger] child(mem1, root, i) == child(
        mem0,
        root,
        i,
    ) by {}
    assert forall|i: int, j: int| 0 <= i < 512 && 0 <= j < 512 implies #[trigger] child2(
        mem1,
        root,
        i,
        j,
    ) == child2(mem0, root, i, j) by {
        match child(mem0, root, i) {
            Some(n1) => {
                assert(mem1.frame(n1 as int) == mem0.frame(n1 as int));
            },
            None => {},
        }
    }
    assert forall|w: u64| #[trigger] walk(mem1, root, w) == walk(mem0, root, w) by {
        let i = l2_idx(w);
        let j = l1_idx(w);
        assert(0 <= i < 512 && 0 <= j < 512);
        assert(child2(mem1, root, i, j) == child2(mem0, root, i, j));
        match child2(mem0, root, i, j) {
            Some(n0) => {
                assert(mem1.frame(n0 as int) == mem0.frame(n0 as int));
            },
            None => {},
        }
    }
    assert(ms.page_table.wf(mem1)) by {
        assert forall|i: int|
            0 <= i < ms.page_table.frames@.len() implies mem1.is_table(
            #[trigger] ms.page_table.frames@[i].0.0 as int,
        ) by {
            assert(ms.page_table.owns(ms.page_table.frames@[i].0.0 as int));
            assert(mem1.frame(ms.page_table.frames@[i].0.0 as int) == mem0.frame(
                ms.page_table.frames@[i].0.0 as int,
            ));
        }
    }
    assert forall|a: int| 0 <= a < ms.areas@.len() implies (#[trigger] ms.areas@[a]).0.wf_in(
        mem1,
    ) by {
        match ms.areas@[a].0.mapping {
            Mapping::Identical => {},
            Mapping::Framed(pairs) => {
                assert forall|k: int| 0 <= k < pairs@.len() implies mem1.is_data(
                    (#[trigger] pairs@[k]).1.0.0 as int,
                ) by {
                    assert(mem0.is_data(pairs@[k].1.0.0 as int));
                    assert(ms.areas@[a].0.has_frame(pairs@[k].1.0.0 as int));
                    assert(ms.owns_frame(pairs@[k].1.0.0 as int));
                    assert(mem1.frame(pairs@[k].1.0.0 as int) == mem0.frame(
                        pairs@[k].1.0.0 as int,
                    ));
                }
            },
        }
    }
    assert forall|a: int, v: int|
        0 <= a < ms.areas@.len() && #[trigger] ms.areas@[a].0.vpn_range.contains_vpn(
            v,
        ) implies ms.lookup_matches_area(mem1, a, v) by {
        assert(ms.lookup_matches_area(mem0, a, v));
        assert(lookup(mem1, root, v as u64) == lookup(mem0, root, v as u64));
    }
    assert forall|v: u64|
        v < VPN_BOUND && !ms.covered(v as int) && !(ms.trampoline is Some && v
            == TRAMPOLINE_VPN) implies #[trigger] lookup(mem1, root, v) is None by {
        assert(lookup(mem1, root, v) == lookup(mem0, root, v));
    }
}


/// Footprint and ownership growth compose across two successive updates.
pub proof fn lemma_footprint_chain(
    ms0: MemorySet,
    ms1: MemorySet,
    ms2: MemorySet,
    m0: PhysMemory,
    m1: PhysMemory,
    m2: PhysMemory,
)
    requires
        m1.base_spec() == m0.base_spec(),
        m1.end_spec() == m0.end_spec(),
        forall|q: int|
            m0.contains(q) && #[trigger] m1.frame(q) != m0.frame(q) ==> m0.frame(q) is Free
                || ms0.owns_frame(q),
        forall|q: int|
            m0.contains(q) && #[trigger] ms1.owns_frame(q) ==> ms0.owns_frame(q) || m0.frame(
                q,
            ) is Free,
        forall|q: int|
            m1.contains(q) && #[trigger] m2.frame(q) != m1.frame(q) ==> m1.frame(q) is Free
                || ms1.owns_frame(q),
        forall|q: int|
            m1.contains(q) && #[trigger] ms2.owns_frame(q) ==> ms1.owns_frame(q) || m1.frame(
                q,
            ) is Free,
    ensures
        forall|q: int|
            m0.contains(q) && #[trigger] m2.frame(q) != m0.frame(q) ==> m0.frame(q) is Free
                || ms0.owns_frame(q),
        forall|q: int|
            m0.contains(q) && #[trigger] ms2.owns_frame(q) ==> ms0.owns_frame(q) || m0.frame(
                q,
            ) is Free,
{
    assert forall|q: int|
        m0.contains(q) && #[trigger] m2.frame(q) != m0.frame(q) implies m0.frame(q) is Free
        || ms0.owns_frame(q) by {
        if m2.frame(q) != m1.frame(q) {
            assert(m1.contains(q));
            if m1.frame(q) is Free {
                if m1.frame(q) != m0.frame(q) {
                } else {
                }
            } else {
                assert(ms1.owns_frame(q));
            }
        }
    }
    assert forall|q: int|
        m0.contains(q) && #[trigger] ms2.owns_frame(q) implies ms0.owns_frame(q) || m0.frame(
        q,
    ) is Free by {
        assert(m1.contains(q));
        if ms1.owns_frame(q) {
        } else {
            assert(m1.frame(q) is Free);
            if m1.frame(q) != m0.frame(q) {
            }
        }
    }
}


/// Round-trip of mapping: every page placed into an address space
/// translates to the backing frame its area records — the page number
/// itself for an identical area, the owned frame for a frame-backed one —
/// with the area's permissions plus the Valid bit. (After `drop_area` of
/// a range, `drop_area`'s contract gives that translation of those pages
/// returns nothing.)
pub proof fn lemma_translate_matches_area(ms: MemorySet, mem: PhysMemory, a: int, v: int)
    requires
        ms.wf(mem),
        0 <= a < ms.areas@.len(),
        ms.areas@[a].0.vpn_range.contains_vpn(v),
    ensures
        lookup(mem, ms.root(), v as u64) matches Some(e) && Some(e.ppn_spec())
            == ms.areas@[a].0.frame_of(v) && e.flags_spec() == ms.areas@[a].0.map_perm + 1
            && e.is_valid_spec(),
        !ms.areas@[a].0.is_framed() ==> (lookup(mem, ms.root(), v as u64) matches Some(e2)
            && e2.ppn_spec() == v),
{
    assert(ms.areas@[a].0.vpn_range.contains_vpn(v));
    assert(ms.lookup_matches_area(mem, a, v));
    match lookup(mem, ms.root(), v as u64) {
        Some(e) => {
            assert(e.flags_spec() % 2 == 1) by {
                assert(ms.areas@[a].0.wf_in(mem));
            }
            assert(e.is_valid_spec()) by {
                crate::mm::page_table::lemma_valid_from_flags(e);
            }
        },
        None => {},
    }
}


/// Block arithmetic for the directory budget, within the 27-bit page
/// number space.
proof fn lemma_block_bounds(start: u64, end: u64)
    requires
        start < end,
        end <= 0x800_0000,
    ensures
        start as int / 512 <= (end - 1) as int / 512,
        (end - 1) as int / 512 - start as int / 512 <= 0x4_0000,
{
    vstd::arithmetic::div_mod::lemma_div_is_ordered(start as int, (end - 1) as int, 512);
    vstd::arithmetic::div_mod::lemma_div_is_ordered((end - 1) as int, 0x7FF_FFFF, 512);
    vstd::arithmetic::div_mod::lemma_div_is_ordered(0, start as int, 512);
}

/// Stepping one page forward inside the same block keeps its directory
/// prefix; the budget expression steps down exactly at block entries.
proof fn lemma_block_step(start: u64, v: u64, end: u64)
    requires
        start <= v,
        v < end,
        end <= 0x800_0000,
    ensures
        ((v + 1) as int % 512 == 0) ==> (v + 1) as int / 512 == v as int / 512 + 1,
        ((v + 1) as int % 512 != 0) ==> (v + 1) as int / 512 == v as int / 512,
        (v as int % 512 != 0 && v >= 1) ==> (v - 1) as int / 512 == v as int / 512 && (v
            - 1) as int / 262144 == v as int / 262144,
        v as int / 512 <= (end - 1) as int / 512,
{
    let vi = v as int;
    vstd::arithmetic::div_mod::lemma_fundamental_div_mod(vi + 1, 512);
    let q = (vi + 1) / 512;
    let r = (vi + 1) % 512;
    vstd::arithmetic::div_mod::lemma_mod_bound(vi + 1, 512);
    if r == 0 {
        assert(vi == 512 * (q - 1) + 511);
        vstd::arithmetic::div_mod::lemma_fundamental_div_mod_converse(vi, 512, q - 1, 511);
    } else {
        assert(vi == 512 * q + (r - 1));
        vstd::arithmetic::div_mod::lemma_fundamental_div_mod_converse(vi, 512, q, r - 1);
    }
    if vi % 512 != 0 && v >= 1 {
        vstd::arithmetic::div_mod::lemma_fundamental_div_mod(vi, 512);
        let q2 = vi / 512;
        let r2 = vi % 512;
        assert(vi - 1 == 512 * q2 + (r2 - 1));
        vstd::arithmetic::div_mod::lemma_fundamental_div_mod_converse(vi - 1, 512, q2, r2 - 1);
        assert(vi % 262144 != 0) by {
            if vi % 262144 == 0 {
                vstd::arithmetic::div_mod::lemma_fundamental_div_mod(vi, 262144);
                let m = vi / 262144;
                assert(vi == 512 * (512 * m));
                vstd::arithmetic::div_mod::lemma_fundamental_div_mod_converse(vi, 512, 512 * m, 0);
            }
        }
        vstd::arithmetic::div_mod::lemma_fundamental_div_mod(vi, 262144);
        let q3 = vi / 262144;
        let r3 = vi % 262144;
        vstd::arithmetic::div_mod::lemma_mod_bound(vi, 262144);
        assert(vi - 1 == 262144 * q3 + (r3 - 1));
        vstd::arithmetic::div_mod::lemma_fundamental_div_mod_converse(vi - 1, 262144, q3, r3 - 1);
    }
    vstd::arithmetic::div_mod::lemma_div_is_ordered(vi, (end - 1) as int, 512);
}


/// The area permission an ELF segment gets: User plus R/W/X translated
/// from the header's PF_R/PF_W/PF_X bits.
pub open spec fn seg_perm_spec(flags: u32) -> u8 {
    (16 + (if flags as int % 2 == 1 {
        8int
    } else {
        0int
    }) + (if (flags as int / 2) % 2 == 1 {
        4int
    } else {
        0int
    }) + (if (flags as int / 4) % 2 == 1 {
        2int
    } else {
        0int
    })) as u8
}

proof fn lemma_u32_flag_bits(f: u32)
    by (bit_vector)
    ensures
        (f & 1 != 0) == (f % 2 == 1),
        (f & 2 != 0) == ((f / 2) % 2 == 1),
        (f & 4 != 0) == ((f / 4) % 2 == 1),
{
}


/// The first page of a loadable segment.
pub open spec fn seg_start_vpn(seg: crate::elf::ElfSegment) -> int {
    seg.vaddr as int / PAGE_SIZE as int
}

/// One past the last page of a loadable segment.
pub open spec fn seg_end_vpn(seg: crate::elf::ElfSegment) -> int {
    (seg.vaddr + seg.mem_size + PAGE_SIZE - 1) as int / PAGE_SIZE as int
}

/// The page range a loadable segment occupies.
pub open spec fn seg_range(seg: crate::elf::ElfSegment) -> VirtPageNumRange {
    crate::utils::range::SimpleRange {
        start: crate::mm::address::VirtPageNum(seg_start_vpn(seg) as u64),
        end: crate::mm::address::VirtPageNum(seg_end_vpn(seg) as u64),
    }
}

/// A segment that leaves the 39-bit user window.
pub open spec fn seg_window_high(seg: crate::elf::ElfSegment) -> bool {
    seg.vaddr >= VA_BOUND || seg.mem_size >= VA_BOUND || seg.vaddr + seg.mem_size >= VA_BOUND
}

/// Frames that suffice for the first `k` segments.
pub open spec fn segs_budget(segs: Seq<crate::elf::ElfSegment>, k: int) -> int
    decreases k,
{
    if k <= 0 {
        0
    } else {
        segs_budget(segs, k - 1) + MemorySet::frames_needed(seg_range(segs[k - 1]), true)
    }
}

/// The highest end page among the first `k` segments.
pub open spec fn segs_max_end(segs: Seq<crate::elf::ElfSegment>, k: int) -> int
    decreases k,
{
    if k <= 0 {
        0
    } else {
        let m = segs_max_end(segs, k - 1);
        let e = seg_end_vpn(segs[k - 1]);
        if e > m {
            e
        } else {
            m
        }
    }
}

/// The user stack's page range: one guard page above the highest
/// segment, then two stack pages.
pub open spec fn stack_range_of(segs: Seq<crate::elf::ElfSegment>) -> VirtPageNumRange {
    crate::utils::range::SimpleRange {
        start: crate::mm::address::VirtPageNum((segs_max_end(segs, segs.len() as int) + 1) as u64),
        end: crate::mm::address::VirtPageNum((segs_max_end(segs, segs.len() as int) + 3) as u64),
    }
}

/// The trap-context page's range, just below the trampoline.
pub open spec fn ctx_range() -> VirtPageNumRange {
    crate::utils::range::SimpleRange {
        start: crate::mm::address::VirtPageNum((VPN_BOUND - 2) as u64),
        end: crate::mm::address::VirtPageNum((VPN_BOUND - 1) as u64),
    }
}

/// Everything that can make building a user space fail: an image the
/// reader rejects, or — for the segment list the headers name — a segment
/// leaving the user window, overlapping page ranges (among segments, the
/// stack, and the trap-context page), a claim on the reserved trampoline
/// page, a payload exceeding its range, a stack that would leave the
/// window, or a frame pool short of the build's budget.
pub open spec fn from_elf_layout_rejects(segs: Seq<crate::elf::ElfSegment>, free0: int) -> bool {
    ||| (exists|j: int| 0 <= j < segs.len() && seg_window_high(#[trigger] segs[j]))
    ||| (exists|j1: int, j2: int|
        0 <= j1 < j2 < segs.len() && seg_range(#[trigger] segs[j2]).overlaps(
            seg_range(#[trigger] segs[j1]),
        ))
    ||| (exists|j: int|
        0 <= j < segs.len() && seg_range(#[trigger] segs[j]).contains_vpn(TRAMPOLINE_VPN as int))
    ||| (exists|j: int|
        0 <= j < segs.len() && (#[trigger] segs[j]).file_size > (seg_end_vpn(segs[j])
            - seg_start_vpn(segs[j])) * FRAME_BYTES)
    ||| segs_max_end(segs, segs.len() as int) * PAGE_SIZE + PAGE_SIZE + USER_STACK_SIZE
        >= VA_BOUND
    ||| (exists|j: int|
        0 <= j < segs.len() && stack_range_of(segs).overlaps(seg_range(#[trigger] segs[j])))
    ||| stack_range_of(segs).contains_vpn(TRAMPOLINE_VPN as int)
    ||| (exists|j: int|
        0 <= j < segs.len() && ctx_range().overlaps(seg_range(#[trigger] segs[j])))
    ||| ctx_range().overlaps(stack_range_of(segs))
    ||| free0 < 3 + segs_budget(segs, segs.len() as int) + MemorySet::frames_needed(
        stack_range_of(segs),
        true,
    ) + MemorySet::frames_needed(ctx_range(), true)
}

/// The conditions under which `from_elf` fails.
pub open spec fn from_elf_rejects(b: Seq<u8>, free0: int) -> bool {
    ||| crate::elf::parse_rejects(b)
    ||| free0 < 3
    ||| (exists|segs: Seq<crate::elf::ElfSegment>|
        #[trigger] crate::elf::seg_list_exact(segs, b) && from_elf_layout_rejects(segs, free0))
}

/// Each segment's budget is non-negative, so the partial sums grow.
proof fn lemma_segs_budget_monotone(segs: Seq<crate::elf::ElfSegment>, k1: int, k2: int)
    requires
        0 <= k1 <= k2,
    ensures
        segs_budget(segs, k1) <= segs_budget(segs, k2),
    decreases k2 - k1,
{
    if k1 < k2 {
        lemma_segs_budget_monotone(segs, k1, k2 - 1);
        assert(MemorySet::frames_needed(seg_range(segs[k2 - 1]), true) >= 0);
    }
}


/// The frame budget of a forward range is never negative.
proof fn lemma_frames_needed_nonneg(range: VirtPageNumRange)
    requires
        range.start_spec() <= range.end_spec(),
    ensures
        MemorySet::frames_needed(range, true) >= 0,
        MemorySet::frames_needed(range, false) >= 0,
{
    if range.start_spec() < range.end_spec() {
        vstd::arithmetic::div_mod::lemma_div_is_ordered(
            range.start_spec(),
            range.end_spec() - 1,
            512,
        );
    }
}

/// The highest segment end is never negative and fits well below the
/// 64-bit range, so the stack range derived from it is forward.
proof fn lemma_segs_max_end_nonneg(segs: Seq<crate::elf::ElfSegment>, k: int)
    ensures
        0 <= segs_max_end(segs, k) <= 0x20_0000_0000_0000,
    decreases k,
{
    if k > 0 {
        lemma_segs_max_end_nonneg(segs, k - 1);
        assert(seg_end_vpn(segs[k - 1]) <= 0x20_0000_0000_0000) by {
            vstd::arithmetic::div_mod::lemma_div_is_ordered(
                (segs[k - 1].vaddr + segs[k - 1].mem_size + PAGE_SIZE - 1) as int,
                0xFFFF_FFFF_FFFF_FFFFint + 0xFFFF_FFFF_FFFF_FFFFint + 4095int,
                4096int,
            );
        }
    }
}


/// The page range of an identity-mapped section `[lo, hi)`.
pub open spec fn krange(lo: u64, hi: u64) -> VirtPageNumRange {
    crate::utils::range::SimpleRange {
        start: crate::mm::address::VirtPageNum((lo as int / PAGE_SIZE as int) as u64),
        end: crate::mm::address::VirtPageNum(((hi + PAGE_SIZE - 1) as int / PAGE_SIZE as int) as u64),
    }
}

/// Everything that can make building the kernel space fail: a section
/// claiming the reserved trampoline page, two sections sharing a page
/// after rounding, or a frame pool short of the build's budget.
pub open spec fn new_kernel_rejects(layout: KernelLayout, free0: int) -> bool {
    let tr = krange(layout.stext, layout.etext);
    let rr = krange(layout.srodata, layout.erodata);
    let dr = krange(layout.sdata, layout.edata);
    let br = krange(layout.sbss_with_stack, layout.ebss);
    let pr = krange(layout.ekernel, crate::config::MEMORY_END);
    ||| free0 < 3
    ||| tr.contains_vpn(TRAMPOLINE_VPN as int)
    ||| rr.contains_vpn(TRAMPOLINE_VPN as int)
    ||| dr.contains_vpn(TRAMPOLINE_VPN as int)
    ||| br.contains_vpn(TRAMPOLINE_VPN as int)
    ||| pr.contains_vpn(TRAMPOLINE_VPN as int)
    ||| rr.overlaps(tr)
    ||| dr.overlaps(tr)
    ||| dr.overlaps(rr)
    ||| br.overlaps(tr)
    ||| br.overlaps(rr)
    ||| br.overlaps(dr)
    ||| pr.overlaps(tr)
    ||| pr.overlaps(rr)
    ||| pr.overlaps(dr)
    ||| pr.overlaps(br)
    ||| free0 < 3 + MemorySet::frames_needed(tr, false) + MemorySet::frames_needed(rr, false)
        + MemorySet::frames_needed(dr, false) + MemorySet::frames_needed(br, false)
        + MemorySet::frames_needed(pr, false)
}


/// A section's page range runs forward.
proof fn lemma_krange_wf(lo: u64, hi: u64)
    requires
        lo <= hi,
    ensures
        krange(lo, hi).start_spec() <= krange(lo, hi).end_spec(),
{
    vstd::arithmetic::div_mod::lemma_div_is_ordered(lo as int, (hi + PAGE_SIZE - 1) as int, 4096);
}

} // verus!
