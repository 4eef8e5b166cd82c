//! One contiguous virtual region of an address space: a half-open page
//! range, a mapping kind (identical or backed by owned frames), and
//! R/W/X/U permission bits.

use vstd::prelude::*;
use crate::mm::address::{PhysPageNum, VirtPageNum, PPN_BOUND, VPN_BOUND};
use crate::mm::frame_allocator::{frame_alloc, FrameTracker, StackFrameAllocator};
use crate::mm::page_table::MapPermission;
use crate::mm::phys_mem::{PhysMemory, FRAME_BYTES};
use crate::utils::range::VirtPageNumRange;

verus! {

/// How a region's pages obtain backing frames.
pub enum Mapping {
    /// The physical page number equals the virtual page number.
    Identical,
    /// Each page is backed by a freshly allocated, owned frame; the pairs
    /// record which frame backs which page.
    Framed(Vec<(VirtPageNum, FrameTracker)>),
}

/// The frame recorded for page `v` in an association list.
pub open spec fn find_frame(pairs: Seq<(VirtPageNum, FrameTracker)>, v: int) -> Option<u64>
    decreases pairs.len(),
{
    if pairs.len() == 0 {
        None
    } else if pairs[0].0.0 == v {
        Some(pairs[0].1.0.0)
    } else {
        find_frame(pairs.skip(1), v)
    }
}

/// Appending a pair with an unused key extends the recorded frames by one
/// entry and changes no other entry.
pub proof fn lemma_find_frame_push(
    pairs: Seq<(VirtPageNum, FrameTracker)>,
    k: VirtPageNum,
    f: FrameTracker,
)
    requires
        find_frame(pairs, k.0 as int) is None,
    ensures
        find_frame(pairs.push((k, f)), k.0 as int) == Some(f.0.0),
        forall|v: int| v != k.0 ==> #[trigger] find_frame(pairs.push((k, f)), v) == find_frame(
            pairs,
            v,
        ),
    decreases pairs.len(),
{
    if pairs.len() == 0 {
        assert(pairs.push((k, f)).len() == 1);
        assert(pairs.push((k, f))[0] == (k, f));
        assert(find_frame(pairs.push((k, f)), k.0 as int) == Some(f.0.0));
        assert forall|v: int| v != k.0 implies #[trigger] find_frame(pairs.push((k, f)), v)
            == find_frame(pairs, v) by {
            assert(find_frame(pairs.push((k, f)).skip(1), v) is None) by {
                assert(pairs.push((k, f)).skip(1).len() == 0);
            }
        }
    } else {
        assert(pairs.push((k, f))[0] == pairs[0]);
        assert(pairs.push((k, f)).skip(1) =~= pairs.skip(1).push((k, f)));
        assert(pairs[0].0.0 != k.0);
        assert(find_frame(pairs.skip(1), k.0 as int) is None);
        lemma_find_frame_push(pairs.skip(1), k, f);
        assert(find_frame(pairs.push((k, f)), k.0 as int) == find_frame(
            pairs.skip(1).push((k, f)),
            k.0 as int,
        ));
        assert forall|v: int| v != k.0 implies #[trigger] find_frame(pairs.push((k, f)), v)
            == find_frame(pairs, v) by {
            if pairs[0].0.0 == v {
            } else {
                assert(find_frame(pairs.push((k, f)), v) == find_frame(
                    pairs.skip(1).push((k, f)),
                    v,
                ));
                assert(find_frame(pairs.skip(1).push((k, f)), v) == find_frame(pairs.skip(1), v));
            }
        }
    }
}

impl Mapping {
    /// A fresh frame-backed mapping with no pages yet.
    pub fn new_framed() -> (r: Self)
        ensures
            r matches Mapping::Framed(pairs) && pairs@.len() == 0,
    {
        Mapping::Framed(Vec::new())
    }
}

/// One contiguous region of an address space.
pub struct MemoryArea {
    pub vpn_range: VirtPageNumRange,
    pub mapping: Mapping,
    pub map_perm: MapPermission,
}

impl MemoryArea {
    /// The frame backing page `v`, if this area maps it.
    pub open spec fn frame_of(self, v: int) -> Option<u64> {
        match self.mapping {
            Mapping::Identical => Some(v as u64),
            Mapping::Framed(pairs) => find_frame(pairs@, v),
        }
    }

    /// Whether this area is frame-backed.
    pub open spec fn is_framed(self) -> bool {
        self.mapping is Framed
    }

    /// Whether `q` is one of this area's owned backing frames.
    pub open spec fn has_frame(self, q: int) -> bool {
        match self.mapping {
            Mapping::Identical => false,
            Mapping::Framed(pairs) => exists|i: int|
                0 <= i < pairs@.len() && pairs@[i].1.0.0 == q,
        }
    }

    /// Structural well-formedness: a forward range inside the 27-bit page
    /// number space, permission bits within R/W/X/U and the Valid bit
    /// clear.
    pub open spec fn wf_basic(self) -> bool {
        &&& self.vpn_range.wf()
        &&& self.vpn_range.end_spec() <= VPN_BOUND
        &&& self.map_perm < 32
        &&& self.map_perm % 2 == 0
    }

    /// A frame-backed area that has not mapped any page yet.
    pub open spec fn unmapped(self) -> bool {
        match self.mapping {
            Mapping::Identical => true,
            Mapping::Framed(pairs) => pairs@.len() == 0,
        }
    }

    /// Well-formedness of a frame-backed area filled up to page `hi`:
    /// every page of `[start, hi)` is backed, keys lie in that prefix and
    /// are distinct, and the backing frames are distinct data frames.
    pub open spec fn framed_upto(self, mem: PhysMemory, hi: int) -> bool {
        match self.mapping {
            Mapping::Identical => true,
            Mapping::Framed(pairs) => {
                &&& forall|v: int|
                    self.vpn_range.start_spec() <= v < hi ==> #[trigger] find_frame(
                        pairs@,
                        v,
                    ) is Some
                &&& forall|i: int|
                    0 <= i < pairs@.len() ==> (self.vpn_range.start_spec() <= ((
                    #[trigger] pairs@[i]).0.0 as int) && ((pairs@[i].0.0 as int) < hi))
                &&& forall|i: int, j: int|
                    0 <= i < j < pairs@.len() ==> #[trigger] pairs@[i].0.0 != #[trigger] pairs@[j].0.0
                &&& forall|i: int, j: int|
                    0 <= i < j < pairs@.len() ==> #[trigger] pairs@[i].1.0.0
                        != #[trigger] pairs@[j].1.0.0
                &&& forall|i: int|
                    0 <= i < pairs@.len() ==> mem.is_data(#[trigger] pairs@[i].1.0.0 as int)
            },
        }
    }

    /// Well-formedness of the recorded frames against the arena: every
    /// page of the range is backed, keys lie in the range and are
    /// distinct, and the backing frames are distinct data frames.
    pub open spec fn wf_in(self, mem: PhysMemory) -> bool {
        &&& self.wf_basic()
        &&& self.framed_upto(mem, self.vpn_range.end_spec())
    }

    pub fn new(vpn_range: VirtPageNumRange, mapping: Mapping, map_perm: MapPermission) -> (r: Self)
        ensures
            r.vpn_range == vpn_range,
            r.mapping == mapping,
            r.map_perm == map_perm,
    {
        Self { vpn_range, mapping, map_perm }
    }

    pub fn get_vpn_range(&self) -> (r: VirtPageNumRange)
        ensures
            r == self.vpn_range,
    {
        self.vpn_range
    }

    pub fn get_map_perm(&self) -> (r: MapPermission)
        ensures
            r == self.map_perm,
    {
        self.map_perm
    }
}


/// A recorded frame belongs to some pair of the list.
pub proof fn lemma_find_frame_entry(pairs: Seq<(VirtPageNum, FrameTracker)>, v: int)
    requires
        find_frame(pairs, v) is Some,
    ensures
        exists|i: int|
            0 <= i < pairs.len() && pairs[i].0.0 == v && pairs[i].1.0.0 == find_frame(
                pairs,
                v,
            )->Some_0,
    decreases pairs.len(),
{
    if pairs.len() == 0 {
    } else if pairs[0].0.0 == v {
        assert(pairs[0].0.0 == v && pairs[0].1.0.0 == find_frame(pairs, v)->Some_0);
    } else {
        lemma_find_frame_entry(pairs.skip(1), v);
        let i = choose|i: int|
            0 <= i < pairs.skip(1).len() && pairs.skip(1)[i].0.0 == v && pairs.skip(1)[i].1.0.0
                == find_frame(pairs.skip(1), v)->Some_0;
        assert(pairs[i + 1] == pairs.skip(1)[i]);
    }
}

impl MemoryArea {
    /// Obtain the backing physical page for `vpn`: the page number itself
    /// for an identical mapping, a freshly allocated zeroed frame for a
    /// frame-backed one, recorded in the pair list.
    pub fn map(
        &mut self,
        mem: &mut PhysMemory,
        fa: &mut StackFrameAllocator,
        vpn: VirtPageNum,
    ) -> (r: PhysPageNum)
        requires
            old(self).wf_basic(),
            old(self).vpn_range.contains_vpn(vpn.0 as int),
            old(self).is_framed() ==> old(self).frame_of(vpn.0 as int) is None,
            old(fa).wf(*old(mem)),
            old(self).is_framed() ==> old(fa).free_count() >= 1,
        ensures
            final(fa).wf(*final(mem)),
            final(fa).end == old(fa).end,
            final(self).vpn_range == old(self).vpn_range,
            final(self).map_perm == old(self).map_perm,
            final(self).is_framed() == old(self).is_framed(),
            r.0 < PPN_BOUND,
            !old(self).is_framed() ==> *final(self) == *old(self) && *final(mem) == *old(mem)
                && *final(fa) == *old(fa) && r.0 == vpn.0,
            old(self).is_framed() ==> {
                &&& old(mem).is_free(r.0 as int)
                &&& final(mem).is_data(r.0 as int)
                &&& final(mem).data(r.0 as int) == Seq::new(FRAME_BYTES as nat, |i: int| 0u8)
                &&& old(mem).same_except(*final(mem), r.0 as int)
                &&& final(fa).free_count() == old(fa).free_count() - 1
                &&& final(self).frame_of(vpn.0 as int) == Some(r.0)
                &&& forall|v: int|
                    v != vpn.0 ==> #[trigger] final(self).frame_of(v) == old(self).frame_of(v)
                &&& forall|q: int|
                    #[trigger] final(self).has_frame(q) <==> old(self).has_frame(q) || q == r.0
                &&& final(self).mapping matches Mapping::Framed(pairs) && old(
                    self,
                ).mapping matches Mapping::Framed(pairs0) && pairs@ == pairs0@.push(
                    (vpn, FrameTracker(r)),
                )
            },
    {
        let is_framed: bool = match &self.mapping {
            Mapping::Identical => false,
            Mapping::Framed(_) => true,
        };
        if !is_framed {
            return PhysPageNum(vpn.0);
        }
        let frame: FrameTracker = match frame_alloc(fa, mem) {
            Some(f) => f,
            None => {
                proof {
                    assert(false);
                }
                FrameTracker(PhysPageNum(0))
            },
        };
        let ppn: PhysPageNum = frame.0;
        let ghost pairs0 = self.mapping->Framed_0@;
        match &mut self.mapping {
            Mapping::Framed(pairs) => {
                pairs.push((vpn, frame));
            },
            Mapping::Identical => {},
        }
        proof {
            assert(self.mapping matches Mapping::Framed(pairs) && pairs@ == pairs0.push(
                (vpn, FrameTracker(ppn)),
            ));
            lemma_find_frame_push(pairs0, vpn, FrameTracker(ppn));
            let pairs1 = self.mapping->Framed_0@;
            assert forall|q: int| #[trigger] self.has_frame(q) <==> (old(self).has_frame(q) || q
                == ppn.0) by {
                if old(self).has_frame(q) {
                    let i = choose|i: int| 0 <= i < pairs0.len() && pairs0[i].1.0.0 == q;
                    assert(pairs1[i] == pairs0[i]);
                    assert(self.has_frame(q));
                }
                if q == ppn.0 {
                    assert(pairs1[pairs0.len() as int].1.0.0 == q);
                    assert(self.has_frame(q));
                }
                if self.has_frame(q) {
                    let i = choose|i: int| 0 <= i < pairs1.len() && pairs1[i].1.0.0 == q;
                    if i < pairs0.len() {
                        assert(pairs0[i].1.0.0 == q);
                        assert(old(self).has_frame(q));
                    } else {
                        assert(q == ppn.0);
                    }
                }
            }
        }
        ppn
    }
}


/// Recording one more page, backed by a fresh frame, extends a partially
/// filled area by one page: coverage, key bounds and both distinctness
/// properties carry over because the fresh frame was free while all
/// previously recorded frames are data frames.
pub proof fn lemma_framed_upto_extend(
    area0: MemoryArea,
    area1: MemoryArea,
    mem_pre: PhysMemory,
    mem_post: PhysMemory,
    v: int,
    ppn: u64,
)
    requires
        area0.is_framed(),
        area1.is_framed(),
        area0.framed_upto(mem_pre, v),
        area0.vpn_range == area1.vpn_range,
        area0.vpn_range.start_spec() <= v < area0.vpn_range.end_spec(),
        area0.vpn_range.end_spec() <= VPN_BOUND,
        area1.mapping->Framed_0@ == area0.mapping->Framed_0@.push(
            (VirtPageNum(v as u64), FrameTracker(PhysPageNum(ppn))),
        ),
        mem_pre.is_free(ppn as int),
        mem_post.is_data(ppn as int),
        forall|k: int|
            0 <= k < area0.mapping->Framed_0@.len() ==> mem_post.is_data(
                (#[trigger] area0.mapping->Framed_0@[k]).1.0.0 as int,
            ),
    ensures
        area1.framed_upto(mem_post, v + 1),
        forall|u: int| u != v ==> #[trigger] area1.frame_of(u) == area0.frame_of(u),
        area1.frame_of(v) == Some(ppn),
{
    let pairs0 = area0.mapping->Framed_0@;
    let pairs1 = area1.mapping->Framed_0@;
    let start = area0.vpn_range.start_spec();
    assert(find_frame(pairs0, v) is None) by {
        if find_frame(pairs0, v) is Some {
            lemma_find_frame_entry(pairs0, v);
        }
    }
    lemma_find_frame_push(pairs0, VirtPageNum(v as u64), FrameTracker(PhysPageNum(ppn)));
    assert(area1.frame_of(v) == Some(ppn));
    assert forall|k: int| 0 <= k < pairs1.len() implies (start <= ((
    #[trigger] pairs1[k]).0.0 as int) && ((pairs1[k].0.0 as int) < v + 1)) by {
        if k < pairs0.len() {
            assert(pairs1[k] == pairs0[k]);
        } else {
            assert(pairs1[k] == (VirtPageNum(v as u64), FrameTracker(PhysPageNum(ppn))));
        }
    }
    assert forall|u: int| start <= u < v + 1 implies #[trigger] find_frame(pairs1, u) is Some by {
        if u < v {
            assert(find_frame(pairs1, u) == find_frame(pairs0, u));
        }
    }
    assert forall|i: int, j: int| 0 <= i < j < pairs1.len() implies #[trigger] pairs1[i].0.0
        != #[trigger] pairs1[j].0.0 by {
        if j < pairs0.len() {
            assert(pairs1[i] == pairs0[i] && pairs1[j] == pairs0[j]);
        } else {
            assert(pairs1[i] == pairs0[i]);
            assert(pairs1[j].0.0 == v as u64);
        }
    }
    assert forall|i: int, j: int| 0 <= i < j < pairs1.len() implies #[trigger] pairs1[i].1.0.0
        != #[trigger] pairs1[j].1.0.0 by {
        if j < pairs0.len() {
            assert(pairs1[i] == pairs0[i] && pairs1[j] == pairs0[j]);
        } else {
            assert(pairs1[i] == pairs0[i]);
            assert(pairs1[j].1.0.0 == ppn);
            assert(mem_pre.is_data(pairs0[i].1.0.0 as int));
            assert(!(mem_pre.frame(ppn as int) is Data));
        }
    }
    assert forall|k: int| 0 <= k < pairs1.len() implies mem_post.is_data(
        (#[trigger] pairs1[k]).1.0.0 as int,
    ) by {
        if k < pairs0.len() {
            assert(pairs1[k] == pairs0[k]);
        } else {
            assert(pairs1[k].1.0.0 == ppn);
        }
    }
}


impl MemoryArea {
    /// Keys and backing frames of the pair list are pairwise distinct.
    pub open spec fn pairs_distinct(self) -> bool {
        match self.mapping {
            Mapping::Identical => true,
            Mapping::Framed(pairs) => {
                &&& forall|i: int, j: int|
                    0 <= i < j < pairs@.len() ==> #[trigger] pairs@[i].0.0 != #[trigger] pairs@[j].0.0
                &&& forall|i: int, j: int|
                    0 <= i < j < pairs@.len() ==> #[trigger] pairs@[i].1.0.0
                        != #[trigger] pairs@[j].1.0.0
            },
        }
    }

    /// With distinct keys and frames, different pages are backed by
    /// different frames.
    pub proof fn lemma_distinct_frames(self, u: int, v: int)
        requires
            self.is_framed(),
            self.pairs_distinct(),
            u != v,
            self.frame_of(u) is Some,
            self.frame_of(v) is Some,
        ensures
            self.frame_of(u) != self.frame_of(v),
    {
        let pairs = self.mapping->Framed_0@;
        lemma_find_frame_entry(pairs, u);
        lemma_find_frame_entry(pairs, v);
        let k1 = choose|k: int|
            0 <= k < pairs.len() && pairs[k].0.0 == u && pairs[k].1.0.0 == self.frame_of(
                u,
            )->Some_0;
        let k2 = choose|k: int|
            0 <= k < pairs.len() && pairs[k].0.0 == v && pairs[k].1.0.0 == self.frame_of(
                v,
            )->Some_0;
        assert(k1 != k2);
        if k1 < k2 {
            assert(pairs[k1].1.0.0 != pairs[k2].1.0.0);
        } else {
            assert(pairs[k2].1.0.0 != pairs[k1].1.0.0);
        }
    }
}

} // verus!
