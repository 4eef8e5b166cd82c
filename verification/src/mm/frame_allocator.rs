//! The physical frame allocator: a bump pointer over the pool above the
//! kernel image plus a LIFO recycle list. Recycled pages are preferred over
//! advancing the bump pointer. A page handed out is free beforehand and
//! zero-filled afterwards, so no two live allocations ever share a page;
//! recycling a page that is not currently allocated is reported as an
//! error.

use vstd::prelude::*;
use vstd::string::StringExecFns;
use crate::error::KernelError;
use crate::mm::address::{PhysPageNum, PPN_BOUND};
use crate::mm::phys_mem::{PhysMemory, FRAME_BYTES};

verus! {

/// Ownership token for one allocated physical page.
#[derive(Debug)]
pub struct FrameTracker(pub PhysPageNum);

impl FrameTracker {
    pub fn new(ppn: PhysPageNum) -> (r: Self)
        ensures
            r.0 == ppn,
    {
        FrameTracker(ppn)
    }
}

/// Allocates single pages from `[current, end)`, preferring the recycle
/// list.
pub struct StackFrameAllocator {
    pub current: PhysPageNum,
    pub end: PhysPageNum,
    pub recycled: Vec<PhysPageNum>,
}

impl StackFrameAllocator {
    /// Whether `p` is on the recycle list.
    pub open spec fn recycled_contains(self, p: int) -> bool {
        exists|i: int| 0 <= i < self.recycled@.len() && self.recycled@[i].0 == p
    }

    /// Pages the allocator can still hand out.
    pub open spec fn free_count(self) -> int {
        self.recycled@.len() + self.end.0 - self.current.0
    }

    /// The coupling with the arena: the pool tail and every recycled page
    /// are free frames of the arena, and the recycle list holds distinct
    /// pages below the bump pointer.
    pub open spec fn wf(self, mem: PhysMemory) -> bool {
        &&& mem.wf()
        &&& mem.base_spec() <= self.current.0 as int
        &&& self.current.0 <= self.end.0
        &&& self.end.0 as int <= mem.end_spec()
        &&& forall|p: int| self.current.0 <= p < self.end.0 ==> mem.is_free(p)
        &&& forall|i: int|
            0 <= i < self.recycled@.len() ==> mem.is_free(#[trigger] self.recycled@[i].0 as int)
                && mem.base_spec() <= self.recycled@[i].0 as int
                && self.recycled@[i].0 < self.current.0
        &&& forall|i: int, j: int|
            0 <= i < j < self.recycled@.len() ==> #[trigger] self.recycled@[i].0
                != #[trigger] self.recycled@[j].0
    }

    /// `dealloc` rejects exactly the pages that are not currently
    /// allocated: never handed out, or already recycled.
    pub open spec fn dealloc_rejects(self, mem: PhysMemory, p: int) -> bool {
        ||| p < mem.base_spec()
        ||| p >= self.current.0 as int
        ||| self.recycled_contains(p)
    }

    /// An empty allocator; `init` supplies the pool at boot.
    pub fn new() -> (r: Self)
        ensures
            r.current.0 == 0,
            r.end.0 == 0,
            r.recycled@.len() == 0,
    {
        StackFrameAllocator {
            current: PhysPageNum(0),
            end: PhysPageNum(0),
            recycled: Vec::new(),
        }
    }

    /// Supply the physical pool `[current, end)`, set once at boot.
    pub fn init(&mut self, current: PhysPageNum, end: PhysPageNum)
        ensures
            final(self).current == current,
            final(self).end == end,
            final(self).recycled == old(self).recycled,
    {
        self.current = current;
        self.end = end;
    }

    /// Hand out one free page, zero-filled, preferring recycled pages;
    /// nothing if the pool is exhausted.
    pub fn alloc_page(&mut self, mem: &mut PhysMemory) -> (r: Option<PhysPageNum>)
        requires
            old(self).wf(*old(mem)),
        ensures
            final(self).wf(*final(mem)),
            final(self).end == old(self).end,
            r is Some <==> old(self).free_count() > 0,
            r is None ==> final(self).current == old(self).current && final(self).recycled@
                == old(self).recycled@ && *final(mem) == *old(mem),
            r matches Some(p) ==> {
                &&& old(mem).is_free(p.0 as int)
                &&& final(mem).is_data(p.0 as int)
                &&& final(mem).data(p.0 as int) == Seq::new(FRAME_BYTES as nat, |i: int| 0u8)
                &&& old(mem).same_except(*final(mem), p.0 as int)
                &&& final(self).free_count() == old(self).free_count() - 1
                &&& p.0 < PPN_BOUND
            },
    {
        let ghost r0 = old(self).recycled@;
        let picked: Option<PhysPageNum> = match self.recycled.pop() {
            Some(page) => {
                proof {
                    assert(page == r0[r0.len() - 1]);
                    assert(self.recycled@ == r0.subrange(0, r0.len() - 1));
                    assert forall|i: int| 0 <= i < self.recycled@.len() implies #[trigger] self
                        .recycled@[i] == r0[i] by {}
                }
                Some(page)
            },
            None => {
                if self.current.0 == self.end.0 {
                    None
                } else {
                    let result: PhysPageNum = self.current;
                    self.current = PhysPageNum(self.current.0 + 1);
                    Some(result)
                }
            },
        };
        match picked {
            Some(page) => {
                mem.set_data_zero(page.0);
                proof {
                    assert forall|p: int|
                        self.current.0 <= p < self.end.0 implies mem.is_free(p) by {
                        assert(old(mem).is_free(p));
                        assert(p != page.0 as int);
                    }
                    assert forall|i: int| 0 <= i < self.recycled@.len() implies mem.is_free(
                        #[trigger] self.recycled@[i].0 as int,
                    ) && mem.base_spec() <= self.recycled@[i].0 as int && self.recycled@[i].0
                        < self.current.0 by {
                        assert(old(mem).is_free(self.recycled@[i].0 as int));
                        if old(self).recycled@.len() > 0 {
                            assert(self.recycled@[i] == r0[i]);
                            assert(r0[i].0 != r0[r0.len() - 1].0);
                        }
                    }
                }
                Some(page)
            },
            None => None,
        }
    }

    /// Return an allocated page to the recycle list. Pages never handed
    /// out, or already on the list, are rejected.
    pub fn dealloc(&mut self, mem: &mut PhysMemory, ppn: PhysPageNum) -> (r: Result<
        (),
        KernelError,
    >)
        requires
            old(self).wf(*old(mem)),
        ensures
            final(self).wf(*final(mem)),
            r is Err <==> old(self).dealloc_rejects(*old(mem), ppn.0 as int),
            r is Err ==> *final(self) == *old(self) && *final(mem) == *old(mem),
            r is Ok ==> {
                &&& final(mem).is_free(ppn.0 as int)
                &&& old(mem).same_except(*final(mem), ppn.0 as int)
                &&& final(self).current == old(self).current
                &&& final(self).end == old(self).end
                &&& final(self).recycled@ == old(self).recycled@.push(ppn)
                &&& final(self).free_count() == old(self).free_count() + 1
            },
    {
        if ppn.0 < mem.base || ppn.0 >= self.current.0 {
            return Err(
                KernelError::InvalidArgument(String::from_str("frame has not been allocated")),
            );
        }
        let n: usize = self.recycled.len();
        let mut i: usize = 0;
        while i < n
            invariant
                *self == *old(self),
                *mem == *old(mem),
                old(self).wf(*old(mem)),
                n == self.recycled@.len(),
                i <= n,
                forall|j: int| 0 <= j < i ==> #[trigger] self.recycled@[j].0 != ppn.0,
            decreases n - i,
        {
            if self.recycled[i].0 == ppn.0 {
                return Err(
                    KernelError::InvalidArgument(
                        String::from_str("frame is already on the recycle list"),
                    ),
                );
            }
            i = i + 1;
        }
        self.recycled.push(ppn);
        mem.set_free(ppn.0);
        proof {
            let r0 = old(self).recycled@;
            assert(self.recycled@ == r0.push(ppn));
            assert forall|k: int| 0 <= k < self.recycled@.len() implies mem.is_free(
                #[trigger] self.recycled@[k].0 as int,
            ) && mem.base_spec() <= self.recycled@[k].0 as int && self.recycled@[k].0
                < self.current.0 by {
                if k < r0.len() {
                    assert(self.recycled@[k] == r0[k]);
                    assert(old(mem).is_free(r0[k].0 as int));
                    assert(r0[k].0 != ppn.0);
                } else {
                    assert(self.recycled@[k] == ppn);
                }
            }
            assert forall|k: int, l: int|
                0 <= k < l < self.recycled@.len() implies #[trigger] self.recycled@[k].0
                != #[trigger] self.recycled@[l].0 by {
                if l < r0.len() {
                    assert(self.recycled@[k] == r0[k] && self.recycled@[l] == r0[l]);
                } else {
                    assert(self.recycled@[k] == r0[k] && self.recycled@[l] == ppn);
                }
            }
            assert forall|p: int| self.current.0 <= p < self.end.0 implies mem.is_free(p) by {
                assert(old(mem).is_free(p));
            }
        }
        Ok(())
    }
}

/// Allocate one frame, wrapped in its ownership token.
pub fn frame_alloc(fa: &mut StackFrameAllocator, mem: &mut PhysMemory) -> (r: Option<FrameTracker>)
    requires
        old(fa).wf(*old(mem)),
    ensures
        final(fa).wf(*final(mem)),
        final(fa).end == old(fa).end,
        r is Some <==> old(fa).free_count() > 0,
        r is None ==> final(fa).current == old(fa).current && final(fa).recycled@
            == old(fa).recycled@ && *final(mem) == *old(mem),
        r matches Some(t) ==> {
            &&& old(mem).is_free(t.0.0 as int)
            &&& final(mem).is_data(t.0.0 as int)
            &&& final(mem).data(t.0.0 as int) == Seq::new(FRAME_BYTES as nat, |i: int| 0u8)
            &&& old(mem).same_except(*final(mem), t.0.0 as int)
            &&& final(fa).free_count() == old(fa).free_count() - 1
            &&& t.0.0 < PPN_BOUND
        },
{
    match fa.alloc_page(mem) {
        Some(ppn) => Some(FrameTracker::new(ppn)),
        None => None,
    }
}

/// A page handed out by `alloc` was free at that moment, while every page
/// already handed out and not yet recycled is not free; so no two live
/// allocations ever name the same page.
pub proof fn lemma_live_frames_distinct(mem: PhysMemory, live: int, fresh: int)
    requires
        mem.contains(live),
        !(mem.frame(live) is Free),
        mem.is_free(fresh),
    ensures
        live != fresh,
{
}


/// Changing the contents of a frame that is not free leaves the
/// allocator's coupling with the arena intact.
pub proof fn lemma_fa_wf_nonfree_update(
    fa: StackFrameAllocator,
    mem1: PhysMemory,
    mem2: PhysMemory,
    p: int,
)
    requires
        fa.wf(mem1),
        mem1.same_except(mem2, p),
        !mem1.is_free(p),
        mem2.frames@.len() == mem1.frames@.len(),
    ensures
        fa.wf(mem2),
{
    assert forall|q: int| fa.current.0 <= q < fa.end.0 implies mem2.is_free(q) by {
        assert(mem1.is_free(q));
        assert(q != p);
    }
    assert forall|i: int| 0 <= i < fa.recycled@.len() implies mem2.is_free(
        #[trigger] fa.recycled@[i].0 as int,
    ) && mem2.base_spec() <= fa.recycled@[i].0 as int && fa.recycled@[i].0 < fa.current.0 by {
        assert(mem1.is_free(fa.recycled@[i].0 as int));
        assert(fa.recycled@[i].0 as int != p);
    }
}


impl StackFrameAllocator {
    /// Whether at least `n` pages can still be handed out.
    pub fn has_free(&self, n: u64) -> (r: bool)
        requires
            self.current.0 <= self.end.0,
        ensures
            r == (self.free_count() >= n),
    {
        let tail: u64 = self.end.0 - self.current.0;
        if tail >= n {
            true
        } else {
            self.recycled.len() as u64 >= n - tail
        }
    }
}


/// If every free frame keeps its contents across an update, the
/// allocator's coupling with the arena is preserved.
pub proof fn lemma_fa_wf_free_frames_unchanged(
    fa: StackFrameAllocator,
    mem1: PhysMemory,
    mem2: PhysMemory,
)
    requires
        fa.wf(mem1),
        mem2.base_spec() == mem1.base_spec(),
        mem2.frames@.len() == mem1.frames@.len(),
        forall|q: int| mem1.is_free(q) ==> #[trigger] mem2.frame(q) == mem1.frame(q),
    ensures
        fa.wf(mem2),
{
    assert forall|q: int| fa.current.0 <= q < fa.end.0 implies mem2.is_free(q) by {
        assert(mem1.is_free(q));
    }
    assert forall|i: int| 0 <= i < fa.recycled@.len() implies mem2.is_free(
        #[trigger] fa.recycled@[i].0 as int,
    ) && mem2.base_spec() <= fa.recycled@[i].0 as int && fa.recycled@[i].0 < fa.current.0 by {
        assert(mem1.is_free(fa.recycled@[i].0 as int));
    }
}

} // verus!
