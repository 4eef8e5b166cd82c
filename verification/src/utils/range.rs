//! Half-open ranges of virtual page numbers, with the intersection test
//! that overlap rejection in address spaces is built on.

use vstd::prelude::*;
use crate::mm::address::{VirtAddr, VirtPageNum, VA_BOUND, VPN_BOUND};
use crate::config::PAGE_SIZE;

verus! {

/// A type whose values can advance to a successor, one step at a time.
pub trait StepByOne: Sized {
    /// When a value has a successor.
    spec fn can_step(&self) -> bool;

    /// The successor value.
    spec fn step_spec(&self) -> Self;

    /// Advance to the successor.
    fn step(&mut self)
        requires
            old(self).can_step(),
        ensures
            *final(self) == old(self).step_spec(),
    ;
}

/// A half-open range `[start, end)` of virtual page numbers.
#[derive(Copy, Clone, Debug, PartialEq, Eq, Structural)]
pub struct SimpleRange {
    pub start: VirtPageNum,
    pub end: VirtPageNum,
}

pub type VirtPageNumRange = SimpleRange;

impl SimpleRange {
    /// First page number of the range.
    pub open spec fn start_spec(self) -> int {
        self.start.0 as int
    }

    /// One past the last page number of the range.
    pub open spec fn end_spec(self) -> int {
        self.end.0 as int
    }

    /// Whether `v` lies in the range.
    pub open spec fn contains_vpn(self, v: int) -> bool {
        self.start_spec() <= v < self.end_spec()
    }

    /// The overlap test: either range starts inside the other.
    pub open spec fn overlaps(self, other: Self) -> bool {
        ||| (other.start_spec() <= self.start_spec() < other.end_spec())
        ||| (self.start_spec() <= other.start_spec() < self.end_spec())
    }

    /// A well-formed range does not end before it starts.
    pub open spec fn wf(self) -> bool {
        self.start_spec() <= self.end_spec()
    }

    pub fn new(start: VirtPageNum, end: VirtPageNum) -> (r: Self)
        ensures
            r.start_spec() == start.0,
            r.end_spec() == end.0,
    {
        Self { start, end }
    }

    /// The range of whole pages covering `[start_va, end_va)`.
    pub fn new_from_va(start_va: VirtAddr, end_va: VirtAddr) -> (r: Self)
        requires
            end_va.0 < VA_BOUND,
        ensures
            r.start_spec() == start_va.0 as int / PAGE_SIZE as int,
            r.end_spec() == (end_va.0 + PAGE_SIZE - 1) as int / PAGE_SIZE as int,
            r.end_spec() <= VPN_BOUND,
            start_va.0 < VA_BOUND ==> r.start_spec() < VPN_BOUND,
            start_va.0 <= end_va.0 ==> r.wf(),
    {
        SimpleRange::new(start_va.floor(), end_va.ceil())
    }

    pub fn get_start(&self) -> (r: VirtPageNum)
        ensures
            r.0 == self.start_spec(),
    {
        self.start
    }

    pub fn get_end(&self) -> (r: VirtPageNum)
        ensures
            r.0 == self.end_spec(),
    {
        self.end
    }

    /// If the two ranges overlap, the smallest range covering both;
    /// otherwise nothing. Adjacent ranges (end of one equal to start of the
    /// other) do not overlap.
    pub fn intersect(&self, another: Self) -> (r: Option<Self>)
        ensures
            r is Some <==> self.overlaps(another),
            r is Some ==> {
                let u = r->Some_0;
                &&& u.start_spec() == if self.start_spec() <= another.start_spec() {
                    self.start_spec()
                } else {
                    another.start_spec()
                }
                &&& u.end_spec() == if self.end_spec() >= another.end_spec() {
                    self.end_spec()
                } else {
                    another.end_spec()
                }
            },
    {
        if (another.start.0 <= self.start.0 && self.start.0 < another.end.0) || (self.start.0
            <= another.start.0 && another.start.0 < self.end.0) {
            let lo: VirtPageNum = if self.start.0 <= another.start.0 {
                self.start
            } else {
                another.start
            };
            let hi: VirtPageNum = if self.end.0 >= another.end.0 {
                self.end
            } else {
                another.end
            };
            Some(SimpleRange::new(lo, hi))
        } else {
            None
        }
    }
}

/// For non-empty well-formed ranges, the overlap test of [`SimpleRange::intersect`]
/// holds exactly when the two ranges share a page number; in particular
/// adjacent ranges share none and are accepted as disjoint.
pub proof fn lemma_overlap_iff_common_vpn(a: SimpleRange, b: SimpleRange)
    requires
        a.wf(),
        b.wf(),
        a.start_spec() < a.end_spec(),
        b.start_spec() < b.end_spec(),
    ensures
        a.overlaps(b) <==> exists|v: int| a.contains_vpn(v) && b.contains_vpn(v),
{
    if a.overlaps(b) {
        if b.start_spec() <= a.start_spec() < b.end_spec() {
            assert(a.contains_vpn(a.start_spec()) && b.contains_vpn(a.start_spec()));
        } else {
            assert(a.contains_vpn(b.start_spec()) && b.contains_vpn(b.start_spec()));
        }
    }
}

/// Steps through the page numbers of a [`SimpleRange`] from start to end.
pub struct SimpleRangeIterator {
    pub cur: VirtPageNum,
    pub end: VirtPageNum,
}

impl SimpleRangeIterator {
    /// The next page number this iterator will yield, if any.
    pub open spec fn cur_spec(self) -> int {
        self.cur.0 as int
    }

    /// One past the last page number this iterator yields.
    pub open spec fn end_iter_spec(self) -> int {
        self.end.0 as int
    }

    pub fn new(start: VirtPageNum, end: VirtPageNum) -> (r: Self)
        ensures
            r.cur_spec() == start.0,
            r.end_iter_spec() == end.0,
    {
        Self { cur: start, end }
    }

    /// Yield the next page number, or nothing once the end is reached.
    pub fn next(&mut self) -> (r: Option<VirtPageNum>)
        ensures
            final(self).end_iter_spec() == old(self).end_iter_spec(),
            old(self).cur_spec() >= old(self).end_iter_spec() ==> {
                &&& r is None
                &&& final(self).cur_spec() == old(self).cur_spec()
            },
            old(self).cur_spec() < old(self).end_iter_spec() ==> {
                &&& r == Some(VirtPageNum(old(self).cur_spec() as u64))
                &&& final(self).cur_spec() == old(self).cur_spec() + 1
            },
    {
        if self.cur.0 >= self.end.0 {
            None
        } else {
            let ret: VirtPageNum = self.cur;
            self.cur.step();
            Some(ret)
        }
    }
}

} // verus!
