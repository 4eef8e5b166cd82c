use kernel_core::mm::address::{PhysAddr, PhysPageNum, VirtAddr, VirtPageNum};
use kernel_core::mm::frame_allocator::StackFrameAllocator;
use kernel_core::mm::memory_area::{Mapping, MemoryArea};
use kernel_core::mm::memory_set::MemorySet;
use kernel_core::mm::page_table::PageTableEntry;
use kernel_core::mm::phys_mem::PhysMemory;
use kernel_core::utils::range::{SimpleRange, VirtPageNumRange};

fn small_pool() -> (PhysMemory, StackFrameAllocator) {
    let mem = PhysMemory::new(0x80210, 0x80230);
    let mut fa = StackFrameAllocator::new();
    fa.init(PhysPageNum(0x80210), PhysPageNum(0x80230));
    (mem, fa)
}

#[test]
fn alloc_returns_distinct_live_pages() {
    let (mut mem, mut fa) = small_pool();
    let a = fa.alloc_page(&mut mem).unwrap();
    let b = fa.alloc_page(&mut mem).unwrap();
    let c = fa.alloc_page(&mut mem).unwrap();
    assert_ne!(a.0, b.0);
    assert_ne!(a.0, c.0);
    assert_ne!(b.0, c.0);
}

#[test]
fn alloc_page_reads_as_zero() {
    let (mut mem, mut fa) = small_pool();
    let a = fa.alloc_page(&mut mem).unwrap();
    for i in 0..4096usize {
        assert_eq!(mem.read_byte(a.0, i), 0);
    }
}

#[test]
fn alloc_prefers_recycled_pages() {
    let (mut mem, mut fa) = small_pool();
    let a = fa.alloc_page(&mut mem).unwrap();
    let _b = fa.alloc_page(&mut mem).unwrap();
    assert!(fa.dealloc(&mut mem, a).is_ok());
    let c = fa.alloc_page(&mut mem).unwrap();
    assert_eq!(c.0, a.0);
}

#[test]
fn dealloc_of_never_allocated_page_is_rejected() {
    let (mut mem, mut fa) = small_pool();
    let _a = fa.alloc_page(&mut mem).unwrap();
    // at or above the bump pointer: never handed out.
    assert!(fa.dealloc(&mut mem, PhysPageNum(0x80220)).is_err());
    // below the pool: never handed out either.
    assert!(fa.dealloc(&mut mem, PhysPageNum(0x80000)).is_err());
}

#[test]
fn dealloc_twice_is_rejected() {
    let (mut mem, mut fa) = small_pool();
    let a = fa.alloc_page(&mut mem).unwrap();
    assert!(fa.dealloc(&mut mem, a).is_ok());
    assert!(fa.dealloc(&mut mem, a).is_err());
}

#[test]
fn pool_exhaustion_returns_nothing() {
    let mut mem = PhysMemory::new(0x80210, 0x80212);
    let mut fa = StackFrameAllocator::new();
    fa.init(PhysPageNum(0x80210), PhysPageNum(0x80212));
    assert!(fa.alloc_page(&mut mem).is_some());
    assert!(fa.alloc_page(&mut mem).is_some());
    assert!(fa.alloc_page(&mut mem).is_none());
}

fn r(s: u64, e: u64) -> SimpleRange {
    SimpleRange::new(VirtPageNum(s), VirtPageNum(e))
}

#[test]
fn intersect_detects_every_overlap_shape() {
    // exact containment.
    assert!(r(10, 20).intersect(r(12, 15)).is_some());
    assert!(r(12, 15).intersect(r(10, 20)).is_some());
    // partial overlap on either edge.
    assert!(r(10, 20).intersect(r(15, 25)).is_some());
    assert!(r(10, 20).intersect(r(5, 12)).is_some());
    // identical ranges.
    assert!(r(10, 20).intersect(r(10, 20)).is_some());
}

#[test]
fn adjacent_ranges_do_not_intersect() {
    assert!(r(10, 20).intersect(r(20, 30)).is_none());
    assert!(r(20, 30).intersect(r(10, 20)).is_none());
    assert!(r(1, 2).intersect(r(5, 9)).is_none());
}

#[test]
fn range_from_addresses_rounds_to_pages() {
    let vr = VirtPageNumRange::new_from_va(VirtAddr(0x10000), VirtAddr(0x10001));
    assert_eq!(vr.get_start().0, 0x10);
    assert_eq!(vr.get_end().0, 0x11);
    assert_eq!(VirtAddr(0x12345).floor().0, 0x12);
    assert_eq!(VirtAddr(0x12345).page_offset(), 0x345);
    assert_eq!(PhysAddr(0x80210123).floor().0, 0x80210);
    assert_eq!(PhysAddr(0x80210123).ceil().0, 0x80211);
}

#[test]
fn page_table_entry_round_trip() {
    let e = PageTableEntry::new(PhysPageNum(0x80212), 0xF);
    assert_eq!(e.ppn().0, 0x80212);
    assert_eq!(e.flags(), 0xF);
    assert!(e.is_valid());
    assert!(e.readable());
    assert!(e.writable());
    assert!(e.executable());
    let z = PageTableEntry::empty();
    assert!(!z.is_valid());
}

#[test]
fn push_area_rejects_exactly_the_overlaps() {
    let mut mem = PhysMemory::new(0x80210, 0x80400);
    let mut fa = StackFrameAllocator::new();
    fa.init(PhysPageNum(0x80210), PhysPageNum(0x80400));
    let mut ms = MemorySet::new(&mut mem, &mut fa);
    let first = MemoryArea::new(r(0x100, 0x104), Mapping::new_framed(), 22);
    assert!(ms.push_area(&mut mem, &mut fa, first, false, None).is_ok());
    // overlapping on the left edge, the right edge, inside, and exactly.
    for (s, e) in [(0x0FE, 0x101), (0x103, 0x110), (0x101, 0x102), (0x100, 0x104)] {
        let a = MemoryArea::new(r(s, e), Mapping::new_framed(), 22);
        assert!(ms.push_area(&mut mem, &mut fa, a, false, None).is_err());
    }
    // adjacent on both sides is accepted.
    let left = MemoryArea::new(r(0x0FE, 0x100), Mapping::new_framed(), 22);
    assert!(ms.push_area(&mut mem, &mut fa, left, false, None).is_ok());
    let right = MemoryArea::new(r(0x104, 0x106), Mapping::new_framed(), 22);
    assert!(ms.push_area(&mut mem, &mut fa, right, false, None).is_ok());
}

#[test]
fn translate_round_trip_matches_construction_and_drop() {
    let mut mem = PhysMemory::new(0x80210, 0x80400);
    let mut fa = StackFrameAllocator::new();
    fa.init(PhysPageNum(0x80210), PhysPageNum(0x80400));
    let mut ms = MemorySet::new(&mut mem, &mut fa);
    // identical-mapped pages translate to themselves.
    let ident = MemoryArea::new(r(0x80220, 0x80224), Mapping::Identical, 6);
    assert!(ms.push_area(&mut mem, &mut fa, ident, false, None).is_ok());
    for vpn in 0x80220..0x80224u64 {
        let ppn = ms.translate(&mem, VirtPageNum(vpn)).unwrap();
        assert_eq!(ppn.0, vpn);
    }
    // frame-backed pages translate to pool frames.
    let framed = MemoryArea::new(r(0x100, 0x102), Mapping::new_framed(), 22);
    assert!(ms.push_area(&mut mem, &mut fa, framed, true, None).is_ok());
    let p0 = ms.translate(&mem, VirtPageNum(0x100)).unwrap();
    let p1 = ms.translate(&mem, VirtPageNum(0x101)).unwrap();
    assert!(p0.0 >= 0x80210 && p0.0 < 0x80400);
    assert_ne!(p0.0, p1.0);
    // a page outside every area translates to nothing.
    assert!(ms.translate(&mem, VirtPageNum(0x300)).is_none());
    // dropping the exact range makes translation return nothing.
    assert!(ms.drop_area(&mut mem, &mut fa, r(0x100, 0x102)).is_ok());
    assert!(ms.translate(&mem, VirtPageNum(0x100)).is_none());
    assert!(ms.translate(&mem, VirtPageNum(0x101)).is_none());
    // a non-droppable range is rejected.
    assert!(ms.drop_area(&mut mem, &mut fa, r(0x80220, 0x80224)).is_err());
}
