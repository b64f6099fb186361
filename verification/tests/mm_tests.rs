use openion::mm::addr::{PhysAddr, VirtAddr, PAGE_SIZE};
use openion::mm::frame::FrameAllocator;
use openion::mm::slab::Slab;
use openion::mm::{align_up, alloc_frame, free_frame, init, stats, HeapStats, MemPerms, MemoryState};
use openion::platform::PlatformConfig;

#[test]
fn addresses() {
    let a = PhysAddr::new(0x1234);
    assert_eq!(a.raw(), 0x1234);
    assert_eq!(a.page_align().raw(), 0x1000);
    assert_eq!(a.page_offset(), 0x234);
    assert_eq!(a.page_number(), 1);
    assert!(!a.is_aligned(PAGE_SIZE));
    assert!(a.page_align().is_aligned(PAGE_SIZE));
    assert!(PhysAddr::zero().is_null());
    assert_eq!(a.add(0x10).raw(), 0x1244);
    assert_eq!(a.offset_from(PhysAddr::new(0x1000)), 0x234);
    let v = VirtAddr::new(0x2fff);
    assert_eq!(v.page_align().raw(), 0x2000);
    assert_eq!(v.page_offset(), 0xfff);
    assert_eq!(v.add(1).raw(), 0x3000);
    assert!(VirtAddr::zero().is_null());
}

#[test]
fn align_up_rounds_to_pages() {
    assert_eq!(align_up(0), 0);
    assert_eq!(align_up(1), 4096);
    assert_eq!(align_up(4096), 4096);
    assert_eq!(align_up(4097), 8192);
}

#[test]
fn frames_come_lowest_first_and_return() {
    let mut f = FrameAllocator::new();
    // the frames start at the first page boundary at or above the base
    f.init(PhysAddr::new(0x8000_0123), 3 * PAGE_SIZE + 100);
    assert_eq!(f.total_pages(), 2);
    assert_eq!(f.free_pages(), 2);
    let a = f.allocate().unwrap();
    let b = f.allocate().unwrap();
    assert_eq!(a.raw(), 0x8000_1000);
    assert_eq!(b.raw(), 0x8000_2000);
    assert!(f.allocate().is_none());
    assert_eq!(f.free_pages(), 0);
    f.free(PhysAddr::new(0x8000_2abc));
    assert_eq!(f.free_pages(), 1);
    assert_eq!(f.allocate().unwrap().raw(), 0x8000_2000);
    // an address past the managed pages is ignored
    f.free(PhysAddr::new(0x8000_9000));
    assert_eq!(f.free_pages(), 0);
    let st = f.stats();
    assert!(st.initialized);
    assert_eq!(st.total_pages, 2);
    // an aligned base keeps every whole page
    let mut g = FrameAllocator::new();
    g.init(PhysAddr::new(0x8000_0000), 2 * PAGE_SIZE);
    assert_eq!(g.total_pages(), 2);
    assert_eq!(g.allocate().unwrap().raw(), 0x8000_0000);
    // an unaligned base gives up the part of a page below the boundary
    let mut h = FrameAllocator::new();
    h.init(PhysAddr::new(0x8000_0001), 8192);
    assert_eq!(h.total_pages(), 1);
    assert_eq!(h.allocate().unwrap().raw(), 0x8000_1000);
}

#[test]
fn empty_allocator_has_nothing() {
    let mut f = FrameAllocator::new();
    assert!(f.allocate().is_none());
    assert!(!f.stats().initialized);
}

#[test]
fn slab_reuses_the_last_freed_slot() {
    let mut s: Slab<u32, 3> = Slab::new();
    assert_eq!(s.free_count(), 3);
    assert_eq!(s.allocate(10), Some(0));
    assert_eq!(s.allocate(11), Some(1));
    assert_eq!(s.allocate(12), Some(2));
    assert_eq!(s.allocate(13), None);
    assert_eq!(s.get(1), Some(11));
    s.set(1, 21);
    assert_eq!(s.get(1), Some(21));
    s.free(1);
    assert_eq!(s.get(1), None);
    assert_eq!(s.free_count(), 1);
    assert_eq!(s.allocate(14), Some(1));
    s.free(7);
    assert_eq!(s.free_count(), 0);
    assert_eq!(s.get(9), None);
}

#[test]
fn heap_counters() {
    let mut h = HeapStats::new();
    h.on_init(0x1000, 0x4000);
    h.on_alloc(64, true);
    h.on_alloc(32, true);
    h.on_alloc(1 << 20, false);
    assert_eq!(h.used, 96);
    assert_eq!(h.allocations, 2);
    assert_eq!(h.failed_allocations, 1);
    h.on_dealloc(64);
    assert_eq!(h.used, 32);
    assert_eq!(h.allocations, 1);
}

#[test]
fn permissions() {
    let rw = MemPerms(1).union(MemPerms(2));
    assert_eq!(rw.0, 3);
    assert!(rw.contains(MemPerms(1)));
    assert!(!rw.contains(MemPerms(4)));
}

#[test]
fn memory_init_once() {
    let cfg = PlatformConfig {
        cpu_freq_hz: 10_000_000,
        systick_hz: 1000,
        external_irq_count: 32,
        memory_base: 0x8000_0000,
        memory_size: 0x10_0000,
        kernel_end: 0x8002_0010,
    };
    let mut mm = MemoryState::new();
    init(&mut mm, &cfg, 0x9000_0000, 0x1000);
    let st = stats(&mm);
    assert!(st.initialized);
    assert!(st.heap.initialized);
    assert_eq!(st.heap.size, 0x1000);
    assert_eq!(st.heap_algorithm, "TLSF");
    assert_eq!(st.frame_algorithm, "Bitmap");
    assert_eq!(st.object_pool_algorithm, "Slab");
    assert_eq!(st.frames.base.raw(), 0x8002_1000);
    let pages = (0x8010_0000 - 0x8002_1000) / PAGE_SIZE;
    assert_eq!(st.frames.total_pages, pages);
    let a = alloc_frame(&mut mm).unwrap();
    assert_eq!(a.raw(), 0x8002_1000);
    free_frame(&mut mm, a);
    assert_eq!(stats(&mm).frames.free_pages, pages);
    // a second init changes nothing
    init(&mut mm, &cfg, 0, 0);
    assert_eq!(stats(&mm).heap.size, 0x1000);
}
