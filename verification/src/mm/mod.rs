//! Memory management: physical/virtual addresses, page frames, object
//! pools, and the kernel's memory state (heap counters and the frame
//! allocator).

pub mod addr;
pub mod frame;
pub mod slab;

pub use addr::{PAGE_SHIFT, PAGE_SIZE, PhysAddr, VirtAddr};
pub use frame::{FrameAllocator, FrameStats};

use vstd::prelude::*;
use crate::platform::PlatformConfig;
use addr::spec_page_align;

verus! {

/// The counters of the kernel heap.
#[derive(Debug, Clone, Copy, PartialEq, Eq, Structural)]
pub struct HeapStats {
    pub initialized: bool,
    pub start: usize,
    pub size: usize,
    pub used: usize,
    pub allocations: usize,
    pub failed_allocations: usize,
}

impl HeapStats {
    pub fn new() -> (r: Self)
        ensures
            r == (HeapStats { initialized: false, start: 0, size: 0, used: 0, allocations: 0, failed_allocations: 0 }),
    {
        HeapStats { initialized: false, start: 0, size: 0, used: 0, allocations: 0, failed_allocations: 0 }
    }

    /// The heap now spans `size` bytes from `start`; the counters restart.
    pub fn on_init(&mut self, start: usize, size: usize)
        ensures
            *final(self) == (HeapStats { initialized: true, start, size, used: 0, allocations: 0, failed_allocations: 0 }),
    {
        *self = HeapStats { initialized: true, start, size, used: 0, allocations: 0, failed_allocations: 0 };
    }

    /// Count an allocation of `size` bytes that succeeded or failed
    /// (counters wrap like the atomics they stand for).
    pub fn on_alloc(&mut self, size: usize, ok: bool)
        ensures
            ok ==> *final(self) == (HeapStats {
                used: old(self).used.wrapping_add(size),
                allocations: old(self).allocations.wrapping_add(1),
                ..*old(self)
            }),
            !ok ==> *final(self) == (HeapStats { failed_allocations: old(self).failed_allocations.wrapping_add(1), ..*old(self) }),
    {
        if ok {
            self.used = self.used.wrapping_add(size);
            self.allocations = self.allocations.wrapping_add(1);
        } else {
            self.failed_allocations = self.failed_allocations.wrapping_add(1);
        }
    }

    /// Count the release of `size` bytes.
    pub fn on_dealloc(&mut self, size: usize)
        ensures
            *final(self) == (HeapStats {
                used: old(self).used.wrapping_sub(size),
                allocations: old(self).allocations.wrapping_sub(1),
                ..*old(self)
            }),
    {
        self.used = self.used.wrapping_sub(size);
        self.allocations = self.allocations.wrapping_sub(1);
    }
}

/// Memory access permissions, one bit each.
#[derive(Debug, Clone, Copy, PartialEq, Eq, Structural)]
pub struct MemPerms(pub u32);

pub const PERM_READ: u32 = 1;
pub const PERM_WRITE: u32 = 2;
pub const PERM_EXECUTE: u32 = 4;

impl MemPerms {
    pub fn contains(&self, other: MemPerms) -> (r: bool)
        ensures
            r == (self.0 & other.0 == other.0),
    {
        self.0 & other.0 == other.0
    }

    pub fn union(self, other: MemPerms) -> (r: MemPerms)
        ensures
            r.0 == self.0 | other.0,
    {
        MemPerms(self.0 | other.0)
    }
}

/// A contiguous region of physical memory.
#[derive(Debug, Clone, Copy)]
pub struct MemRegion {
    pub base: PhysAddr,
    pub size: usize,
}

#[derive(Debug, Clone, Copy, PartialEq, Eq, Structural)]
pub enum MmError {
    OutOfMemory,
    AlreadyMapped,
    NotMapped,
    InvalidAlignment,
    InvalidRegion,
}

/// A memory protection mechanism (page tables, PMP or MPU).
pub trait MemoryManager {
    /// Map the page at `phys` with `perms`.
    fn map(&mut self, phys: PhysAddr, perms: MemPerms) -> Result<(), MmError>;

    /// Unmap the page at `phys`.
    fn unmap(&mut self, phys: PhysAddr) -> Result<(), MmError>;

    /// The physical address behind `vaddr`, on systems that translate.
    fn translate(&self, vaddr: VirtAddr) -> Option<PhysAddr>;

    /// Make this the CPU's active translation or protection.
    fn activate(&self);
}

#[derive(Debug, Clone, Copy)]
pub struct MmStats {
    pub initialized: bool,
    pub heap: HeapStats,
    pub frames: FrameStats,
    pub heap_algorithm: &'static str,
    pub object_pool_algorithm: &'static str,
    pub frame_algorithm: &'static str,
}

/// `value` rounded up to a multiple of the power of two `align`.
pub open spec fn align_up_spec(value: int, align: int) -> int {
    ((value + align - 1) / align) * align
}

/// `value` rounded up to a multiple of [`PAGE_SIZE`].
pub fn align_up(value: usize) -> (r: usize)
    requires
        value + PAGE_SIZE - 1 <= usize::MAX,
    ensures
        r == align_up_spec(value as int, PAGE_SIZE as int),
        r >= value,
        r % PAGE_SIZE == 0,
{
    let v = value + (PAGE_SIZE - 1);
    (v / PAGE_SIZE) * PAGE_SIZE
}

/// The kernel's memory state: initialised or not, the heap counters and
/// the frame allocator.
pub struct MemoryState {
    pub initialized: bool,
    pub heap: HeapStats,
    pub frames: FrameAllocator,
}

impl MemoryState {
    pub fn new() -> (r: Self)
        ensures
            !r.initialized,
            r.frames.wf(),
    {
        MemoryState { initialized: false, heap: HeapStats::new(), frames: FrameAllocator::new() }
    }
}

/// Set up memory once: the heap of `heap_size` bytes at `heap_start`, and
/// page frames from the first page boundary after the kernel image to the
/// end of memory (none when that range is empty).
pub fn init(mm: &mut MemoryState, config: &PlatformConfig, heap_start: usize, heap_size: usize)
    requires
        old(mm).frames.wf(),
        config.kernel_end + PAGE_SIZE - 1 <= usize::MAX,
    ensures
        final(mm).frames.wf(),
        final(mm).initialized,
        old(mm).initialized ==> *final(mm) == *old(mm),
        !old(mm).initialized ==> final(mm).heap == (HeapStats {
            initialized: true,
            start: heap_start,
            size: heap_size,
            used: 0,
            allocations: 0,
            failed_allocations: 0,
        }),
{
    if mm.initialized {
        return;
    }
    mm.initialized = true;
    mm.heap.on_init(heap_start, heap_size);
    let frame_start = align_up(config.kernel_end);
    let mem_end = config.memory_base.saturating_add(config.memory_size);
    if frame_start < mem_end {
        mm.frames.init(PhysAddr::new(frame_start), mem_end - frame_start);
    }
}

/// The memory counters and the names of the allocators.
pub fn stats(mm: &MemoryState) -> (r: MmStats)
    ensures
        r.initialized == mm.initialized,
        r.heap == mm.heap,
        r.heap_algorithm@ == "TLSF"@,
        r.object_pool_algorithm@ == "Slab"@,
        r.frame_algorithm@ == "Bitmap"@,
{
    MmStats {
        initialized: mm.initialized,
        heap: mm.heap,
        frames: mm.frames.stats(),
        heap_algorithm: "TLSF",
        object_pool_algorithm: "Slab",
        frame_algorithm: "Bitmap",
    }
}

/// A free page frame (the lowest), if any.
pub fn alloc_frame(mm: &mut MemoryState) -> (r: Option<PhysAddr>)
    requires
        old(mm).frames.wf(),
    ensures
        final(mm).frames.wf(),
        final(mm).initialized == old(mm).initialized,
        r is None ==> final(mm).frames.free_set() =~= Set::empty(),
{
    mm.frames.allocate()
}

/// Give the frame at `addr` back (an address below the frame area is
/// ignored).
pub fn free_frame(mm: &mut MemoryState, addr: PhysAddr)
    requires
        old(mm).frames.wf(),
    ensures
        final(mm).frames.wf(),
        final(mm).initialized == old(mm).initialized,
        final(mm).heap == old(mm).heap,
        final(mm).frames.base() == old(mm).frames.base(),
        final(mm).frames.total() == old(mm).frames.total(),
        ({
            let f = old(mm).frames;
            let idx = (spec_page_align(addr@) - f.base()) / PAGE_SIZE as int;
            if spec_page_align(addr@) >= f.base() && f.free_counter() < usize::MAX && idx < f.total() {
                &&& final(mm).frames.free_set() =~= f.free_set().insert(idx)
                &&& final(mm).frames.free_counter() == f.free_counter() + 1
            } else {
                final(mm).frames == f
            }
        }),
{
    let st = mm.frames.stats();
    if addr.page_align().raw() >= st.base.raw() && st.free_pages < usize::MAX {
        mm.frames.free(addr);
    }
}

} // verus!
