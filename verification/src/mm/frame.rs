//! Bitmap-based physical page frame allocator.
//!
//! Tracks up to 4096 pages (16 MiB with 4 KiB pages). Each bit stands for
//! one page: 1 = free, 0 = allocated.

use vstd::prelude::*;
use vstd::set_lib::*;
use vstd::std_specs::bits::{u32_trailing_zeros, axiom_u32_trailing_zeros};
use crate::bits::{bit_of, lemma_bit_clear, lemma_bit_set, lemma_bit_zero};
use super::addr::{PAGE_SIZE, PhysAddr, spec_page_align};

verus! {

pub const MAX_PAGES: usize = 4096;

pub const WORD_BITS: usize = 32;

pub const BITMAP_WORDS: usize = 128;

pub struct FrameAllocator {
    bitmap: Vec<u32>,
    base_addr: PhysAddr,
    total_pages: usize,
    free_pages: usize,
}

#[derive(Clone, Copy, Debug)]
pub struct FrameStats {
    pub initialized: bool,
    pub base: PhysAddr,
    pub total_pages: usize,
    pub free_pages: usize,
}

/// The page with index `i` is free in the bitmap `bm`.
pub open spec fn page_bit(bm: Seq<u32>, i: int) -> bool {
    bit_of(bm[i / 32], (i % 32) as u32)
}

/// The first page boundary at or above `a`.
pub open spec fn page_align_up(a: usize) -> int {
    if a % 4096 == 0 { a as int } else { a - a % 4096 + 4096 }
}

/// How many whole pages fit in `[base, base + size)` from the first page
/// boundary at or above `base` on.
pub open spec fn init_pages(base: usize, size: usize) -> int {
    let up = page_align_up(base);
    if up <= base + size { (base + size - up) / 4096 } else { 0 }
}

impl FrameAllocator {
    /// Page index `i` is managed and currently free.
    pub closed spec fn is_free_page(self, i: int) -> bool {
        0 <= i < self.total_pages && page_bit(self.bitmap@, i)
    }

    /// The indices of the free pages.
    pub closed spec fn free_set(self) -> Set<int> {
        Set::new(|i: int| self.is_free_page(i))
    }

    /// Address of the first managed page.
    pub closed spec fn base(self) -> usize {
        self.base_addr@
    }

    /// Number of managed pages.
    pub closed spec fn total(self) -> usize {
        self.total_pages
    }

    /// The free-page counter kept beside the bitmap.
    pub closed spec fn free_counter(self) -> usize {
        self.free_pages
    }

    /// The counter equals the number of free pages, as it does from
    /// `init` on while no page is freed twice.
    pub open spec fn counter_exact(self) -> bool {
        self.free_set().len() == self.free_counter()
    }

    /// With an exact counter, the allocator is out of pages exactly when
    /// the counter is 0.
    pub proof fn lemma_counter_exact(self)
        requires
            self.wf(),
            self.counter_exact(),
        ensures
            (self.free_counter() == 0) == (self.free_set() =~= Set::<int>::empty()),
    {
        self.lemma_free_set_finite();
        if self.free_counter() == 0 {
            assert(self.free_set() =~= Set::<int>::empty());
        }
    }

    pub closed spec fn wf(self) -> bool {
        &&& self.bitmap.len() == BITMAP_WORDS
        &&& self.total_pages <= MAX_PAGES
        &&& self.base_addr@ % PAGE_SIZE == 0
        &&& self.base_addr@ + self.total_pages * PAGE_SIZE <= usize::MAX
        &&& forall|i: int|
            #![trigger page_bit(self.bitmap@, i)]
            self.total_pages <= i < MAX_PAGES ==> !page_bit(self.bitmap@, i)
        &&& self.free_set().len() <= self.free_pages
    }

    proof fn lemma_free_set_finite(self)
        ensures
            self.free_set().finite(),
            self.free_set().len() <= self.total_pages,
    {
        lemma_int_range(0, self.total_pages as int);
        lemma_len_subset(self.free_set(), set_int_range(0, self.total_pages as int));
    }

    /// An allocator that manages no memory yet.
    pub fn new() -> (r: Self)
        ensures
            r.wf(),
            r.total() == 0,
            r.free_counter() == 0,
            r.free_set() =~= Set::empty(),
            r.base() == 0,
    {
        let mut bitmap: Vec<u32> = Vec::new();
        let mut i: usize = 0;
        while i < BITMAP_WORDS
            invariant
                i <= BITMAP_WORDS,
                bitmap.len() == i,
                forall|j: int| 0 <= j < i ==> bitmap@[j] == 0u32,
            decreases BITMAP_WORDS - i,
        {
            bitmap.push(0u32);
            i += 1;
        }
        let r = FrameAllocator { bitmap, base_addr: PhysAddr::zero(), total_pages: 0, free_pages: 0 };
        proof {
            r.lemma_free_set_finite();
            assert(r.free_set() =~= Set::empty());
            assert forall|i: int| 0 <= i < MAX_PAGES implies !page_bit(r.bitmap@, i) by {
                lemma_bit_zero((i % 32) as u32);
            }
        }
        r
    }

    /// Take over the physical memory region `[base, base + size)`: the
    /// managed pages start at the first page boundary at or above `base`,
    /// and the whole pages that fit in the region from there on (at most
    /// [`MAX_PAGES`]) become free.
    pub fn init(&mut self, base: PhysAddr, size: usize)
        requires
            old(self).wf(),
            base@ + size <= usize::MAX,
        ensures
            final(self).wf(),
            final(self).total() == (if init_pages(base@, size) < MAX_PAGES { init_pages(base@, size) } else { MAX_PAGES as int }),
            final(self).total() > 0 ==> final(self).base() == page_align_up(base@),
            base@ <= final(self).base() || final(self).total() == 0,
            final(self).total() > 0 ==> final(self).base() + final(self).total() * PAGE_SIZE <= base@ + size,
            final(self).free_counter() == final(self).total(),
            final(self).free_set() =~= set_int_range(0, final(self).total() as int),
            final(self).counter_exact(),
    {
        let b = base.raw();
        let down = base.page_align().raw();
        let mut start: usize = down;
        let mut pages: usize = 0;
        if down == b {
            start = b;
            pages = size / PAGE_SIZE;
        } else if down <= usize::MAX - PAGE_SIZE {
            start = down + PAGE_SIZE;
            let adjust = start - b;
            pages = if size >= adjust { (size - adjust) / PAGE_SIZE } else { 0 };
        }
        proof {
            assert(b % 4096 != 0 ==> down + 4096 > b);
            assert(pages == init_pages(b, size));
            assert(pages * 4096 <= b + size - start || pages == 0) by (nonlinear_arith)
                requires
                    pages == init_pages(b, size),
                    pages > 0 ==> start == page_align_up(b) && page_align_up(b) <= b + size,
                    init_pages(b, size) == (if page_align_up(b) <= b + size { (b + size - page_align_up(b)) / 4096 } else { 0 }),
            ;
        }
        self.base_addr = PhysAddr::new(start);
        self.total_pages = if pages < MAX_PAGES { pages } else { MAX_PAGES };
        self.free_pages = self.total_pages;
        proof {
            assert(self.total_pages * 4096 <= pages * 4096) by (nonlinear_arith)
                requires
                    self.total_pages <= pages;
        }

        let mut w: usize = 0;
        while w < BITMAP_WORDS
            invariant
                w <= BITMAP_WORDS,
                self.bitmap.len() == BITMAP_WORDS,
                self.total_pages <= MAX_PAGES,
                self.free_pages == self.total_pages,
                self.base_addr@ == start,
                self.base_addr@ % 4096 == 0,
                self.base_addr@ + self.total_pages * PAGE_SIZE <= usize::MAX,
                self.total_pages == (if pages < MAX_PAGES { pages } else { MAX_PAGES }),
                pages == init_pages(base@, size),
                self.total_pages > 0 ==> start == page_align_up(base@),
                base@ <= start || self.total_pages == 0,
                self.total_pages > 0 ==> start + self.total_pages * PAGE_SIZE <= base@ + size,
                forall|j: int| 0 <= j < w ==> self.bitmap@[j] == 0u32,
            decreases BITMAP_WORDS - w,
        {
            self.bitmap.set(w, 0u32);
            w += 1;
        }

        let total = self.total_pages;
        proof {
            assert forall|j: int| 0 <= j < MAX_PAGES implies #[trigger] page_bit(self.bitmap@, j) == (j < 0) by {
                lemma_bit_zero((j % 32) as u32);
            }
        }
        let mut i: usize = 0;
        while i < total
            invariant
                i <= total,
                total == self.total_pages,
                total <= MAX_PAGES,
                self.bitmap.len() == BITMAP_WORDS,
                self.free_pages == self.total_pages,
                self.base_addr@ == start,
                self.base_addr@ % 4096 == 0,
                self.base_addr@ + self.total_pages * PAGE_SIZE <= usize::MAX,
                self.total_pages == (if pages < MAX_PAGES { pages } else { MAX_PAGES }),
                pages == init_pages(base@, size),
                self.total_pages > 0 ==> start == page_align_up(base@),
                base@ <= start || self.total_pages == 0,
                self.total_pages > 0 ==> start + self.total_pages * PAGE_SIZE <= base@ + size,
                forall|j: int| 0 <= j < MAX_PAGES ==> #[trigger] page_bit(self.bitmap@, j) == (j < i),
            decreases total - i,
        {
            let word = i / WORD_BITS;
            let bit = i % WORD_BITS;
            let ghost old_bm = self.bitmap@;
            let v = self.bitmap[word] | (1u32 << (bit as u32));
            self.bitmap.set(word, v);
            proof {
                assert forall|j: int| 0 <= j < MAX_PAGES implies #[trigger] page_bit(self.bitmap@, j) == (j < i + 1) by {
                    if j / 32 == word as int {
                        lemma_bit_set(old_bm[word as int], bit as u32, (j % 32) as u32);
                        assert(page_bit(old_bm, j) == (j < i));
                    } else {
                        assert(self.bitmap@[j / 32] == old_bm[j / 32]);
                        assert(page_bit(old_bm, j) == (j < i));
                    }
                }
            }
            i += 1;
        }
        proof {
            assert(self.free_set() =~= set_int_range(0, self.total_pages as int));
            lemma_int_range(0, self.total_pages as int);
        }
    }

    /// Allocate one page frame: the free page with the lowest index.
    pub fn allocate(&mut self) -> (r: Option<PhysAddr>)
        requires
            old(self).wf(),
        ensures
            final(self).wf(),
            final(self).base() == old(self).base(),
            final(self).total() == old(self).total(),
            match r {
                None => old(self).free_set() =~= Set::empty() && *final(self) == *old(self),
                Some(a) => exists|idx: int| {
                    &&& #[trigger] old(self).free_set().contains(idx)
                    &&& (forall|j: int| old(self).free_set().contains(j) ==> idx <= j)
                    &&& a@ == old(self).base() + idx * PAGE_SIZE
                    &&& final(self).free_set() =~= old(self).free_set().remove(idx)
                    &&& final(self).free_counter() == old(self).free_counter() - 1
                },
            },
            old(self).counter_exact() ==> final(self).counter_exact() && (r is None <==> old(self).free_counter() == 0),
    {
        proof {
            self.lemma_free_set_finite();
            if self.counter_exact() {
                self.lemma_counter_exact();
            }
        }
        let mut word_idx: usize = 0;
        while word_idx < BITMAP_WORDS
            invariant
                word_idx <= BITMAP_WORDS,
                self.wf(),
                *self == *old(self),
                forall|i: int| 0 <= i < word_idx * 32 ==> !#[trigger] self.is_free_page(i),
            decreases BITMAP_WORDS - word_idx,
        {
            let word = self.bitmap[word_idx];
            if word == 0 {
                proof {
                    assert forall|i: int| 0 <= i < (word_idx + 1) * 32 implies !#[trigger] self.is_free_page(i) by {
                        if i >= word_idx * 32 {
                            assert(i / 32 == word_idx);
                            lemma_bit_zero((i % 32) as u32);
                        }
                    }
                }
                word_idx += 1;
                continue;
            }
            proof {
                axiom_u32_trailing_zeros(word);
            }
            let bit = word.trailing_zeros() as usize;
            let page_idx = word_idx * WORD_BITS + bit;
            proof {
                assert(page_idx / 32 == word_idx && page_idx % 32 == bit);
                assert(page_bit(self.bitmap@, page_idx as int));
            }
            if page_idx >= self.total_pages {
                return None;
            }
            let ghost old_self = *self;
            let v = word & !(1u32 << (bit as u32));
            self.bitmap.set(word_idx, v);
            proof {
                assert(old_self.free_set().contains(page_idx as int));
                assert forall|j: int| old_self.free_set().contains(j) implies page_idx <= j by {
                    if j < page_idx {
                        if j >= word_idx * 32 {
                            assert(j / 32 == word_idx);
                            assert((j % 32) < bit);
                            assert(((j % 32) as u32) < u32_trailing_zeros(word));
                        }
                    }
                }
                assert forall|j: int| 0 <= j < MAX_PAGES implies #[trigger] page_bit(self.bitmap@, j)
                    == (j != page_idx && page_bit(old_self.bitmap@, j)) by {
                    if j / 32 == word_idx as int {
                        lemma_bit_clear(word, bit as u32, (j % 32) as u32);
                    } else {
                        assert(self.bitmap@[j / 32] == old_self.bitmap@[j / 32]);
                    }
                }
                assert(self.free_set() =~= old_self.free_set().remove(page_idx as int));
                old_self.lemma_free_set_finite();
                assert(old_self.free_set().remove(page_idx as int).len() == old_self.free_set().len() - 1);
            }
            self.free_pages = self.free_pages - 1;
            proof {
                assert(self.free_set() =~= old_self.free_set().remove(page_idx as int));
                self.lemma_free_set_finite();
            }
            return Some(self.base_addr.add(page_idx * PAGE_SIZE));
        }
        proof {
            assert(self.free_set() =~= Set::empty());
        }
        None
    }

    /// Give the page that holds `addr` back. Addresses outside the managed
    /// pages are ignored.
    pub fn free(&mut self, addr: PhysAddr)
        requires
            old(self).wf(),
            spec_page_align(addr@) >= old(self).base(),
            old(self).free_counter() < usize::MAX,
        ensures
            final(self).wf(),
            final(self).base() == old(self).base(),
            final(self).total() == old(self).total(),
            ({
                let idx = (spec_page_align(addr@) - old(self).base()) / PAGE_SIZE as int;
                if idx < old(self).total() {
                    &&& final(self).free_set() =~= old(self).free_set().insert(idx)
                    &&& final(self).free_counter() == old(self).free_counter() + 1
                } else {
                    *final(self) == *old(self)
                }
            }),
            ({
                let idx = (spec_page_align(addr@) - old(self).base()) / PAGE_SIZE as int;
                old(self).counter_exact() && !old(self).free_set().contains(idx) ==> final(self).counter_exact()
            }),
    {
        proof {
            self.lemma_free_set_finite();
        }
        let page_idx = (addr.page_align().raw() - self.base_addr.raw()) / PAGE_SIZE;
        if page_idx >= self.total_pages {
            return;
        }
        let ghost old_self = *self;
        let word = page_idx / WORD_BITS;
        let bit = page_idx % WORD_BITS;
        let v = self.bitmap[word] | (1u32 << (bit as u32));
        self.bitmap.set(word, v);
        proof {
            old_self.lemma_free_set_finite();
            assert forall|j: int| 0 <= j < MAX_PAGES implies #[trigger] page_bit(self.bitmap@, j)
                == (j == page_idx || page_bit(old_self.bitmap@, j)) by {
                if j / 32 == word as int {
                    lemma_bit_set(old_self.bitmap@[word as int], bit as u32, (j % 32) as u32);
                } else {
                    assert(self.bitmap@[j / 32] == old_self.bitmap@[j / 32]);
                }
            }
            assert(self.free_set() =~= old_self.free_set().insert(page_idx as int));
            assert(old_self.free_set().insert(page_idx as int).len() <= old_self.free_set().len() + 1);
        }
        self.free_pages = self.free_pages + 1;
        proof {
            assert(self.free_set() =~= old_self.free_set().insert(page_idx as int));
            self.lemma_free_set_finite();
        }
    }

    pub fn total_pages(&self) -> (r: usize)
        ensures
            r == self.total(),
    {
        self.total_pages
    }

    pub fn free_pages(&self) -> (r: usize)
        ensures
            r == self.free_counter(),
    {
        self.free_pages
    }

    pub fn stats(&self) -> (r: FrameStats)
        ensures
            r.initialized == (self.total() != 0),
            r.base@ == self.base(),
            r.total_pages == self.total(),
            r.free_pages == self.free_counter(),
    {
        FrameStats {
            initialized: self.total_pages != 0,
            base: self.base_addr,
            total_pages: self.total_pages,
            free_pages: self.free_pages,
        }
    }
}

/// Freeing the frame that was just allocated gives back the free pages
/// that there were before: the address handed out for page `idx` leads
/// the release back to page `idx`.
pub proof fn lemma_allocate_then_free(a: FrameAllocator, idx: int)
    requires
        a.wf(),
        a.free_set().contains(idx),
    ensures
        ({
            let addr = a.base() + idx * PAGE_SIZE;
            let back = (spec_page_align(addr as usize) - a.base()) / PAGE_SIZE as int;
            &&& addr <= usize::MAX
            &&& spec_page_align(addr as usize) >= a.base()
            &&& back == idx
            &&& back < a.total()
            &&& a.free_set().remove(idx).insert(back) == a.free_set()
        }),
{
    let base = a.base() as int;
    let total = a.total() as int;
    assert(0 <= idx < total);
    assert(idx * PAGE_SIZE <= total * PAGE_SIZE) by (nonlinear_arith)
        requires
            0 <= idx < total,
    ;
    let addr = base + idx * PAGE_SIZE;
    assert(addr % (PAGE_SIZE as int) == 0) by (nonlinear_arith)
        requires
            base % 4096 == 0,
            addr == base + idx * 4096,
            idx >= 0,
            PAGE_SIZE == 4096,
    ;
    assert(spec_page_align(addr as usize) == addr);
    assert((addr - base) / (PAGE_SIZE as int) == idx) by (nonlinear_arith)
        requires
            addr - base == idx * 4096,
            PAGE_SIZE == 4096,
    ;
    assert(a.free_set().remove(idx).insert(idx) =~= a.free_set());
}

} // verus!
