//! Address newtypes for physical and virtual memory.

use vstd::prelude::*;

verus! {

/// Size of a page in bytes.
pub const PAGE_SIZE: usize = 4096;

/// log2 of [`PAGE_SIZE`].
pub const PAGE_SHIFT: usize = 12;

/// The part of an address below its page boundary.
pub open spec fn spec_page_offset(a: usize) -> usize {
    (a % (PAGE_SIZE as usize)) as usize
}

/// An address rounded down to its page boundary.
pub open spec fn spec_page_align(a: usize) -> usize {
    (a - a % (PAGE_SIZE as usize)) as usize
}

proof fn lemma_page_bits(a: usize)
    ensures
        a & !4095usize == a - a % 4096,
        a & 4095usize == a % 4096,
        a >> 12usize == a / 4096,
{
    assert(a & !4095usize == a - a % 4096) by (bit_vector);
    assert(a & 4095usize == a % 4096) by (bit_vector);
    assert(a >> 12usize == a / 4096) by (bit_vector);
}

/// Physical address: always valid, no virtual translation.
#[derive(Clone, Copy, PartialEq, Eq, Structural, PartialOrd, Ord, Hash, Default, Debug)]
pub struct PhysAddr(usize);

/// Virtual address: may need page-table translation to become physical.
#[derive(Clone, Copy, PartialEq, Eq, Structural, PartialOrd, Ord, Hash, Default, Debug)]
pub struct VirtAddr(usize);

impl View for PhysAddr {
    type V = usize;

    closed spec fn view(&self) -> usize {
        self.0
    }
}

impl View for VirtAddr {
    type V = usize;

    closed spec fn view(&self) -> usize {
        self.0
    }
}

impl PhysAddr {
    /// The null physical address.
    pub fn zero() -> (r: Self)
        ensures
            r@ == 0,
    {
        PhysAddr(0)
    }

    pub fn new(addr: usize) -> (r: Self)
        ensures
            r@ == addr,
    {
        PhysAddr(addr)
    }

    pub fn raw(self) -> (r: usize)
        ensures
            r == self@,
    {
        self.0
    }

    pub fn is_aligned(self, align: usize) -> (r: bool)
        requires
            align > 0,
        ensures
            r == (self@ % align == 0),
    {
        self.0 % align == 0
    }

    pub fn page_align(self) -> (r: Self)
        ensures
            r@ == spec_page_align(self@),
            r@ % PAGE_SIZE == 0,
            r@ <= self@,
    {
        proof {
            lemma_page_bits(self.0);
        }
        PhysAddr(self.0 & !(PAGE_SIZE - 1))
    }

    pub fn page_offset(self) -> (r: usize)
        ensures
            r == spec_page_offset(self@),
            r < PAGE_SIZE,
    {
        proof {
            lemma_page_bits(self.0);
        }
        self.0 & (PAGE_SIZE - 1)
    }

    pub fn page_number(self) -> (r: usize)
        ensures
            r == self@ / PAGE_SIZE,
    {
        proof {
            lemma_page_bits(self.0);
        }
        self.0 >> PAGE_SHIFT
    }

    pub fn is_null(self) -> (r: bool)
        ensures
            r == (self@ == 0),
    {
        self.0 == 0
    }

    /// The address as a plain integer, ready to be turned into a pointer by
    /// the caller.
    pub fn as_ptr(self) -> (r: usize)
        ensures
            r == self@,
    {
        self.0
    }

    /// The address as a plain integer, ready to be turned into a mutable
    /// pointer by the caller.
    pub fn as_mut_ptr(self) -> (r: usize)
        ensures
            r == self@,
    {
        self.0
    }

    /// The address `rhs` bytes above this one.
    pub fn add(self, rhs: usize) -> (r: Self)
        requires
            self@ + rhs <= usize::MAX,
        ensures
            r@ == self@ + rhs,
    {
        PhysAddr(self.0 + rhs)
    }

    /// The distance in bytes from `rhs` up to this address.
    pub fn offset_from(self, rhs: Self) -> (r: usize)
        requires
            rhs@ <= self@,
        ensures
            r == self@ - rhs@,
    {
        self.0 - rhs.0
    }
}

impl VirtAddr {
    /// The null virtual address.
    pub fn zero() -> (r: Self)
        ensures
            r@ == 0,
    {
        VirtAddr(0)
    }

    pub fn new(addr: usize) -> (r: Self)
        ensures
            r@ == addr,
    {
        VirtAddr(addr)
    }

    pub fn raw(self) -> (r: usize)
        ensures
            r == self@,
    {
        self.0
    }

    pub fn is_aligned(self, align: usize) -> (r: bool)
        requires
            align > 0,
        ensures
            r == (self@ % align == 0),
    {
        self.0 % align == 0
    }

    pub fn page_align(self) -> (r: Self)
        ensures
            r@ == spec_page_align(self@),
            r@ % PAGE_SIZE == 0,
            r@ <= self@,
    {
        proof {
            lemma_page_bits(self.0);
        }
        VirtAddr(self.0 & !(PAGE_SIZE - 1))
    }

    pub fn page_offset(self) -> (r: usize)
        ensures
            r == spec_page_offset(self@),
            r < PAGE_SIZE,
    {
        proof {
            lemma_page_bits(self.0);
        }
        self.0 & (PAGE_SIZE - 1)
    }

    pub fn is_null(self) -> (r: bool)
        ensures
            r == (self@ == 0),
    {
        self.0 == 0
    }

    /// The address `rhs` bytes above this one.
    pub fn add(self, rhs: usize) -> (r: Self)
        requires
            self@ + rhs <= usize::MAX,
        ensures
            r@ == self@ + rhs,
    {
        VirtAddr(self.0 + rhs)
    }
}

} // verus!
