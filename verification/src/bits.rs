//! Bit-level facts shared by the bitmaps of the kernel.

use vstd::prelude::*;

verus! {

/// Bit `b` of the 32-bit word `w` is set.
pub open spec fn bit_of(w: u32, b: u32) -> bool {
    (w >> b) & 1u32 == 1u32
}

/// Bit `b` of the 8-bit word `w` is set.
pub open spec fn bit8_of(w: u8, b: u8) -> bool {
    (w >> b) & 1u8 == 1u8
}

pub proof fn lemma_bit_clear(w: u32, b: u32, c: u32)
    requires
        b < 32,
        c < 32,
    ensures
        bit_of(w & !(1u32 << b), c) == (c != b && bit_of(w, c)),
{
    assert(((w & !(1u32 << b)) >> c) & 1u32 == 1u32 <==> (c != b && (w >> c) & 1u32 == 1u32))
        by (bit_vector)
        requires
            b < 32,
            c < 32,
    ;
}

pub proof fn lemma_bit_set(w: u32, b: u32, c: u32)
    requires
        b < 32,
        c < 32,
    ensures
        bit_of(w | (1u32 << b), c) == (c == b || bit_of(w, c)),
{
    assert(((w | (1u32 << b)) >> c) & 1u32 == 1u32 <==> (c == b || (w >> c) & 1u32 == 1u32))
        by (bit_vector)
        requires
            b < 32,
            c < 32,
    ;
}

pub proof fn lemma_bit_zero(c: u32)
    requires
        c < 32,
    ensures
        !bit_of(0u32, c),
{
    assert((0u32 >> c) & 1u32 == 0u32) by (bit_vector);
}

pub proof fn lemma_bit8_clear(w: u8, b: u8, c: u8)
    requires
        b < 8,
        c < 8,
    ensures
        bit8_of(w & !(1u8 << b), c) == (c != b && bit8_of(w, c)),
{
    assert(((w & !(1u8 << b)) >> c) & 1u8 == 1u8 <==> (c != b && (w >> c) & 1u8 == 1u8))
        by (bit_vector)
        requires
            b < 8,
            c < 8,
    ;
}

pub proof fn lemma_bit8_set(w: u8, b: u8, c: u8)
    requires
        b < 8,
        c < 8,
    ensures
        bit8_of(w | (1u8 << b), c) == (c == b || bit8_of(w, c)),
{
    assert(((w | (1u8 << b)) >> c) & 1u8 == 1u8 <==> (c == b || (w >> c) & 1u8 == 1u8))
        by (bit_vector)
        requires
            b < 8,
            c < 8,
    ;
}

/// A byte is zero exactly when none of its eight bits is set.
pub proof fn lemma_bit8_zero_iff(w: u8)
    ensures
        (w == 0) == (forall|c: u8| c < 8 ==> !#[trigger] bit8_of(w, c)),
{
    if w != 0 {
        assert(w != 0 ==> (w >> 0u8) & 1u8 == 1u8 || (w >> 1u8) & 1u8 == 1u8 || (w >> 2u8) & 1u8
            == 1u8 || (w >> 3u8) & 1u8 == 1u8 || (w >> 4u8) & 1u8 == 1u8 || (w >> 5u8) & 1u8 == 1u8
            || (w >> 6u8) & 1u8 == 1u8 || (w >> 7u8) & 1u8 == 1u8) by (bit_vector);
        if bit8_of(w, 0) {
        } else if bit8_of(w, 1) {
        } else if bit8_of(w, 2) {
        } else if bit8_of(w, 3) {
        } else if bit8_of(w, 4) {
        } else if bit8_of(w, 5) {
        } else if bit8_of(w, 6) {
        } else {
            assert(bit8_of(w, 7));
        }
    } else {
        assert forall|c: u8| c < 8 implies !#[trigger] bit8_of(w, c) by {
            assert(c < 8 ==> (0u8 >> c) & 1u8 == 0u8) by (bit_vector);
        }
    }
}

} // verus!
