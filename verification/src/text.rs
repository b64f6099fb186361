//! Byte strings: the names, paths and device strings of the kernel are kept
//! as bytes and shown as UTF-8 text where they are valid UTF-8.

use vstd::prelude::*;
use vstd::utf8::valid_utf8;
use vstd::string::StringSliceAdditionalSpecFns;

verus! {

/// The text shown for the bytes `b`: the bytes themselves when they are
/// valid UTF-8, the empty string otherwise.
pub open spec fn utf8_text(b: Seq<u8>) -> Seq<u8> {
    if valid_utf8(b) {
        b
    } else {
        Seq::empty()
    }
}

/// `core::str::from_utf8`, with the empty string in place of its error.
/// Claimed: on valid UTF-8 the returned text has exactly the given bytes,
/// and on anything else the text is empty.
#[verifier::external_body]
pub(crate) fn utf8_or_empty<'a>(b: &'a [u8]) -> (s: &'a str)
    ensures
        s.spec_bytes() == utf8_text(b@),
{
    core::str::from_utf8(b).unwrap_or("")
}

/// Byte-wise equality of two byte strings.
pub fn bytes_eq(a: &[u8], b: &[u8]) -> (r: bool)
    ensures
        r == (a@ == b@),
{
    if a.len() != b.len() {
        return false;
    }
    let mut i: usize = 0;
    while i < a.len()
        invariant
            a.len() == b.len(),
            i <= a.len(),
            forall|k: int| 0 <= k < i ==> a@[k] == b@[k],
        decreases a.len() - i,
    {
        if a[i] != b[i] {
            return false;
        }
        i += 1;
    }
    proof {
        assert(a@ =~= b@);
    }
    true
}

/// The first `n` bytes of `b`, copied (all of them when `b` is shorter).
pub fn copy_prefix(b: &[u8], n: usize) -> (r: Vec<u8>)
    ensures
        r@ == b@.subrange(0, if b.len() < n { b.len() as int } else { n as int }),
{
    let m = if b.len() < n { b.len() } else { n };
    let mut r: Vec<u8> = Vec::new();
    let mut i: usize = 0;
    while i < m
        invariant
            m <= b.len(),
            i <= m,
            r@ == b@.subrange(0, i as int),
        decreases m - i,
    {
        r.push(b[i]);
        i += 1;
        proof {
            assert(r@ =~= b@.subrange(0, i as int));
        }
    }
    r
}

/// `a` begins with `p`.
pub open spec fn has_prefix(a: Seq<u8>, p: Seq<u8>) -> bool {
    p.len() <= a.len() && a.subrange(0, p.len() as int) == p
}

/// Whether `a` begins with `p`.
pub fn starts_with(a: &[u8], p: &[u8]) -> (r: bool)
    ensures
        r == has_prefix(a@, p@),
{
    if p.len() > a.len() {
        return false;
    }
    let mut i: usize = 0;
    while i < p.len()
        invariant
            p.len() <= a.len(),
            i <= p.len(),
            forall|k: int| 0 <= k < i ==> a@[k] == p@[k],
        decreases p.len() - i,
    {
        if a[i] != p[i] {
            proof {
                assert(a@.subrange(0, p.len() as int)[i as int] != p@[i as int]);
            }
            return false;
        }
        i += 1;
    }
    proof {
        assert(a@.subrange(0, p.len() as int) =~= p@);
    }
    true
}

/// The index of the last occurrence of `c` in `s`, if any.
pub open spec fn last_index_of(s: Seq<u8>, c: u8) -> Option<int>
    decreases s.len(),
{
    if s.len() == 0 {
        None
    } else if s.last() == c {
        Some(s.len() - 1)
    } else {
        last_index_of(s.drop_last(), c)
    }
}

/// The position of the last `c` in `s` (`rfind`).
pub fn rfind_byte(s: &[u8], c: u8) -> (r: Option<usize>)
    ensures
        r is Some <==> last_index_of(s@, c) is Some,
        r is Some ==> r.unwrap() == last_index_of(s@, c).unwrap() && r.unwrap() < s.len(),
{
    let mut i: usize = s.len();
    proof {
        assert(s@.subrange(0, i as int) =~= s@);
    }
    while i > 0
        invariant
            i <= s.len(),
            last_index_of(s@, c) == last_index_of(s@.subrange(0, i as int), c),
        decreases i,
    {
        proof {
            assert(s@.subrange(0, i as int).drop_last() =~= s@.subrange(0, i - 1));
        }
        if s[i - 1] == c {
            proof {
                assert(s@.subrange(0, i as int).last() == c);
            }
            return Some(i - 1);
        }
        i -= 1;
    }
    None
}

/// `s` without its leading `c` bytes.
pub open spec fn trim_leading(s: Seq<u8>, c: u8) -> Seq<u8>
    decreases s.len(),
{
    if s.len() > 0 && s[0] == c {
        trim_leading(s.drop_first(), c)
    } else {
        s
    }
}

/// `s` without its leading `c` bytes.
pub fn trim_leading_exec<'a>(s: &'a [u8], c: u8) -> (r: &'a [u8])
    ensures
        r@ == trim_leading(s@, c),
{
    let mut i: usize = 0;
    proof {
        assert(s@.subrange(0, s@.len() as int) =~= s@);
    }
    while i < s.len() && s[i] == c
        invariant
            i <= s.len(),
            trim_leading(s@, c) == trim_leading(s@.subrange(i as int, s@.len() as int), c),
        decreases s.len() - i,
    {
        proof {
            assert(s@.subrange(i as int, s@.len() as int).drop_first() =~= s@.subrange(i + 1, s@.len() as int));
        }
        i += 1;
    }
    vstd::slice::slice_subrange(s, i, s.len())
}

/// Bytes below 128 are valid UTF-8.
pub proof fn lemma_ascii_valid_utf8(b: Seq<u8>)
    requires
        forall|i: int| 0 <= i < b.len() ==> #[trigger] b[i] < 128,
    ensures
        valid_utf8(b),
    decreases b.len(),
{
    if b.len() > 0 {
        let rest = vstd::utf8::pop_first_scalar(b);
        assert(rest =~= b.drop_first());
        lemma_ascii_valid_utf8(rest);
    }
}

} // verus!
