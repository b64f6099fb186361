//! Fixed tables of optional slots: the first free slot, and the first slot
//! that holds a given handle.

use vstd::prelude::*;

verus! {

/// The first empty slot of `s` from `k` on.
pub open spec fn first_none<A>(s: Seq<Option<A>>, k: int) -> Option<int>
    decreases s.len() - k,
{
    if k >= s.len() || k < 0 {
        None
    } else if s[k] is None {
        Some(k)
    } else {
        first_none(s, k + 1)
    }
}

pub proof fn lemma_first_none<A>(s: Seq<Option<A>>, k: int)
    requires
        0 <= k,
    ensures
        first_none(s, k) is Some ==> {
            let i = first_none(s, k).unwrap();
            k <= i < s.len() && s[i] is None
        },
        first_none(s, k) is None ==> forall|j: int| k <= j < s.len() ==> (#[trigger] s[j]) is Some,
    decreases s.len() - k,
{
    if k < s.len() {
        lemma_first_none(s, k + 1);
    }
}

/// `s` with `x` put in its first empty slot (unchanged when it is full).
pub open spec fn put_first_free<A>(s: Seq<Option<A>>, x: A) -> Seq<Option<A>> {
    match first_none(s, 0) {
        Some(k) => s.update(k, Some(x)),
        None => s,
    }
}

/// The first empty slot of `v`.
pub fn find_none<A>(v: &Vec<Option<A>>) -> (r: Option<usize>)
    ensures
        r is Some <==> first_none(v@, 0) is Some,
        r is Some ==> r.unwrap() == first_none(v@, 0).unwrap() && r.unwrap() < v.len(),
{
    proof {
        lemma_first_none(v@, 0);
    }
    let mut k: usize = 0;
    while k < v.len()
        invariant
            k <= v.len(),
            first_none(v@, 0) == first_none(v@, k as int),
        decreases v.len() - k,
    {
        if v[k].is_none() {
            return Some(k);
        }
        k += 1;
    }
    None
}

/// The first slot of `s` from `k` on that holds `h`.
pub open spec fn first_holding(s: Seq<Option<usize>>, h: usize, k: int) -> Option<int>
    decreases s.len() - k,
{
    if k >= s.len() || k < 0 {
        None
    } else if s[k] == Some(h) {
        Some(k)
    } else {
        first_holding(s, h, k + 1)
    }
}

/// `s` with its first slot holding `h` emptied (unchanged when none does).
pub open spec fn clear_first(s: Seq<Option<usize>>, h: usize) -> Seq<Option<usize>> {
    match first_holding(s, h, 0) {
        Some(k) => s.update(k, None),
        None => s,
    }
}

pub proof fn lemma_first_holding(s: Seq<Option<usize>>, h: usize, k: int)
    requires
        0 <= k,
    ensures
        first_holding(s, h, k) is Some ==> {
            let i = first_holding(s, h, k).unwrap();
            k <= i < s.len() && s[i] == Some(h)
        },
    decreases s.len() - k,
{
    if k < s.len() {
        lemma_first_holding(s, h, k + 1);
    }
}

/// Put `x` in the first empty slot of `v`.
pub fn put_free<A>(v: &mut Vec<Option<A>>, x: A)
    ensures
        final(v)@ == put_first_free(old(v)@, x),
        final(v)@.len() == old(v)@.len(),
{
    match find_none(v) {
        Some(k) => {
            v.set(k, Some(x));
        },
        None => {},
    }
}

/// Empty the first slot of `v` that holds `h`.
pub fn clear_holding(v: &mut Vec<Option<usize>>, h: usize)
    ensures
        final(v)@ == clear_first(old(v)@, h),
        final(v)@.len() == old(v)@.len(),
{
    proof {
        lemma_first_holding(v@, h, 0);
    }
    let mut k: usize = 0;
    while k < v.len()
        invariant
            k <= v.len(),
            v@ == old(v)@,
            first_holding(v@, h, 0) == first_holding(v@, h, k as int),
        decreases v.len() - k,
    {
        if v[k] == Some(h) {
            v.set(k, None);
            return;
        }
        k += 1;
    }
}

/// How many slots of `s` hold something.
pub open spec fn count_some<A>(s: Seq<Option<A>>) -> nat
    decreases s.len(),
{
    if s.len() == 0 {
        0
    } else {
        count_some(s.drop_last()) + if s.last() is Some { 1nat } else { 0nat }
    }
}

pub proof fn lemma_count_some_bound<A>(s: Seq<Option<A>>)
    ensures
        count_some(s) <= s.len(),
    decreases s.len(),
{
    if s.len() > 0 {
        lemma_count_some_bound(s.drop_last());
    }
}

/// Filling an empty slot adds one to the count of filled slots.
pub proof fn lemma_count_some_fill<A>(s: Seq<Option<A>>, k: int, x: A)
    requires
        0 <= k < s.len(),
        s[k] is None,
    ensures
        count_some(s.update(k, Some(x))) == count_some(s) + 1,
    decreases s.len(),
{
    let t = s.update(k, Some(x));
    if k == s.len() - 1 {
        assert(t.drop_last() =~= s.drop_last());
    } else {
        assert(t.drop_last() =~= s.drop_last().update(k, Some(x)));
        lemma_count_some_fill(s.drop_last(), k, x);
    }
}

/// How many slots of `v` hold something.
pub fn count_filled<A>(v: &Vec<Option<A>>) -> (r: usize)
    ensures
        r == count_some(v@),
{
    let mut n: usize = 0;
    let mut k: usize = 0;
    while k < v.len()
        invariant
            k <= v.len(),
            n == count_some(v@.subrange(0, k as int)),
            n <= k,
        decreases v.len() - k,
    {
        proof {
            assert(v@.subrange(0, k + 1).drop_last() =~= v@.subrange(0, k as int));
        }
        if v[k].is_some() {
            n += 1;
        }
        k += 1;
    }
    proof {
        assert(v@.subrange(0, v@.len() as int) =~= v@);
    }
    n
}

/// A table of `n` empty slots.
pub fn empty_slots<A>(n: usize) -> (r: Vec<Option<A>>)
    ensures
        r.len() == n,
        forall|i: int| 0 <= i < n ==> (#[trigger] r@[i]) is None,
{
    let mut v: Vec<Option<A>> = Vec::new();
    let mut k: usize = 0;
    while k < n
        invariant
            k <= n,
            v.len() == k,
            forall|i: int| 0 <= i < k ==> (#[trigger] v@[i]) is None,
        decreases n - k,
    {
        v.push(None);
        k += 1;
    }
    v
}

} // verus!
