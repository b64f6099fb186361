//! Static object pool with a LIFO free list threaded through the slots.

use vstd::prelude::*;

verus! {

/// Fixed-capacity object pool. Slots are handed out by index; freed slots
/// are reused most-recent first.
pub struct Slab<T, const N: usize> {
    data: Vec<Option<T>>,
    next_free: Vec<usize>,
    free_head: Option<usize>,
    free_count: usize,
    free_list: Ghost<Seq<usize>>,
}

impl<T, const N: usize> Slab<T, N> {
    /// Contents of the pool, slot by slot.
    pub closed spec fn view(self) -> Seq<Option<T>> {
        self.data@
    }

    /// The slot that the next allocation hands out, if any is free.
    pub closed spec fn next_slot(self) -> Option<usize> {
        self.free_head
    }

    pub closed spec fn wf(self) -> bool {
        &&& self.data.len() == N
        &&& self.next_free.len() == N
        &&& self.free_list@.len() == self.free_count
        &&& self.free_list@.no_duplicates()
        &&& forall|k: int| 0 <= k < self.free_list@.len() ==> #[trigger] self.free_list@[k] < N
        &&& forall|i: int| 0 <= i < N ==> (#[trigger] self.data@[i] is None <==> self.free_list@.contains(i as usize))
        &&& self.free_head == (if self.free_list@.len() == 0 { None } else { Some(self.free_list@[0]) })
        &&& forall|k: int| 0 <= k < self.free_list@.len() - 1
            ==> #[trigger] self.next_free@[self.free_list@[k] as int] == self.free_list@[k + 1]
        &&& self.free_list@.len() > 0 ==> self.next_free@[self.free_list@.last() as int] >= N
    }

    pub proof fn lemma_view_len(self)
        requires
            self.wf(),
        ensures
            self.view().len() == N,
    {
    }

    /// Number of free slots.
    pub closed spec fn spec_free_count(self) -> nat {
        self.free_list@.len()
    }

    /// Freeing the slot that was just handed out undoes the allocation:
    /// the slot was empty, and emptying it again gives back the contents.
    pub proof fn lemma_allocate_then_free(self, val: T)
        requires
            self.wf(),
            self.next_slot() is Some,
        ensures
            self.view()[self.next_slot().unwrap() as int] is None,
            self.view().update(self.next_slot().unwrap() as int, Some(val)).update(self.next_slot().unwrap() as int, None)
                == self.view(),
    {
        self.lemma_free_count();
        let i = self.next_slot().unwrap() as int;
        assert(self.view().update(i, Some(val)).update(i, None) =~= self.view());
    }

    pub proof fn lemma_free_count(self)
        requires
            self.wf(),
        ensures
            (self.spec_free_count() == 0) == (forall|i: int| 0 <= i < N ==> #[trigger] self.view()[i] is Some),
            (self.next_slot() is None) == (self.spec_free_count() == 0),
            self.next_slot() is Some ==> self.next_slot().unwrap() < N && self.view()[self.next_slot().unwrap() as int] is None,
    {
        if self.free_list@.len() > 0 {
            let k = self.free_list@[0];
            assert(self.free_list@.contains(k));
            assert(self.data@[k as int] is None);
        }
    }

    /// An empty pool: every slot free, slot 0 handed out first.
    pub fn new() -> (r: Self)
        ensures
            r.wf(),
            r.view().len() == N,
            forall|i: int| 0 <= i < N ==> #[trigger] r.view()[i] is None,
            r.spec_free_count() == N,
            r.next_slot() == (if N > 0 { Some(0usize) } else { None }),
    {
        let mut data: Vec<Option<T>> = Vec::new();
        let mut next_free: Vec<usize> = Vec::new();
        let mut i: usize = 0;
        while i < N
            invariant
                i <= N,
                data.len() == i,
                next_free.len() == i,
                forall|j: int| 0 <= j < i ==> #[trigger] data@[j] is None,
                forall|j: int| 0 <= j < i ==> #[trigger] next_free@[j] == j + 1,
            decreases N - i,
        {
            data.push(None);
            next_free.push(i + 1);
            i += 1;
        }
        let ghost fl = Seq::new(N as nat, |k: int| k as usize);
        let r = Slab {
            data,
            next_free,
            free_head: if N > 0 { Some(0) } else { None },
            free_count: N,
            free_list: Ghost(fl),
        };
        proof {
            assert forall|i: int| 0 <= i < N implies (#[trigger] r.data@[i] is None <==> fl.contains(i as usize)) by {
                assert(fl[i] == i as usize);
            }
            assert forall|k: int| 0 <= k < fl.len() - 1 implies #[trigger] r.next_free@[fl[k] as int] == fl[k + 1] by {
            }
        }
        r
    }

    /// Store `val` in a free slot and return the slot, or `None` when the
    /// pool is full.
    pub fn allocate(&mut self, val: T) -> (r: Option<usize>)
        requires
            old(self).wf(),
        ensures
            final(self).wf(),
            r == old(self).next_slot(),
            match r {
                None => final(self).view() == old(self).view() && old(self).spec_free_count() == 0
                    && final(self).spec_free_count() == 0,
                Some(i) => {
                    &&& i < N
                    &&& old(self).view()[i as int] is None
                    &&& final(self).view() == old(self).view().update(i as int, Some(val))
                    &&& final(self).spec_free_count() == old(self).spec_free_count() - 1
                },
            },
    {
        proof {
            self.lemma_free_count();
        }
        if let Some(idx) = self.free_head {
            let next = self.next_free[idx];
            let ghost fl = self.free_list@;
            self.free_head = if next < N { Some(next) } else { None };
            self.free_count = self.free_count - 1;
            self.data.set(idx, Some(val));
            self.free_list = Ghost(fl.drop_first());
            proof {
                assert(fl[0] == idx);
                if fl.len() > 1 {
                    assert(self.next_free@[fl[0] as int] == fl[1]);
                }
                assert forall|i: int| 0 <= i < N implies (#[trigger] self.data@[i] is None <==> self.free_list@.contains(i as usize)) by {
                    if i == idx as int {
                        assert(!self.free_list@.contains(i as usize)) by {
                            if self.free_list@.contains(i as usize) {
                                let k = choose|k: int| 0 <= k < self.free_list@.len() && self.free_list@[k] == i as usize;
                                assert(fl[k + 1] == fl[0]);
                            }
                        }
                    } else {
                        if fl.contains(i as usize) {
                            let k = choose|k: int| 0 <= k < fl.len() && fl[k] == i as usize;
                            assert(k != 0);
                            assert(self.free_list@[k - 1] == i as usize);
                        }
                    }
                }
                assert forall|k: int| 0 <= k < self.free_list@.len() - 1 implies #[trigger] self.next_free@[self.free_list@[k] as int] == self.free_list@[k + 1] by {
                    assert(self.free_list@[k] == fl[k + 1]);
                }
                if self.free_list@.len() > 0 {
                    assert(self.free_list@.last() == fl.last());
                }
            }
            Some(idx)
        } else {
            None
        }
    }

    /// Release slot `idx`. Indices past the pool are ignored.
    pub fn free(&mut self, idx: usize)
        requires
            old(self).wf(),
            idx < N ==> old(self).view()[idx as int] is Some,
        ensures
            final(self).wf(),
            idx >= N ==> *final(self) == *old(self),
            idx < N ==> {
                &&& final(self).view() == old(self).view().update(idx as int, None)
                &&& final(self).next_slot() == Some(idx)
                &&& final(self).spec_free_count() == old(self).spec_free_count() + 1
            },
    {
        if idx >= N {
            return;
        }
        let ghost fl = self.free_list@;
        proof {
            assert(!fl.contains(idx));
            assert(fl.len() < N) by {
                lemma_distinct_below_bound(fl, N, idx);
            }
        }
        if let Some(head) = self.free_head {
            self.next_free.set(idx, head);
        } else {
            self.next_free.set(idx, N);
        }
        self.free_head = Some(idx);
        self.free_count = self.free_count + 1;
        self.data.set(idx, None);
        self.free_list = Ghost(seq![idx].add(fl));
        proof {
            let nl = self.free_list@;
            assert(nl[0] == idx);
            assert forall|k: int| 0 <= k < nl.len() implies #[trigger] nl[k] < N by {
                if k > 0 {
                    assert(nl[k] == fl[k - 1]);
                }
            }
            assert(nl.no_duplicates()) by {
                assert forall|a: int, b: int| 0 <= a < b < nl.len() implies nl[a] != nl[b] by {
                    if a == 0 {
                        assert(nl[b] == fl[b - 1]);
                    } else {
                        assert(nl[a] == fl[a - 1]);
                        assert(nl[b] == fl[b - 1]);
                    }
                }
            }
            assert forall|i: int| 0 <= i < N implies (#[trigger] self.data@[i] is None <==> nl.contains(i as usize)) by {
                if i == idx as int {
                    assert(nl[0] == i as usize);
                } else {
                    if fl.contains(i as usize) {
                        let k = choose|k: int| 0 <= k < fl.len() && fl[k] == i as usize;
                        assert(nl[k + 1] == i as usize);
                    }
                    if nl.contains(i as usize) {
                        let k = choose|k: int| 0 <= k < nl.len() && nl[k] == i as usize;
                        assert(k != 0);
                        assert(fl[k - 1] == i as usize);
                    }
                }
            }
            assert forall|k: int| 0 <= k < nl.len() - 1 implies #[trigger] self.next_free@[nl[k] as int] == nl[k + 1] by {
                if k == 0 {
                } else {
                    assert(nl[k] == fl[k - 1]);
                    assert(nl[k] != idx);
                }
            }
            if fl.len() > 0 {
                assert(nl.last() == fl.last());
                assert(fl.last() != idx);
            }
        }
    }

    /// A copy of the object in slot `idx`, if that slot is in use.
    pub fn get(&self, idx: usize) -> (r: Option<T>)
        where T: Copy
        requires
            self.wf(),
        ensures
            idx < N ==> r == self.view()[idx as int],
            idx >= N ==> r is None,
    {
        if idx < N {
            self.data[idx]
        } else {
            None
        }
    }

    /// Overwrite the object in the used slot `idx`.
    pub fn set(&mut self, idx: usize, val: T)
        requires
            old(self).wf(),
            idx < N,
            old(self).view()[idx as int] is Some,
        ensures
            final(self).wf(),
            final(self).view() == old(self).view().update(idx as int, Some(val)),
            final(self).next_slot() == old(self).next_slot(),
            final(self).spec_free_count() == old(self).spec_free_count(),
    {
        self.data.set(idx, Some(val));
        proof {
            assert forall|i: int| 0 <= i < N implies (#[trigger] self.data@[i] is None <==> self.free_list@.contains(i as usize)) by {
                if i != idx as int {
                }
            }
        }
    }

    pub fn free_count(&self) -> (r: usize)
        requires
            self.wf(),
        ensures
            r == self.spec_free_count(),
    {
        self.free_count
    }
}

/// A duplicate-free list of indices below `n` that misses index `idx` is
/// shorter than `n`.
pub proof fn lemma_distinct_below_bound(fl: Seq<usize>, n: usize, idx: usize)
    requires
        fl.no_duplicates(),
        forall|k: int| 0 <= k < fl.len() ==> #[trigger] fl[k] < n,
        !fl.contains(idx),
        idx < n,
    ensures
        fl.len() < n,
{
    let s = fl.to_set().map(|x: usize| x as int);
    let r = vstd::set_lib::set_int_range(0, n as int).remove(idx as int);
    fl.unique_seq_to_set();
    vstd::seq_lib::seq_to_set_is_finite(fl);
    vstd::set_lib::lemma_int_range(0, n as int);
    assert(s.subset_of(r)) by {
        assert forall|x: int| s.contains(x) implies r.contains(x) by {
            let y = choose|y: usize| fl.to_set().contains(y) && y as int == x;
            let k = choose|k: int| 0 <= k < fl.len() && fl[k] == y;
        }
    }
    fl.to_set().lemma_map_finite(|x: usize| x as int);
    lemma_map_injective_len(fl.to_set());
    vstd::set_lib::lemma_len_subset(s, r);
}

/// A finite set of indices below `n` that misses index `idx` has fewer than
/// `n` elements.
pub proof fn lemma_set_below_bound(s: Set<usize>, n: usize, idx: usize)
    requires
        s.finite(),
        forall|x: usize| #[trigger] s.contains(x) ==> x < n,
        !s.contains(idx),
        idx < n,
    ensures
        s.len() < n,
{
    let m = s.map(|x: usize| x as int);
    let r = vstd::set_lib::set_int_range(0, n as int).remove(idx as int);
    vstd::set_lib::lemma_int_range(0, n as int);
    assert(m.subset_of(r)) by {
        assert forall|x: int| m.contains(x) implies r.contains(x) by {
            let y = choose|y: usize| s.contains(y) && y as int == x;
        }
    }
    s.lemma_map_finite(|x: usize| x as int);
    lemma_map_injective_len(s);
    vstd::set_lib::lemma_len_subset(m, r);
}

pub proof fn lemma_map_injective_len(s: Set<usize>)
    requires
        s.finite(),
    ensures
        s.map(|x: usize| x as int).len() == s.len(),
    decreases s.len(),
{
    if s.len() == 0 {
        assert(s.map(|x: usize| x as int) =~= Set::empty());
    } else {
        let a = s.choose();
        lemma_map_injective_len(s.remove(a));
        assert(s.map(|x: usize| x as int) =~= s.remove(a).map(|x: usize| x as int).insert(a as int));
        s.remove(a).lemma_map_finite(|x: usize| x as int);
    }
}

} // verus!
