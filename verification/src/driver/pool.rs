//! A fixed pool of driver instances, handed out once each.

use vstd::prelude::*;

verus! {

/// At most `N` values, stored in the order they came; a slot is never
/// reused.
pub struct StaticDriverPool<T, const N: usize> {
    slots: Vec<T>,
}

impl<T, const N: usize> StaticDriverPool<T, N> {
    /// The values stored so far.
    pub closed spec fn view(self) -> Seq<T> {
        self.slots@
    }

    pub fn new() -> (r: Self)
        ensures
            r.view().len() == 0,
    {
        StaticDriverPool { slots: Vec::new() }
    }

    /// Store `value` in the next slot: its index, or `None` once all `N`
    /// slots are taken.
    pub fn allocate(&mut self, value: T) -> (r: Option<usize>)
        ensures
            old(self).view().len() < N ==> r == Some(old(self).view().len() as usize) && final(self).view()
                == old(self).view().push(value),
            old(self).view().len() >= N ==> r is None && final(self).view() == old(self).view(),
    {
        if self.slots.len() >= N {
            return None;
        }
        let idx = self.slots.len();
        self.slots.push(value);
        Some(idx)
    }

    /// The value in slot `idx`.
    pub fn get(&self, idx: usize) -> (r: Option<&T>)
        ensures
            idx < self.view().len() ==> r == Some(&self.view()[idx as int]),
            idx >= self.view().len() ==> r is None,
    {
        if idx < self.slots.len() {
            Some(&self.slots[idx])
        } else {
            None
        }
    }
}

} // verus!
