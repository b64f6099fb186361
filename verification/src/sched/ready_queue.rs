//! Per-CPU ready queue: one FIFO per priority level plus a bitmap of the
//! non-empty levels.

use vstd::prelude::*;
use vstd::std_specs::bits::{u8_leading_zeros, u8_trailing_zeros, axiom_u8_leading_zeros, axiom_u8_trailing_zeros};
use crate::bits::{bit8_of, lemma_bit8_clear, lemma_bit8_set, lemma_bit8_zero_iff};
use super::task::{Priority, TaskControlBlock, TaskState};

verus! {

/// Most tasks one ready queue can hold (the capacity of the task pool).
pub const MAX_TASKS: usize = 32;

/// Number of priority levels. Levels 0-6 are normal priorities (0 lowest),
/// level 7 is real-time and preempts every normal task.
pub const MAX_PRIORITIES: usize = 8;

pub const MIN_PRIORITY: Priority = 0;

pub const MAX_PRIORITY: Priority = 7;

/// Priority level at and above which tasks are real-time.
pub const REALTIME_PRIORITY_THRESHOLD: Priority = 7;

pub fn is_realtime_priority(prio: Priority) -> (r: bool)
    ensures
        r == (prio >= REALTIME_PRIORITY_THRESHOLD),
{
    prio >= REALTIME_PRIORITY_THRESHOLD
}

/// The highest level at or below `p` whose queue is non-empty, or -1.
pub open spec fn top_from(v: Seq<Seq<usize>>, p: int) -> int
    decreases p + 1,
{
    if p < 0 {
        -1
    } else if v[p].len() > 0 {
        p
    } else {
        top_from(v, p - 1)
    }
}

/// The lowest level at or above `p` whose queue is non-empty, or 8.
pub open spec fn bottom_from(v: Seq<Seq<usize>>, p: int) -> int
    decreases MAX_PRIORITIES - p,
{
    if p >= MAX_PRIORITIES {
        MAX_PRIORITIES as int
    } else if v[p].len() > 0 {
        p
    } else {
        bottom_from(v, p + 1)
    }
}

/// The queues of levels `0..k` one after another.
pub open spec fn flat(v: Seq<Seq<usize>>, k: int) -> Seq<usize>
    decreases k,
{
    if k <= 0 {
        Seq::empty()
    } else {
        flat(v, k - 1) + v[k - 1]
    }
}

/// All queues empty.
pub open spec fn all_empty(v: Seq<Seq<usize>>) -> bool {
    forall|p: int| 0 <= p < MAX_PRIORITIES ==> #[trigger] v[p].len() == 0
}

proof fn lemma_top(v: Seq<Seq<usize>>, p: int, r: int)
    requires
        0 <= r <= p,
        v[r].len() > 0,
        forall|q: int| r < q <= p ==> #[trigger] v[q].len() == 0,
    ensures
        top_from(v, p) == r,
    decreases p,
{
    if p > r {
        lemma_top(v, p - 1, r);
    }
}

proof fn lemma_top_empty(v: Seq<Seq<usize>>, p: int)
    requires
        forall|q: int| 0 <= q <= p ==> #[trigger] v[q].len() == 0,
    ensures
        top_from(v, p) == -1,
    decreases p + 1,
{
    if p >= 0 {
        lemma_top_empty(v, p - 1);
    }
}

/// The top level found at or below `p` is at most `p`.
pub proof fn lemma_top_le(v: Seq<Seq<usize>>, p: int)
    requires
        p >= -1,
    ensures
        top_from(v, p) <= p,
    decreases p + 1,
{
    if p >= 0 && v[p].len() == 0 {
        lemma_top_le(v, p - 1);
    }
}

pub proof fn lemma_top_bound(v: Seq<Seq<usize>>, p: int, q: int)
    requires
        0 <= q <= p,
        v[q].len() > 0,
    ensures
        q <= top_from(v, p),
        top_from(v, p) >= 0 ==> v[top_from(v, p)].len() > 0,
    decreases p,
{
    if p > q && v[p].len() == 0 {
        lemma_top_bound(v, p - 1, q);
    }
}

proof fn lemma_bottom(v: Seq<Seq<usize>>, p: int, r: int)
    requires
        0 <= p <= r < MAX_PRIORITIES,
        v[r].len() > 0,
        forall|q: int| p <= q < r ==> #[trigger] v[q].len() == 0,
    ensures
        bottom_from(v, p) == r,
    decreases r - p,
{
    if p < r {
        lemma_bottom(v, p + 1, r);
    }
}

pub struct ReadyQueue {
    queues: Vec<Vec<usize>>,
    task_count: usize,
    non_empty: u8,
    current_priority: Priority,
    members: Ghost<Set<usize>>,
}

impl ReadyQueue {
    /// The queue of each priority level, front first.
    pub closed spec fn view(self) -> Seq<Seq<usize>> {
        Seq::new(MAX_PRIORITIES as nat, |p: int| self.queues@[p]@)
    }

    /// The task slots held by the queue.
    pub closed spec fn members(self) -> Set<usize> {
        self.members@
    }

    pub closed spec fn spec_len(self) -> nat {
        self.task_count as nat
    }

    /// The level of the last task handed out by [`ReadyQueue::pop_highest`].
    pub closed spec fn spec_current_priority(self) -> Priority {
        self.current_priority
    }

    #[verifier::inline]
    spec fn elem(self, p: int, i: int) -> usize {
        self.queues@[p]@[i]
    }

    pub closed spec fn wf(self) -> bool {
        &&& self.queues.len() == MAX_PRIORITIES
        &&& self.members@.finite()
        &&& self.task_count == self.members@.len()
        &&& self.task_count <= MAX_TASKS
        &&& forall|p: int| 0 <= p < MAX_PRIORITIES ==> #[trigger] bit8_of(self.non_empty, p as u8)
            == (self.queues@[p]@.len() > 0)
        &&& forall|p: int, i: int| 0 <= p < MAX_PRIORITIES && 0 <= i < self.queues@[p]@.len()
            ==> self.members@.contains(#[trigger] self.elem(p, i))
        &&& forall|p1: int, i1: int, p2: int, i2: int|
            0 <= p1 < MAX_PRIORITIES && 0 <= i1 < self.queues@[p1]@.len() && 0 <= p2 < MAX_PRIORITIES
                && 0 <= i2 < self.queues@[p2]@.len() && #[trigger] self.elem(p1, i1) == #[trigger] self.elem(p2, i2)
                ==> p1 == p2 && i1 == i2
        &&& forall|s: usize| #[trigger] self.members@.contains(s) ==> exists|p: int, i: int|
            0 <= p < MAX_PRIORITIES && 0 <= i < self.queues@[p]@.len() && self.elem(p, i) == s
    }

    /// A slot is held exactly when it sits at some position of some level.
    pub proof fn lemma_members(self)
        requires
            self.wf(),
        ensures
            self.view().len() == MAX_PRIORITIES,
            self.members().finite(),
            self.members().len() == self.spec_len(),
            self.spec_len() <= MAX_TASKS,
            forall|s: usize| #[trigger] self.members().contains(s) <==> exists|p: int, i: int|
                0 <= p < MAX_PRIORITIES && 0 <= i < self.view()[p].len() && self.view()[p][i] == s,
    {
        assert forall|s: usize| #[trigger] self.members().contains(s) <==> exists|p: int, i: int|
            0 <= p < MAX_PRIORITIES && 0 <= i < self.view()[p].len() && self.view()[p][i] == s by {
            if self.members().contains(s) {
                let (p, i) = choose|p: int, i: int|
                    0 <= p < MAX_PRIORITIES && 0 <= i < self.queues@[p]@.len() && self.elem(p, i) == s;
                assert(self.view()[p][i] == s);
            }
            if exists|p: int, i: int| 0 <= p < MAX_PRIORITIES && 0 <= i < self.view()[p].len() && self.view()[p][i] == s {
                let (p, i) = choose|p: int, i: int|
                    0 <= p < MAX_PRIORITIES && 0 <= i < self.view()[p].len() && self.view()[p][i] == s;
                assert(self.members@.contains(self.elem(p, i)));
            }
        }
    }

    /// The queue holds no task exactly when every level is empty.
    pub proof fn lemma_len_empty(self)
        requires
            self.wf(),
        ensures
            (self.spec_len() == 0) == all_empty(self.view()),
    {
        if all_empty(self.view()) {
            assert(self.members@ =~= Set::empty()) by {
                assert forall|s: usize| !self.members@.contains(s) by {
                    if self.members@.contains(s) {
                        let (p, i) = choose|p: int, i: int|
                            0 <= p < MAX_PRIORITIES && 0 <= i < self.queues@[p]@.len() && self.elem(p, i) == s;
                        assert(self.view()[p].len() == 0);
                    }
                }
            }
        } else {
            let p = choose|p: int| 0 <= p < MAX_PRIORITIES && self.view()[p].len() != 0;
            assert(self.members@.contains(self.elem(p, 0)));
        }
    }

    proof fn lemma_mask(self)
        requires
            self.wf(),
        ensures
            (self.non_empty == 0) == all_empty(self.view()),
    {
        lemma_bit8_zero_iff(self.non_empty);
        if self.non_empty == 0 {
            assert forall|p: int| 0 <= p < MAX_PRIORITIES implies #[trigger] self.view()[p].len() == 0 by {
                assert(!bit8_of(self.non_empty, p as u8));
            }
        } else {
            let c = choose|c: u8| c < 8 && bit8_of(self.non_empty, c);
            assert(bit8_of(self.non_empty, (c as int) as u8));
            assert(self.view()[c as int].len() > 0);
        }
    }

    pub fn new() -> (r: Self)
        ensures
            r.wf(),
            all_empty(r.view()),
            r.members() == Set::<usize>::empty(),
            r.spec_len() == 0,
            r.spec_current_priority() == 0,
    {
        let mut queues: Vec<Vec<usize>> = Vec::new();
        let mut p: usize = 0;
        while p < MAX_PRIORITIES
            invariant
                p <= MAX_PRIORITIES,
                queues.len() == p,
                forall|q: int| 0 <= q < p ==> (#[trigger] queues@[q])@.len() == 0,
            decreases MAX_PRIORITIES - p,
        {
            queues.push(Vec::new());
            p += 1;
        }
        let r = ReadyQueue {
            queues,
            task_count: 0,
            non_empty: 0,
            current_priority: 0,
            members: Ghost(Set::empty()),
        };
        proof {
            lemma_bit8_zero_iff(0u8);
            assert forall|p: int| 0 <= p < MAX_PRIORITIES implies #[trigger] bit8_of(r.non_empty, p as u8)
                == (r.queues@[p]@.len() > 0) by {
                assert(!bit8_of(0u8, p as u8));
            }
        }
        r
    }

    /// Append the task in `slot` to the queue of its priority level. Refused
    /// (with nothing changed) when the task is already queued, is not ready,
    /// the queue is full, or its priority is out of range.
    pub fn push(&mut self, slot: usize, task: &mut TaskControlBlock) -> (r: bool)
        requires
            old(self).wf(),
            !old(task).queued ==> !old(self).members().contains(slot),
        ensures
            final(self).wf(),
            r == (!old(task).queued && old(task).state == TaskState::Ready && old(self).spec_len()
                < MAX_TASKS && old(task).priority < MAX_PRIORITIES),
            r ==> {
                &&& final(self).view() == old(self).view().update(
                    old(task).priority as int,
                    old(self).view()[old(task).priority as int].push(slot),
                )
                &&& final(self).members() == old(self).members().insert(slot)
                &&& final(self).spec_len() == old(self).spec_len() + 1
                &&& *final(task) == (TaskControlBlock { queued: true, ..*old(task) })
            },
            !r ==> *final(self) == *old(self) && *final(task) == *old(task),
            final(self).spec_current_priority() == old(self).spec_current_priority(),
    {
        if task.queued {
            return false;
        }
        if task.state != TaskState::Ready {
            return false;
        }
        if self.task_count >= MAX_TASKS {
            return false;
        }
        let priority = task.priority as usize;
        if priority >= MAX_PRIORITIES {
            return false;
        }
        let ghost old_self = *self;
        let mut q = self.queues[priority].clone();
        q.push(slot);
        self.queues.set(priority, q);
        task.queued = true;
        self.task_count = self.task_count + 1;
        self.non_empty = self.non_empty | (1u8 << (priority as u8));
        self.members = Ghost(self.members@.insert(slot));
        proof {
            assert forall|p: int| 0 <= p < MAX_PRIORITIES implies #[trigger] bit8_of(self.non_empty, p as u8)
                == (self.queues@[p]@.len() > 0) by {
                lemma_bit8_set(old_self.non_empty, priority as u8, p as u8);
            }
            assert forall|p: int, i: int| 0 <= p < MAX_PRIORITIES && 0 <= i < self.queues@[p]@.len()
                implies self.members@.contains(#[trigger] self.elem(p, i)) by {
                if p == priority && i == self.queues@[p]@.len() - 1 {
                } else {
                    assert(self.elem(p, i) == old_self.elem(p, i));
                }
            }
            assert forall|p1: int, i1: int, p2: int, i2: int|
                0 <= p1 < MAX_PRIORITIES && 0 <= i1 < self.queues@[p1]@.len() && 0 <= p2 < MAX_PRIORITIES
                    && 0 <= i2 < self.queues@[p2]@.len() && #[trigger] self.elem(p1, i1) == #[trigger] self.elem(p2, i2)
                implies p1 == p2 && i1 == i2 by {
                let last = self.queues@[priority as int]@.len() - 1;
                let n1 = p1 == priority && i1 == last;
                let n2 = p2 == priority && i2 == last;
                if !n1 && !n2 {
                    assert(self.elem(p1, i1) == old_self.elem(p1, i1));
                    assert(self.elem(p2, i2) == old_self.elem(p2, i2));
                } else if n1 && !n2 {
                    assert(self.elem(p2, i2) == old_self.elem(p2, i2));
                    assert(old_self.members@.contains(old_self.elem(p2, i2)));
                } else if !n1 && n2 {
                    assert(self.elem(p1, i1) == old_self.elem(p1, i1));
                    assert(old_self.members@.contains(old_self.elem(p1, i1)));
                }
            }
            assert forall|x: usize| #[trigger] self.members@.contains(x) implies exists|p: int, i: int|
                0 <= p < MAX_PRIORITIES && 0 <= i < self.queues@[p]@.len() && self.elem(p, i) == x by {
                if x == slot {
                    assert(self.elem(priority as int, self.queues@[priority as int]@.len() - 1) == x);
                } else {
                    let (p, i) = choose|p: int, i: int|
                        0 <= p < MAX_PRIORITIES && 0 <= i < old_self.queues@[p]@.len() && old_self.elem(p, i) == x;
                    assert(self.elem(p, i) == x);
                }
            }
            assert(self.view() =~= old_self.view().update(priority as int, old_self.view()[priority as int].push(slot)));
        }
        true
    }

    /// Remove the front of queue `p`, which must be non-empty.
    fn take_front(&mut self, p: usize, set_current: bool) -> (slot: usize)
        requires
            old(self).wf(),
            p < MAX_PRIORITIES,
            old(self).view()[p as int].len() > 0,
        ensures
            final(self).wf(),
            slot == old(self).view()[p as int][0],
            final(self).view() == old(self).view().update(p as int, old(self).view()[p as int].drop_first()),
            final(self).members() == old(self).members().remove(slot),
            old(self).members().contains(slot),
            final(self).spec_len() == old(self).spec_len() - 1,
            final(self).spec_current_priority() == (if set_current { p as Priority } else { old(self).spec_current_priority() }),
    {
        if set_current {
            self.current_priority = p as Priority;
        }
        let ghost old_self = *self;
        let mut q = self.queues[p].clone();
        let slot = q.remove(0);
        self.queues.set(p, q);
        if self.queues[p].len() == 0 {
            self.non_empty = self.non_empty & !(1u8 << (p as u8));
        }
        proof {
            assert(old_self.elem(p as int, 0) == slot);
            assert(old_self.members@.contains(slot));
            assert(old_self.members@.remove(slot).len() == old_self.members@.len() - 1);
        }
        self.task_count = self.task_count - 1;
        self.members = Ghost(self.members@.remove(slot));
        proof {
            assert forall|q: int| 0 <= q < MAX_PRIORITIES implies #[trigger] bit8_of(self.non_empty, q as u8)
                == (self.queues@[q]@.len() > 0) by {
                if self.queues@[p as int]@.len() == 0 {
                    lemma_bit8_clear(old_self.non_empty, p as u8, q as u8);
                }
            }
            assert forall|a: int, i: int| 0 <= a < MAX_PRIORITIES && 0 <= i < self.queues@[a]@.len()
                implies self.members@.contains(#[trigger] self.elem(a, i)) by {
                if a == p {
                    assert(self.elem(a, i) == old_self.elem(a, i + 1));
                } else {
                    assert(self.elem(a, i) == old_self.elem(a, i));
                }
            }
            assert forall|p1: int, i1: int, p2: int, i2: int|
                0 <= p1 < MAX_PRIORITIES && 0 <= i1 < self.queues@[p1]@.len() && 0 <= p2 < MAX_PRIORITIES
                    && 0 <= i2 < self.queues@[p2]@.len() && #[trigger] self.elem(p1, i1) == #[trigger] self.elem(p2, i2)
                implies p1 == p2 && i1 == i2 by {
                let j1 = if p1 == p { i1 + 1 } else { i1 };
                let j2 = if p2 == p { i2 + 1 } else { i2 };
                assert(self.elem(p1, i1) == old_self.elem(p1, j1));
                assert(self.elem(p2, i2) == old_self.elem(p2, j2));
            }
            assert forall|x: usize| #[trigger] self.members@.contains(x) implies exists|a: int, i: int|
                0 <= a < MAX_PRIORITIES && 0 <= i < self.queues@[a]@.len() && self.elem(a, i) == x by {
                let (a, i) = choose|a: int, i: int|
                    0 <= a < MAX_PRIORITIES && 0 <= i < old_self.queues@[a]@.len() && old_self.elem(a, i) == x;
                if a == p {
                    assert(i != 0);
                    assert(self.elem(a, i - 1) == x);
                } else {
                    assert(self.elem(a, i) == x);
                }
            }
            assert(self.view() =~= old_self.view().update(p as int, old_self.view()[p as int].drop_first()));
        }
        slot
    }

    /// Hand out the front task of the highest non-empty level.
    pub fn pop_highest(&mut self) -> (r: Option<usize>)
        requires
            old(self).wf(),
        ensures
            final(self).wf(),
            ({
                let p = top_from(old(self).view(), MAX_PRIORITIES - 1);
                match r {
                    None => all_empty(old(self).view()) && *final(self) == *old(self),
                    Some(slot) => {
                        &&& 0 <= p < MAX_PRIORITIES
                        &&& old(self).view()[p].len() > 0
                        &&& slot == old(self).view()[p][0]
                        &&& old(self).members().contains(slot)
                        &&& final(self).view() == old(self).view().update(p, old(self).view()[p].drop_first())
                        &&& final(self).members() == old(self).members().remove(slot)
                        &&& final(self).spec_len() == old(self).spec_len() - 1
                        &&& final(self).spec_current_priority() == p
                    },
                }
            }),
    {
        proof {
            self.lemma_mask();
        }
        if self.non_empty == 0 {
            return None;
        }
        let priority = highest_priority(self.non_empty);
        proof {
            assert forall|q: int| priority < q <= MAX_PRIORITIES - 1 implies #[trigger] self.view()[q].len() == 0 by {
                assert(!bit8_of(self.non_empty, q as u8));
            }
            assert(bit8_of(self.non_empty, priority as u8));
            lemma_top(self.view(), MAX_PRIORITIES - 1, priority as int);
        }
        let slot = self.take_front(priority, true);
        Some(slot)
    }

    /// Hand out the front task of the lowest non-empty level. Used for work
    /// stealing, so that a thief takes the victim's least urgent work.
    pub fn pop_lowest(&mut self) -> (r: Option<usize>)
        requires
            old(self).wf(),
        ensures
            final(self).wf(),
            final(self).spec_current_priority() == old(self).spec_current_priority(),
            ({
                let p = bottom_from(old(self).view(), 0);
                match r {
                    None => all_empty(old(self).view()) && *final(self) == *old(self),
                    Some(slot) => {
                        &&& 0 <= p < MAX_PRIORITIES
                        &&& old(self).view()[p].len() > 0
                        &&& slot == old(self).view()[p][0]
                        &&& old(self).members().contains(slot)
                        &&& final(self).view() == old(self).view().update(p, old(self).view()[p].drop_first())
                        &&& final(self).members() == old(self).members().remove(slot)
                        &&& final(self).spec_len() == old(self).spec_len() - 1
                    },
                }
            }),
    {
        proof {
            self.lemma_mask();
        }
        if self.non_empty == 0 {
            return None;
        }
        let priority = lowest_priority(self.non_empty);
        proof {
            assert forall|q: int| 0 <= q < priority implies #[trigger] self.view()[q].len() == 0 by {
                assert(!bit8_of(self.non_empty, q as u8));
            }
            assert(bit8_of(self.non_empty, priority as u8));
            lemma_bottom(self.view(), 0, priority as int);
        }
        let slot = self.take_front(priority, false);
        Some(slot)
    }

    /// The highest non-empty level, or 0 when every level is empty.
    pub fn peek_highest_priority(&self) -> (r: Priority)
        requires
            self.wf(),
        ensures
            all_empty(self.view()) ==> r == 0,
            !all_empty(self.view()) ==> r == top_from(self.view(), MAX_PRIORITIES - 1),
    {
        proof {
            self.lemma_mask();
        }
        if self.non_empty == 0 {
            0
        } else {
            let p = highest_priority(self.non_empty);
            proof {
                assert forall|q: int| p < q <= MAX_PRIORITIES - 1 implies #[trigger] self.view()[q].len() == 0 by {
                    assert(!bit8_of(self.non_empty, q as u8));
                }
                assert(bit8_of(self.non_empty, p as u8));
                lemma_top(self.view(), MAX_PRIORITIES - 1, p as int);
            }
            p as Priority
        }
    }

    pub fn is_empty(&self) -> (r: bool)
        requires
            self.wf(),
        ensures
            r == (self.spec_len() == 0),
    {
        self.task_count == 0
    }

    pub fn len(&self) -> (r: usize)
        requires
            self.wf(),
        ensures
            r == self.spec_len(),
    {
        self.task_count
    }

    /// Every queued slot: level 0 first, each level front to back.
    pub fn queued_slots(&self) -> (r: Vec<usize>)
        requires
            self.wf(),
        ensures
            r@ == flat(self.view(), MAX_PRIORITIES as int),
            forall|j: int| 0 <= j < r.len() ==> self.members().contains(#[trigger] r@[j]),
    {
        proof {
            self.lemma_members();
        }
        let mut out: Vec<usize> = Vec::new();
        let mut p: usize = 0;
        while p < MAX_PRIORITIES
            invariant
                p <= MAX_PRIORITIES,
                self.wf(),
                self.view().len() == MAX_PRIORITIES,
                forall|s: usize| #[trigger] self.members().contains(s) <==> exists|p: int, i: int|
                    0 <= p < MAX_PRIORITIES && 0 <= i < self.view()[p].len() && self.view()[p][i] == s,
                out@ == flat(self.view(), p as int),
                forall|j: int| 0 <= j < out.len() ==> self.members().contains(#[trigger] out@[j]),
            decreases MAX_PRIORITIES - p,
        {
            let q = &self.queues[p];
            let mut i: usize = 0;
            while i < q.len()
                invariant
                    p < MAX_PRIORITIES,
                    i <= q.len(),
                    q@ == self.view()[p as int],
                    self.view().len() == MAX_PRIORITIES,
                    forall|s: usize| #[trigger] self.members().contains(s) <==> exists|p: int, i: int|
                        0 <= p < MAX_PRIORITIES && 0 <= i < self.view()[p].len() && self.view()[p][i] == s,
                    out@ == flat(self.view(), p as int) + q@.subrange(0, i as int),
                    forall|j: int| 0 <= j < out.len() ==> self.members().contains(#[trigger] out@[j]),
                decreases q.len() - i,
            {
                proof {
                    assert(self.view()[p as int][i as int] == q@[i as int]);
                    assert(self.members().contains(q@[i as int]));
                }
                out.push(q[i]);
                i += 1;
                proof {
                    assert(q@.subrange(0, i as int) == q@.subrange(0, i - 1).push(q@[i - 1]));
                }
            }
            proof {
                assert(q@.subrange(0, q.len() as int) == q@);
            }
            p += 1;
        }
        out
    }
}

/// The most significant set bit of a non-empty level mask.
fn highest_priority(mask: u8) -> (r: usize)
    requires
        mask != 0,
    ensures
        r < MAX_PRIORITIES,
        bit8_of(mask, r as u8),
        forall|q: int| r < q < MAX_PRIORITIES ==> !#[trigger] bit8_of(mask, q as u8),
{
    proof {
        axiom_u8_leading_zeros(mask);
        let lz = u8_leading_zeros(mask);
        assert(lz < 8);
        assert forall|q: int| (7 - lz) < q < MAX_PRIORITIES implies !#[trigger] bit8_of(mask, q as u8) by {
            assert(8 - lz <= (q as u8) && (q as u8) < 8);
        }
        lemma_low_bit(mask, (7 - lz) as u8);
    }
    (8 - 1 - mask.leading_zeros()) as usize
}

proof fn lemma_low_bit(m: u8, s: u8)
    by (bit_vector)
    ensures
        ((m >> s) & 1u8 != 0u8) == ((m >> s) & 1u8 == 1u8),
{
}

/// The least significant set bit of a non-empty level mask.
fn lowest_priority(mask: u8) -> (r: usize)
    requires
        mask != 0,
    ensures
        r < MAX_PRIORITIES,
        bit8_of(mask, r as u8),
        forall|q: int| 0 <= q < r ==> !#[trigger] bit8_of(mask, q as u8),
{
    proof {
        axiom_u8_trailing_zeros(mask);
        let tz = u8_trailing_zeros(mask);
        assert forall|q: int| 0 <= q < tz implies !#[trigger] bit8_of(mask, q as u8) by {
            assert((q as u8) < tz);
        }
    }
    mask.trailing_zeros() as usize
}

} // verus!
