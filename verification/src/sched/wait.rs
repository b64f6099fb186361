//! Blocking primitives on top of the scheduler: wait queues, events and
//! counting semaphores. Tasks are named by their scheduler slots; the
//! caller yields the CPU when a wait reports that the task blocked.

use vstd::prelude::*;
use crate::sched::Scheduler;
use crate::sched::task::TaskState;
use crate::sched::async_rt::NO_TASK;

verus! {

#[derive(Debug, Clone, Copy, PartialEq, Eq, Structural)]
pub struct WaitQueueStats {
    pub waiting: usize,
    pub wakes: u64,
    pub failed_wakes: u64,
}

/// The slots of `s` other than `t`, in order.
pub open spec fn without(s: Seq<usize>, t: usize) -> Seq<usize>
    decreases s.len(),
{
    if s.len() == 0 {
        Seq::empty()
    } else {
        without(s.drop_last(), t) + if s.last() == t { Seq::empty() } else { seq![s.last()] }
    }
}

/// How many of the tasks `ts` are blocked in `sched`.
pub open spec fn blocked_count(sched: Scheduler, ts: Seq<usize>) -> nat
    decreases ts.len(),
{
    if ts.len() == 0 {
        0
    } else {
        blocked_count(sched, ts.drop_last()) + if sched.live(ts.last()) && sched.tcb(ts.last()).state
            == TaskState::Blocked {
            1nat
        } else {
            0nat
        }
    }
}

/// How many of the tasks at the front of `ts` are blocked in `sched`,
/// up to the first that is not.
pub open spec fn leading_blocked(sched: Scheduler, ts: Seq<usize>) -> nat
    decreases ts.len(),
{
    if ts.len() == 0 {
        0
    } else if sched.live(ts[0]) && sched.tcb(ts[0]).state == TaskState::Blocked {
        1 + leading_blocked(sched, ts.drop_first())
    } else {
        0
    }
}

proof fn lemma_blocked_count_le(sched: Scheduler, ts: Seq<usize>)
    ensures
        blocked_count(sched, ts) <= ts.len(),
    decreases ts.len(),
{
    if ts.len() > 0 {
        lemma_blocked_count_le(sched, ts.drop_last());
    }
}

pub proof fn lemma_without_absent(s: Seq<usize>, t: usize)
    requires
        !s.contains(t),
    ensures
        without(s, t) == s,
    decreases s.len(),
{
    if s.len() > 0 {
        assert(!s.drop_last().contains(t)) by {
            if s.drop_last().contains(t) {
                let i = choose|i: int| 0 <= i < s.drop_last().len() && s.drop_last()[i] == t;
                assert(s[i] == t);
            }
        }
        lemma_without_absent(s.drop_last(), t);
        assert(s.drop_last().push(s.last()) =~= s);
    }
}

/// Tasks waiting in arrival order: at most `N`, each once.
pub struct WaitQueue<const N: usize> {
    tasks: Vec<usize>,
    wakes: u64,
    failed_wakes: u64,
}

impl<const N: usize> WaitQueue<N> {
    /// The waiting tasks, first come first.
    pub closed spec fn view(self) -> Seq<usize> {
        self.tasks@
    }

    pub closed spec fn spec_stats(self) -> WaitQueueStats {
        WaitQueueStats { waiting: self.tasks.len(), wakes: self.wakes, failed_wakes: self.failed_wakes }
    }

    pub closed spec fn wf(self) -> bool {
        self.tasks.len() <= N && self.tasks@.no_duplicates()
    }

    pub fn new() -> (r: Self)
        ensures
            r.wf(),
            r.view().len() == 0,
            r.spec_stats() == (WaitQueueStats { waiting: 0, wakes: 0, failed_wakes: 0 }),
    {
        WaitQueue { tasks: Vec::new(), wakes: 0, failed_wakes: 0 }
    }

    pub fn contains(&self, task: usize) -> (r: bool)
        ensures
            r == self.view().contains(task),
    {
        let mut i: usize = 0;
        while i < self.tasks.len()
            invariant
                i <= self.tasks.len(),
                forall|k: int| 0 <= k < i ==> self.tasks@[k] != task,
            decreases self.tasks.len() - i,
        {
            if self.tasks[i] == task {
                proof {
                    assert(self.tasks@[i as int] == task);
                }
                return true;
            }
            i += 1;
        }
        false
    }

    /// Queue `task` at the back, unless it waits already or the queue is
    /// full; whether it was queued.
    pub fn push(&mut self, task: usize) -> (r: bool)
        requires
            old(self).wf(),
        ensures
            final(self).wf(),
            r == (!old(self).view().contains(task) && old(self).view().len() < N),
            r ==> final(self).view() == old(self).view().push(task),
            !r ==> final(self).view() == old(self).view(),
            final(self).spec_stats().wakes == old(self).spec_stats().wakes,
            final(self).spec_stats().failed_wakes == old(self).spec_stats().failed_wakes,
    {
        if self.contains(task) || self.tasks.len() >= N {
            return false;
        }
        let ghost before = self.tasks@;
        self.tasks.push(task);
        proof {
            assert forall|i: int, j: int| 0 <= i < j < self.tasks@.len() implies self.tasks@[i] != self.tasks@[j] by {
                if j == before.len() {
                    assert(before[i] != task);
                }
            }
        }
        true
    }

    /// Take the task that waited longest.
    pub fn pop_front(&mut self) -> (r: Option<usize>)
        requires
            old(self).wf(),
        ensures
            final(self).wf(),
            old(self).view().len() == 0 ==> r is None && final(self).view() == old(self).view(),
            old(self).view().len() > 0 ==> r == Some(old(self).view()[0]) && final(self).view() == old(self).view().drop_first(),
            final(self).spec_stats().wakes == old(self).spec_stats().wakes,
            final(self).spec_stats().failed_wakes == old(self).spec_stats().failed_wakes,
    {
        if self.tasks.len() == 0 {
            return None;
        }
        let ghost before = self.tasks@;
        let t = self.tasks.remove(0);
        proof {
            assert(self.tasks@ =~= before.drop_first());
        }
        Some(t)
    }

    /// Take every waiting task, in order.
    pub fn take_all(&mut self) -> (r: Vec<usize>)
        requires
            old(self).wf(),
        ensures
            final(self).wf(),
            r@ == old(self).view(),
            final(self).view().len() == 0,
            final(self).spec_stats().wakes == old(self).spec_stats().wakes,
            final(self).spec_stats().failed_wakes == old(self).spec_stats().failed_wakes,
    {
        let mut out: Vec<usize> = Vec::new();
        std::mem::swap(&mut out, &mut self.tasks);
        out
    }

    /// Remove `task` from the queue.
    pub fn remove(&mut self, task: usize)
        requires
            old(self).wf(),
        ensures
            final(self).wf(),
            final(self).view() == without(old(self).view(), task),
            final(self).spec_stats().wakes == old(self).spec_stats().wakes,
            final(self).spec_stats().failed_wakes == old(self).spec_stats().failed_wakes,
    {
        let mut kept: Vec<usize> = Vec::new();
        let mut i: usize = 0;
        while i < self.tasks.len()
            invariant
                i <= self.tasks.len(),
                kept@ == without(self.tasks@.subrange(0, i as int), task),
                kept.len() <= i,
                self.tasks.len() <= N,
                self.tasks@.no_duplicates(),
                forall|a: int| 0 <= a < kept.len() ==> exists|b: int| 0 <= b < i && (#[trigger] kept@[a]) == self.tasks@[b],
                kept@.no_duplicates(),
            decreases self.tasks.len() - i,
        {
            proof {
                assert(self.tasks@.subrange(0, i + 1).drop_last() =~= self.tasks@.subrange(0, i as int));
            }
            let x = self.tasks[i];
            if x != task {
                proof {
                    assert forall|a: int| 0 <= a < kept.len() implies kept@[a] != x by {
                        let b = choose|b: int| 0 <= b < i && kept@[a] == self.tasks@[b];
                    }
                }
                kept.push(x);
            }
            i += 1;
        }
        proof {
            assert(self.tasks@.subrange(0, self.tasks@.len() as int) =~= self.tasks@);
        }
        self.tasks = kept;
    }

    /// Block the current task of `sched` on this queue: whether it blocked
    /// (then the caller yields). A task that cannot block leaves the queue
    /// as it was.
    pub fn wait(&mut self, sched: &mut Scheduler) -> (r: bool)
        requires
            old(self).wf(),
            old(sched).wf(),
        ensures
            final(self).wf(),
            final(sched).wf(),
            r == (old(sched).cur_running() && !old(self).view().contains(old(sched).spec_current().unwrap())
                && old(self).view().len() < N),
            r ==> final(self).view() == old(self).view().push(old(sched).spec_current().unwrap()),
            !r ==> final(self).view() == old(self).view(),
    {
        let current = match sched.current_task() {
            Some(c) => c,
            None => return false,
        };
        let queued = self.push(current);
        let blocked = if queued { sched.block_current_task() } else { false };
        if blocked {
            true
        } else {
            if queued {
                let ghost pushed = self.view();
                self.remove(current);
                proof {
                    lemma_without_absent(old(self).view(), current);
                    assert(pushed.drop_last() =~= old(self).view());
                }
            }
            false
        }
    }

    /// Wake the task that waited longest; whether it woke (a task that is
    /// not blocked any more is dropped and counted as a failed wake).
    pub fn wake_one(&mut self, sched: &mut Scheduler, raw_cpu: u32) -> (r: bool)
        requires
            old(self).wf(),
            old(sched).wf(),
        ensures
            final(self).wf(),
            final(sched).wf(),
            old(self).view().len() == 0 ==> !r && final(self).view() == old(self).view()
                && final(self).spec_stats() == old(self).spec_stats() && *final(sched) == *old(sched),
            old(self).view().len() > 0 ==> {
                let t = old(self).view()[0];
                &&& final(self).view() == old(self).view().drop_first()
                &&& Scheduler::tasks_same_except(*final(sched), *old(sched), t)
                &&& r == (old(sched).live(t) && old(sched).tcb(t).state == TaskState::Blocked)
                &&& r ==> final(self).spec_stats().wakes == old(self).spec_stats().wakes.wrapping_add(1)
                    && final(self).spec_stats().failed_wakes == old(self).spec_stats().failed_wakes
                &&& !r ==> final(self).spec_stats().failed_wakes == old(self).spec_stats().failed_wakes.wrapping_add(1)
                    && final(self).spec_stats().wakes == old(self).spec_stats().wakes
            },
    {
        let t = match self.pop_front() {
            Some(t) => t,
            None => return false,
        };
        let woke = sched.wake_blocked_task(t, raw_cpu);
        if woke {
            self.wakes = self.wakes.wrapping_add(1);
        } else {
            self.failed_wakes = self.failed_wakes.wrapping_add(1);
        }
        woke
    }

    /// Wake every waiting task; how many woke (those that were blocked).
    pub fn wake_all(&mut self, sched: &mut Scheduler, raw_cpu: u32) -> (r: usize)
        requires
            old(self).wf(),
            old(sched).wf(),
        ensures
            final(self).wf(),
            final(sched).wf(),
            final(self).view().len() == 0,
            r == blocked_count(*old(sched), old(self).view()),
            r <= old(self).view().len(),
            final(self).spec_stats().wakes == old(self).spec_stats().wakes.wrapping_add(r as u64),
            final(self).spec_stats().failed_wakes == old(self).spec_stats().failed_wakes.wrapping_add(
                (old(self).view().len() - r) as u64,
            ),
            forall|s: usize| !old(self).view().contains(s) ==> #[trigger] final(sched).spec_task(s) == old(sched).spec_task(s),
    {
        let ghost old_sched = *sched;
        let ghost q = self.view();
        let tasks = self.take_all();
        let mut woke: usize = 0;
        let mut failed: usize = 0;
        let mut i: usize = 0;
        while i < tasks.len()
            invariant
                sched.wf(),
                i <= tasks.len(),
                tasks@ == q,
                q.no_duplicates(),
                woke + failed == i,
                woke == blocked_count(old_sched, q.subrange(0, i as int)),
                forall|j: int| i <= j < q.len() ==> #[trigger] sched.spec_task(q[j]) == old_sched.spec_task(q[j]),
                forall|s: usize| !q.contains(s) ==> #[trigger] sched.spec_task(s) == old_sched.spec_task(s),
            decreases tasks.len() - i,
        {
            let ghost before = *sched;
            proof {
                assert(q.subrange(0, i + 1).drop_last() =~= q.subrange(0, i as int));
                lemma_blocked_count_le(old_sched, q.subrange(0, i as int));
            }
            if sched.wake_blocked_task(tasks[i], raw_cpu) {
                woke += 1;
            } else {
                failed += 1;
            }
            proof {
                assert forall|j: int| i + 1 <= j < q.len() implies #[trigger] sched.spec_task(q[j]) == old_sched.spec_task(q[j]) by {
                    assert(q[j] != q[i as int]);
                    assert(sched.spec_task(q[j]) == before.spec_task(q[j]));
                }
                assert forall|s: usize| !q.contains(s) implies #[trigger] sched.spec_task(s) == old_sched.spec_task(s) by {
                    if s == q[i as int] {
                        assert(q.contains(s));
                    }
                    assert(sched.spec_task(s) == before.spec_task(s));
                }
            }
            i += 1;
        }
        proof {
            assert(q.subrange(0, q.len() as int) =~= q);
        }
        self.wakes = self.wakes.wrapping_add(woke as u64);
        self.failed_wakes = self.failed_wakes.wrapping_add(failed as u64);
        woke
    }

    pub fn stats(&self) -> (r: WaitQueueStats)
        ensures
            r == self.spec_stats(),
    {
        WaitQueueStats { waiting: self.tasks.len(), wakes: self.wakes, failed_wakes: self.failed_wakes }
    }
}

#[derive(Debug, Clone, Copy, PartialEq, Eq, Structural)]
pub struct EventStats {
    pub signaled: bool,
    pub waiting: usize,
}

/// A flag that a task waits for, remembered when nobody waits; besides
/// blocked tasks, one async task (an executor slot) may wait for it.
pub struct Event<const N: usize> {
    signaled: bool,
    waiters: WaitQueue<N>,
    async_waiter: usize,
}

impl<const N: usize> Event<N> {
    pub closed spec fn spec_signaled(self) -> bool {
        self.signaled
    }

    /// The executor slot that waits for the event, or [`NO_TASK`].
    pub closed spec fn spec_async_waiter(self) -> usize {
        self.async_waiter
    }

    pub closed spec fn spec_waiters(self) -> Seq<usize> {
        self.waiters.view()
    }

    pub closed spec fn wf(self) -> bool {
        self.waiters.wf()
    }

    pub fn new() -> (r: Self)
        ensures
            r.wf(),
            !r.spec_signaled(),
            r.spec_waiters().len() == 0,
    {
        Event { signaled: false, waiters: WaitQueue::new(), async_waiter: NO_TASK }
    }

    /// Wait for the event: a pending signal is taken at once (true);
    /// else the current task blocks (true, then the caller yields); false
    /// when it can do neither.
    pub fn wait(&mut self, sched: &mut Scheduler) -> (r: bool)
        requires
            old(self).wf(),
            old(sched).wf(),
        ensures
            final(self).wf(),
            final(sched).wf(),
            old(sched).spec_current() is None ==> !r && *final(self) == *old(self),
            old(sched).spec_current() is Some && old(self).spec_signaled() ==> r && !final(self).spec_signaled()
                && final(self).spec_waiters() == old(self).spec_waiters(),
            old(sched).spec_current() is Some && !old(self).spec_signaled() ==> {
                let c = old(sched).spec_current().unwrap();
                &&& r == (old(sched).cur_running() && !old(self).spec_waiters().contains(c)
                    && old(self).spec_waiters().len() < N)
                &&& r ==> final(self).spec_waiters() == old(self).spec_waiters().push(c)
                &&& !r ==> final(self).spec_waiters() == old(self).spec_waiters()
                &&& !final(self).spec_signaled()
            },
    {
        if sched.current_task().is_none() {
            return false;
        }
        if self.signaled {
            self.signaled = false;
            return true;
        }
        self.waiters.wait(sched)
    }

    /// Signal the event: the longest waiter wakes, else the signal is
    /// remembered. Whether a waiter woke.
    pub fn signal(&mut self, sched: &mut Scheduler, raw_cpu: u32) -> (r: bool)
        requires
            old(self).wf(),
            old(sched).wf(),
        ensures
            final(self).wf(),
            final(sched).wf(),
            !r ==> final(self).spec_signaled(),
            r ==> final(self).spec_signaled() == old(self).spec_signaled(),
            old(self).spec_waiters().len() == 0 ==> !r && final(self).spec_signaled() && *final(sched) == *old(sched),
            old(self).spec_waiters().len() > 0 ==> {
                let t = old(self).spec_waiters()[0];
                &&& final(self).spec_waiters() == old(self).spec_waiters().drop_first()
                &&& r == (old(sched).live(t) && old(sched).tcb(t).state == TaskState::Blocked)
            },
    {
        if self.waiters.wake_one(sched, raw_cpu) {
            return true;
        }
        self.signaled = true;
        false
    }

    /// Poll an async wait of the executor slot `current`: a pending signal
    /// is taken (true, and the slot stops waiting); else the slot becomes
    /// the waiter unless another slot waits already (false).
    pub fn poll_wait_async(&mut self, current: usize) -> (r: bool)
        ensures
            r == old(self).spec_signaled(),
            !final(self).spec_signaled(),
            final(self).spec_waiters() == old(self).spec_waiters(),
            final(self).wf() == old(self).wf(),
            r ==> final(self).spec_async_waiter() == if old(self).spec_async_waiter() == current { NO_TASK }
                else { old(self).spec_async_waiter() },
            !r ==> final(self).spec_async_waiter() == if old(self).spec_async_waiter() == NO_TASK { current }
                else { old(self).spec_async_waiter() },
    {
        if self.signaled {
            self.signaled = false;
            if self.async_waiter == current {
                self.async_waiter = NO_TASK;
            }
            true
        } else {
            if self.async_waiter == NO_TASK {
                self.async_waiter = current;
            }
            false
        }
    }

    /// An async wait of slot `waiter` is given up.
    pub fn cancel_wait_async(&mut self, waiter: usize)
        ensures
            final(self).spec_signaled() == old(self).spec_signaled(),
            final(self).spec_waiters() == old(self).spec_waiters(),
            final(self).wf() == old(self).wf(),
            final(self).spec_async_waiter() == if old(self).spec_async_waiter() == waiter { NO_TASK }
                else { old(self).spec_async_waiter() },
    {
        if self.async_waiter == waiter {
            self.async_waiter = NO_TASK;
        }
    }

    /// Signal the event with async waiters in mind: the longest blocked
    /// waiter wakes; else the async waiter, if any, is handed the signal
    /// and returned to be woken; else the signal is remembered. Whether a
    /// waiter was found, and the slot to wake ([`NO_TASK`] for none).
    pub fn signal_async(&mut self, sched: &mut Scheduler, raw_cpu: u32) -> (r: (bool, usize))
        requires
            old(self).wf(),
            old(sched).wf(),
        ensures
            final(self).wf(),
            final(sched).wf(),
            r.1 != NO_TASK ==> r.0 && r.1 == old(self).spec_async_waiter(),
            old(self).spec_waiters().len() == 0 ==> *final(sched) == *old(sched) && final(self).spec_signaled()
                && r == (old(self).spec_async_waiter() != NO_TASK, old(self).spec_async_waiter())
                && final(self).spec_async_waiter() == NO_TASK,
            old(self).spec_waiters().len() > 0 ==> {
                let t = old(self).spec_waiters()[0];
                &&& final(self).spec_waiters() == old(self).spec_waiters().drop_first()
                &&& (old(sched).live(t) && old(sched).tcb(t).state == TaskState::Blocked) ==> r == (true, NO_TASK)
                    && final(self).spec_signaled() == old(self).spec_signaled()
                    && final(self).spec_async_waiter() == old(self).spec_async_waiter()
                &&& !(old(sched).live(t) && old(sched).tcb(t).state == TaskState::Blocked) ==> final(self).spec_signaled()
                    && r == (old(self).spec_async_waiter() != NO_TASK, old(self).spec_async_waiter())
                    && final(self).spec_async_waiter() == NO_TASK
            },
    {
        if self.waiters.wake_one(sched, raw_cpu) {
            return (true, NO_TASK);
        }
        self.signaled = true;
        if self.async_waiter != NO_TASK {
            let task = self.async_waiter;
            self.async_waiter = NO_TASK;
            return (true, task);
        }
        (false, NO_TASK)
    }

    pub fn clear(&mut self)
        ensures
            !final(self).spec_signaled(),
            final(self).spec_waiters() == old(self).spec_waiters(),
            final(self).wf() == old(self).wf(),
    {
        self.signaled = false;
    }

    pub fn is_signaled(&self) -> (r: bool)
        ensures
            r == self.spec_signaled(),
    {
        self.signaled
    }

    pub fn stats(&self) -> (r: EventStats)
        ensures
            r.signaled == self.spec_signaled(),
            r.waiting == self.spec_waiters().len(),
    {
        EventStats { signaled: self.signaled, waiting: self.waiters.stats().waiting }
    }
}

#[derive(Debug, Clone, Copy, PartialEq, Eq, Structural)]
pub struct SemaphoreStats {
    pub permits: usize,
    pub waiting: usize,
}

/// A counting semaphore.
pub struct Semaphore<const N: usize> {
    permits: usize,
    waiters: WaitQueue<N>,
}

impl<const N: usize> Semaphore<N> {
    pub closed spec fn spec_permits(self) -> usize {
        self.permits
    }

    pub closed spec fn spec_waiters(self) -> Seq<usize> {
        self.waiters.view()
    }

    pub closed spec fn wf(self) -> bool {
        self.waiters.wf()
    }

    pub fn new(permits: usize) -> (r: Self)
        ensures
            r.wf(),
            r.spec_permits() == permits,
            r.spec_waiters().len() == 0,
    {
        Semaphore { permits, waiters: WaitQueue::new() }
    }

    /// Take a permit if one is left.
    pub fn try_acquire(&mut self) -> (r: bool)
        ensures
            r == (old(self).spec_permits() > 0),
            r ==> final(self).spec_permits() == old(self).spec_permits() - 1,
            !r ==> final(self).spec_permits() == old(self).spec_permits(),
            final(self).spec_waiters() == old(self).spec_waiters(),
            final(self).wf() == old(self).wf(),
    {
        if self.permits > 0 {
            self.permits -= 1;
            true
        } else {
            false
        }
    }

    /// Take a permit, or block the current task until one is handed over
    /// (true, then the caller yields); false when it can do neither.
    pub fn wait(&mut self, sched: &mut Scheduler) -> (r: bool)
        requires
            old(self).wf(),
            old(sched).wf(),
        ensures
            final(self).wf(),
            final(sched).wf(),
            old(sched).spec_current() is None ==> !r && *final(self) == *old(self),
            old(sched).spec_current() is Some && old(self).spec_permits() > 0 ==> r && final(self).spec_permits()
                == old(self).spec_permits() - 1 && final(self).spec_waiters() == old(self).spec_waiters(),
            old(sched).spec_current() is Some && old(self).spec_permits() == 0 ==> {
                let c = old(sched).spec_current().unwrap();
                &&& r == (old(sched).cur_running() && !old(self).spec_waiters().contains(c)
                    && old(self).spec_waiters().len() < N)
                &&& r ==> final(self).spec_waiters() == old(self).spec_waiters().push(c)
                &&& !r ==> final(self).spec_waiters() == old(self).spec_waiters()
                &&& final(self).spec_permits() == 0
            },
    {
        if sched.current_task().is_none() {
            return false;
        }
        if self.permits > 0 {
            self.permits -= 1;
            return true;
        }
        self.waiters.wait(sched)
    }

    /// Release one permit; how many waiters woke.
    pub fn release(&mut self, sched: &mut Scheduler, raw_cpu: u32) -> (r: usize)
        requires
            old(self).wf(),
            old(sched).wf(),
        ensures
            final(self).wf(),
            final(sched).wf(),
            r == if leading_blocked(*old(sched), old(self).spec_waiters()) > 0 { 1usize } else { 0usize },
            r == 0 ==> final(self).spec_permits() == if old(self).spec_permits() == usize::MAX { usize::MAX }
                else { (old(self).spec_permits() + 1) as usize },
            r == 1 ==> final(self).spec_permits() == old(self).spec_permits(),
            final(self).spec_waiters() == if old(self).spec_waiters().len() > 0 {
                old(self).spec_waiters().drop_first()
            } else {
                old(self).spec_waiters()
            },
    {
        self.release_many(sched, 1, raw_cpu)
    }

    /// Release `count` permits: each wakes a waiter while one wakes; the
    /// rest are added to the permits (saturating). How many woke. A waiter
    /// that was no longer blocked leaves the queue and ends the waking.
    pub fn release_many(&mut self, sched: &mut Scheduler, count: usize, raw_cpu: u32) -> (r: usize)
        requires
            old(self).wf(),
            old(sched).wf(),
        ensures
            final(self).wf(),
            final(sched).wf(),
            ({
                let w = old(self).spec_waiters();
                let lb = leading_blocked(*old(sched), w);
                &&& r == if lb < count { lb } else { count as nat }
                &&& r < count ==> final(self).spec_waiters() == w.subrange(
                    if r < w.len() { r + 1 } else { r as int },
                    w.len() as int,
                )
                &&& r == count ==> final(self).spec_waiters() == w.subrange(r as int, w.len() as int)
            }),
            r < count ==> final(self).spec_permits() == if old(self).spec_permits() + (count - r) > usize::MAX { usize::MAX }
                else { (old(self).spec_permits() + (count - r)) as usize },
            r == count ==> final(self).spec_permits() == old(self).spec_permits(),
    {
        let ghost w = self.waiters.view();
        let ghost old_sched = *sched;
        proof {
            assert(w.subrange(0, w.len() as int) =~= w);
        }
        if count == 0 {
            return 0;
        }
        let mut woke: usize = 0;
        while woke < count
            invariant
                self.wf(),
                sched.wf(),
                woke <= count,
                woke <= w.len(),
                w.no_duplicates(),
                w == old(self).spec_waiters(),
                old_sched == *old(sched),
                self.permits == old(self).permits,
                self.waiters.view() == w.subrange(woke as int, w.len() as int),
                leading_blocked(old_sched, w) == woke + leading_blocked(old_sched, w.subrange(woke as int, w.len() as int)),
                forall|j: int| woke <= j < w.len() ==> #[trigger] sched.spec_task(w[j]) == old_sched.spec_task(w[j]),
            decreases count - woke,
        {
            let ghost before = *sched;
            let ghost rest = w.subrange(woke as int, w.len() as int);
            if self.waiters.wake_one(sched, raw_cpu) {
                proof {
                    assert(rest.drop_first() =~= w.subrange(woke + 1, w.len() as int));
                    assert forall|j: int| woke + 1 <= j < w.len() implies #[trigger] sched.spec_task(w[j]) == old_sched.spec_task(w[j]) by {
                        assert(w[j] != w[woke as int]);
                    }
                }
                woke += 1;
            } else {
                proof {
                    if rest.len() > 0 {
                        assert(rest[0] == w[woke as int]);
                        assert(before.spec_task(rest[0]) == old_sched.spec_task(rest[0]));
                        assert(leading_blocked(old_sched, rest) == 0);
                        assert(rest.drop_first() =~= w.subrange(woke + 1, w.len() as int));
                    } else {
                        assert(leading_blocked(old_sched, rest) == 0);
                    }
                }
                self.permits = self.permits.saturating_add(count - woke);
                return woke;
            }
        }
        woke
    }

    pub fn available(&self) -> (r: usize)
        ensures
            r == self.spec_permits(),
    {
        self.permits
    }

    pub fn stats(&self) -> (r: SemaphoreStats)
        ensures
            r.permits == self.spec_permits(),
            r.waiting == self.spec_waiters().len(),
    {
        SemaphoreStats { permits: self.permits, waiting: self.waiters.stats().waiting }
    }
}

} // verus!
