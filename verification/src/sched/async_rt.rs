//! The cooperative async executor's bookkeeping: task slots, their ready
//! flags, the sleep table and the counters. The futures themselves are
//! kept and polled by the caller, slot by slot.

use vstd::prelude::*;

verus! {

/// The slot index that means "no task".
pub const NO_TASK: usize = usize::MAX;

#[derive(Debug, Clone, Copy, PartialEq, Eq, Structural)]
pub enum SpawnError {
    Disabled,
    NoSlots,
    InvalidConfig,
}

#[derive(Debug, Clone, Copy)]
pub struct AsyncStats {
    pub enabled: bool,
    pub slots: usize,
    pub active: usize,
    pub spawned: u64,
    pub completed: u64,
    pub polls: u64,
    pub wakes: u64,
    pub sleeping: usize,
    pub heartbeat_ticks: u32,
    pub demo_events: u32,
    pub rx_bytes: u32,
    pub rx_events: u32,
    pub last_rx_byte: u8,
}

/// A task slot: taken or not, its name, and whether it is to be polled.
#[derive(Debug, Clone, Copy)]
pub struct AsyncSlot {
    pub occupied: bool,
    pub name: &'static str,
    pub ready: bool,
}

/// A sleeping task and the tick it wakes at.
#[derive(Debug, Clone, Copy, PartialEq, Eq, Structural)]
pub struct SleepSlot {
    pub task_idx: usize,
    pub wake_tick: u32,
    pub active: bool,
}

/// The tasks' futures, polled by slot: whether the future of slot `idx`
/// completed.
pub trait TaskPoller {
    /// The polls made so far, each with its slot and whether the future
    /// completed, for a poller that keeps such a record; `None` for one
    /// that does not.
    open spec fn spec_polls(&self) -> Option<Seq<(usize, bool)>> {
        None
    }

    /// Poll the future of slot `idx`; whether it completed. A poller that
    /// keeps a record adds this poll.
    fn poll(&mut self, idx: usize) -> (r: bool)
        ensures
            old(self).spec_polls() matches Some(l) ==> final(self).spec_polls() == Some(l.push((idx, r))),
            old(self).spec_polls() is None ==> final(self).spec_polls() is None,
    ;
}

/// The slots among the first `n` of `s` that are taken and ready, in
/// order.
pub open spec fn ready_slots(s: Seq<AsyncSlot>, n: int) -> Seq<usize>
    decreases n,
{
    if n <= 0 {
        Seq::empty()
    } else {
        ready_slots(s, n - 1) + if s[n - 1].ready && s[n - 1].occupied { seq![(n - 1) as usize] } else { Seq::empty() }
    }
}

/// The executor.
pub struct Executor {
    enabled: bool,
    slots: Vec<AsyncSlot>,
    sleep_slots: Vec<SleepSlot>,
    spawned: u64,
    completed: u64,
    polls: u64,
    wakes: u64,
    current_poll: usize,
    heartbeat_ticks: u32,
    demo_events: u32,
    rx_bytes: u32,
    rx_events: u32,
    last_rx_byte: u8,
}

/// The tick `wake` has come at tick `now` (within half the tick range).
pub open spec fn tick_due(now: u32, wake: u32) -> bool {
    (if now >= wake { now - wake } else { now + 0x1_0000_0000 - wake }) < u32::MAX / 2
}

fn tick_due_exec(now: u32, wake: u32) -> (r: bool)
    ensures
        r == tick_due(now, wake),
{
    let d: u32 = if now >= wake { now - wake } else { ((now as u64 + 0x1_0000_0000u64 - wake as u64) as u32) };
    d < u32::MAX / 2
}

/// The first entry of `sl` from `k` on in use for task `t`.
pub open spec fn sleep_entry_of(sl: Seq<SleepSlot>, t: usize, k: int) -> Option<int>
    decreases sl.len() - k,
{
    if k < 0 || k >= sl.len() {
        None
    } else if sl[k].active && sl[k].task_idx == t {
        Some(k)
    } else {
        sleep_entry_of(sl, t, k + 1)
    }
}

/// The first entry of `sl` from `k` on not in use.
pub open spec fn free_sleep_entry(sl: Seq<SleepSlot>, k: int) -> Option<int>
    decreases sl.len() - k,
{
    if k < 0 || k >= sl.len() {
        None
    } else if !sl[k].active {
        Some(k)
    } else {
        free_sleep_entry(sl, k + 1)
    }
}

/// How many of the slots `s` hold a task.
pub open spec fn occupied_count(s: Seq<AsyncSlot>) -> nat
    decreases s.len(),
{
    if s.len() == 0 {
        0
    } else {
        occupied_count(s.drop_last()) + if s.last().occupied { 1nat } else { 0nat }
    }
}

/// How many of the sleep entries `s` are in use.
pub open spec fn sleeping_count(s: Seq<SleepSlot>) -> nat
    decreases s.len(),
{
    if s.len() == 0 {
        0
    } else {
        sleeping_count(s.drop_last()) + if s.last().active { 1nat } else { 0nat }
    }
}

/// Taking a free slot adds one to the count of occupied slots.
pub proof fn lemma_occupy(s: Seq<AsyncSlot>, i: int, x: AsyncSlot)
    requires
        0 <= i < s.len(),
        !s[i].occupied,
        x.occupied,
    ensures
        occupied_count(s.update(i, x)) == occupied_count(s) + 1,
    decreases s.len(),
{
    let t = s.update(i, x);
    if i == s.len() - 1 {
        assert(t.drop_last() =~= s.drop_last());
    } else {
        assert(t.drop_last() =~= s.drop_last().update(i, x));
        lemma_occupy(s.drop_last(), i, x);
    }
}

impl Executor {
    pub closed spec fn spec_slots(self) -> Seq<AsyncSlot> {
        self.slots@
    }

    pub closed spec fn spec_sleep(self) -> Seq<SleepSlot> {
        self.sleep_slots@
    }

    pub closed spec fn spec_enabled(self) -> bool {
        self.enabled
    }

    pub closed spec fn spec_current_poll(self) -> usize {
        self.current_poll
    }

    pub closed spec fn counts(self) -> (u64, u64, u64, u64) {
        (self.spawned, self.completed, self.polls, self.wakes)
    }

    pub closed spec fn rx(self) -> (u32, u8) {
        (self.rx_bytes, self.last_rx_byte)
    }

    pub closed spec fn wf(self) -> bool {
        self.sleep_slots.len() == self.slots.len()
    }

    /// An executor of `slots` task slots, enabled or not by the
    /// configuration.
    pub fn new(enabled: bool, slots: usize) -> (r: Self)
        ensures
            r.wf(),
            r.spec_enabled() == enabled,
            r.spec_slots().len() == slots,
            forall|i: int| 0 <= i < slots ==> !(#[trigger] r.spec_slots()[i]).occupied,
            forall|i: int| 0 <= i < slots ==> !(#[trigger] r.spec_sleep()[i]).active,
            r.spec_current_poll() == NO_TASK,
    {
        let mut s: Vec<AsyncSlot> = Vec::new();
        let mut z: Vec<SleepSlot> = Vec::new();
        let mut i: usize = 0;
        while i < slots
            invariant
                i <= slots,
                s.len() == i,
                z.len() == i,
                forall|k: int| 0 <= k < i ==> !(#[trigger] s@[k]).occupied,
                forall|k: int| 0 <= k < i ==> !(#[trigger] z@[k]).active,
            decreases slots - i,
        {
            s.push(AsyncSlot { occupied: false, name: "", ready: false });
            z.push(SleepSlot { task_idx: NO_TASK, wake_tick: 0, active: false });
            i += 1;
        }
        Executor {
            enabled,
            slots: s,
            sleep_slots: z,
            spawned: 0,
            completed: 0,
            polls: 0,
            wakes: 0,
            current_poll: NO_TASK,
            heartbeat_ticks: 0,
            demo_events: 0,
            rx_bytes: 0,
            rx_events: 0,
            last_rx_byte: 0,
        }
    }

    /// Mark the task of slot `idx` to be polled, when the slot is taken.
    pub fn mark_ready(&mut self, idx: usize)
        requires
            old(self).wf(),
        ensures
            final(self).wf(),
            final(self).spec_sleep() == old(self).spec_sleep(),
            final(self).spec_enabled() == old(self).spec_enabled(),
            final(self).spec_current_poll() == old(self).spec_current_poll(),
            idx < old(self).spec_slots().len() && old(self).spec_slots()[idx as int].occupied ==> {
                &&& final(self).spec_slots() == old(self).spec_slots().update(idx as int,
                    AsyncSlot { ready: true, ..old(self).spec_slots()[idx as int] })
                &&& final(self).counts().3 == old(self).counts().3.wrapping_add(1)
            },
            !(idx < old(self).spec_slots().len() && old(self).spec_slots()[idx as int].occupied) ==> final(self).spec_slots()
                == old(self).spec_slots() && final(self).counts() == old(self).counts(),
    {
        if idx < self.slots.len() && self.slots[idx].occupied {
            let s = self.slots[idx];
            self.slots.set(idx, AsyncSlot { ready: true, ..s });
            self.wakes = self.wakes.wrapping_add(1);
        }
    }

    /// Put task `task_idx` to sleep until `wake_tick`: its sleep entry is
    /// updated, or the first free entry taken; with none free it is marked
    /// ready at once.
    pub fn register_sleep(&mut self, task_idx: usize, wake_tick: u32)
        requires
            old(self).wf(),
        ensures
            final(self).wf(),
            final(self).spec_enabled() == old(self).spec_enabled(),
            final(self).spec_current_poll() == old(self).spec_current_poll(),
            ({
                let entry = SleepSlot { task_idx, wake_tick, active: true };
                match sleep_entry_of(old(self).spec_sleep(), task_idx, 0) {
                    Some(i) => final(self).spec_sleep() == old(self).spec_sleep().update(i, entry)
                        && final(self).spec_slots() == old(self).spec_slots(),
                    None => match free_sleep_entry(old(self).spec_sleep(), 0) {
                        Some(i) => final(self).spec_sleep() == old(self).spec_sleep().update(i, entry)
                            && final(self).spec_slots() == old(self).spec_slots(),
                        None => final(self).spec_sleep() == old(self).spec_sleep() && final(self).spec_slots() == if task_idx
                            < old(self).spec_slots().len() && old(self).spec_slots()[task_idx as int].occupied {
                            old(self).spec_slots().update(task_idx as int, AsyncSlot { ready: true, ..old(self).spec_slots()[task_idx as int] })
                        } else {
                            old(self).spec_slots()
                        },
                    },
                }
            }),
    {
        let mut i: usize = 0;
        while i < self.sleep_slots.len()
            invariant
                self.wf(),
                *self == *old(self),
                i <= self.sleep_slots.len(),
                sleep_entry_of(self.sleep_slots@, task_idx, 0) == sleep_entry_of(self.sleep_slots@, task_idx, i as int),
            decreases self.sleep_slots.len() - i,
        {
            let s = self.sleep_slots[i];
            if s.active && s.task_idx == task_idx {
                self.sleep_slots.set(i, SleepSlot { task_idx, wake_tick, active: true });
                return;
            }
            i += 1;
        }
        let mut i: usize = 0;
        while i < self.sleep_slots.len()
            invariant
                self.wf(),
                *self == *old(self),
                i <= self.sleep_slots.len(),
                sleep_entry_of(self.sleep_slots@, task_idx, 0) is None,
                free_sleep_entry(self.sleep_slots@, 0) == free_sleep_entry(self.sleep_slots@, i as int),
            decreases self.sleep_slots.len() - i,
        {
            if !self.sleep_slots[i].active {
                self.sleep_slots.set(i, SleepSlot { task_idx, wake_tick, active: true });
                return;
            }
            i += 1;
        }
        self.mark_ready(task_idx);
    }

    /// Drop the sleep entry of task `task_idx`.
    pub fn clear_sleep(&mut self, task_idx: usize)
        requires
            old(self).wf(),
        ensures
            final(self).wf(),
            final(self).spec_slots() == old(self).spec_slots(),
            final(self).counts() == old(self).counts(),
            final(self).spec_enabled() == old(self).spec_enabled(),
            final(self).spec_current_poll() == old(self).spec_current_poll(),
            match sleep_entry_of(old(self).spec_sleep(), task_idx, 0) {
                Some(i) => final(self).spec_sleep() == old(self).spec_sleep().update(i,
                    SleepSlot { task_idx: NO_TASK, wake_tick: 0, active: false }),
                None => final(self).spec_sleep() == old(self).spec_sleep(),
            },
    {
        let mut i: usize = 0;
        while i < self.sleep_slots.len()
            invariant
                self.wf(),
                *self == *old(self),
                i <= self.sleep_slots.len(),
                sleep_entry_of(self.sleep_slots@, task_idx, 0) == sleep_entry_of(self.sleep_slots@, task_idx, i as int),
            decreases self.sleep_slots.len() - i,
        {
            let s = self.sleep_slots[i];
            if s.active && s.task_idx == task_idx {
                self.sleep_slots.set(i, SleepSlot { task_idx: NO_TASK, wake_tick: 0, active: false });
                return;
            }
            i += 1;
        }
    }
}

/// Take a free slot for a task named `name`, ready to be polled; its
/// index.
pub fn spawn(exec: &mut Executor, name: &'static str) -> (r: Result<usize, SpawnError>)
    requires
        old(exec).wf(),
    ensures
        final(exec).wf(),
        !old(exec).spec_enabled() ==> r == Err::<usize, SpawnError>(SpawnError::Disabled),
        old(exec).spec_enabled() && old(exec).spec_slots().len() == 0 ==> r == Err::<usize, SpawnError>(SpawnError::InvalidConfig),
        r is Ok ==> {
            let i = r.unwrap();
            &&& i < old(exec).spec_slots().len()
            &&& !old(exec).spec_slots()[i as int].occupied
            &&& forall|j: int| 0 <= j < i ==> (#[trigger] old(exec).spec_slots()[j]).occupied
            &&& final(exec).spec_slots() == old(exec).spec_slots().update(i as int, AsyncSlot { occupied: true, name, ready: true })
            &&& final(exec).counts().0 == old(exec).counts().0.wrapping_add(1)
        },
        r == Err::<usize, SpawnError>(SpawnError::NoSlots) <==> old(exec).spec_enabled() && old(exec).spec_slots().len()
            > 0 && forall|j: int| 0 <= j < old(exec).spec_slots().len() ==> (#[trigger] old(exec).spec_slots()[j]).occupied,
        r is Ok ==> occupied_count(final(exec).spec_slots()) == occupied_count(old(exec).spec_slots()) + 1,
        r is Err ==> *final(exec) == *old(exec),
{
    if !exec.enabled {
        return Err(SpawnError::Disabled);
    }
    if exec.slots.len() == 0 {
        return Err(SpawnError::InvalidConfig);
    }
    let mut i: usize = 0;
    while i < exec.slots.len()
        invariant
            exec.wf(),
            exec.enabled,
            *exec == *old(exec),
            i <= exec.slots.len(),
            forall|j: int| 0 <= j < i ==> (#[trigger] exec.slots@[j]).occupied,
        decreases exec.slots.len() - i,
    {
        if !exec.slots[i].occupied {
            proof {
                lemma_occupy(exec.slots@, i as int, AsyncSlot { occupied: true, name, ready: true });
            }
            exec.slots.set(i, AsyncSlot { occupied: true, name, ready: true });
            exec.spawned = exec.spawned.wrapping_add(1);
            return Ok(i);
        }
        i += 1;
    }
    Err(SpawnError::NoSlots)
}

/// The slot being polled, or [`NO_TASK`].
pub fn current_poll_task(exec: &Executor) -> (r: usize)
    ensures
        r == exec.spec_current_poll(),
{
    exec.current_poll
}

/// How many of `s` are taken and ready to be polled.
pub open spec fn ready_count(s: Seq<AsyncSlot>) -> nat
    decreases s.len(),
{
    if s.len() == 0 {
        0
    } else {
        ready_count(s.drop_last()) + if s.last().ready && s.last().occupied { 1nat } else { 0nat }
    }
}

/// How many slots that `before` had ready and taken are free in `after`
/// (compared slot by slot).
pub open spec fn freed_count(before: Seq<AsyncSlot>, after: Seq<AsyncSlot>) -> nat
    decreases before.len(),
{
    if before.len() == 0 || after.len() == 0 {
        0
    } else {
        freed_count(before.drop_last(), after.drop_last()) + if before.last().ready && before.last().occupied
            && !after.last().occupied {
            1nat
        } else {
            0nat
        }
    }
}

/// What a slot that completed leaves behind.
pub open spec fn freed_slot() -> AsyncSlot {
    AsyncSlot { occupied: false, name: "", ready: false }
}

/// One more step of a 64-bit counter that counts `n` modulo 2^64.
proof fn lemma_wrapping_step64(x: u64, n: int)
    requires
        n >= 0,
        x as int == n % 0x1_0000_0000_0000_0000,
    ensures
        x.wrapping_add(1) as int == (n + 1) % 0x1_0000_0000_0000_0000,
{
    vstd::arithmetic::div_mod::lemma_fundamental_div_mod(n, 0x1_0000_0000_0000_0000);
    let q = n / 0x1_0000_0000_0000_0000;
    if x == u64::MAX {
        vstd::arithmetic::div_mod::lemma_fundamental_div_mod_converse(n + 1, 0x1_0000_0000_0000_0000, q + 1, 0);
    } else {
        vstd::arithmetic::div_mod::lemma_fundamental_div_mod_converse(n + 1, 0x1_0000_0000_0000_0000, q, x + 1);
    }
}

/// Poll each ready task once, in slot order: its ready flag is cleared, it
/// is polled, and a completed task frees its slot and its sleep entry.
/// How many were polled.
pub fn poll_once<P: TaskPoller>(exec: &mut Executor, tasks: &mut P) -> (r: usize)
    requires
        old(exec).wf(),
    ensures
        final(exec).wf(),
        r == ready_count(old(exec).spec_slots()),
        final(exec).spec_slots().len() == old(exec).spec_slots().len(),
        final(exec).spec_current_poll() == old(exec).spec_current_poll(),
        forall|i: int| 0 <= i < old(exec).spec_slots().len() ==> !(#[trigger] final(exec).spec_slots()[i]).ready,
        forall|i: int| 0 <= i < old(exec).spec_slots().len() && !old(exec).spec_slots()[i].ready
            ==> #[trigger] final(exec).spec_slots()[i] == old(exec).spec_slots()[i],
        forall|i: int| 0 <= i < old(exec).spec_slots().len() && !old(exec).spec_slots()[i].occupied
            ==> !(#[trigger] final(exec).spec_slots()[i]).occupied,
        forall|i: int| 0 <= i < old(exec).spec_slots().len() && old(exec).spec_slots()[i].ready
            && old(exec).spec_slots()[i].occupied ==> #[trigger] final(exec).spec_slots()[i] == freed_slot()
            || final(exec).spec_slots()[i] == (AsyncSlot { ready: false, ..old(exec).spec_slots()[i] }),
        final(exec).counts().1 as int == (old(exec).counts().1 + freed_count(old(exec).spec_slots(), final(exec).spec_slots()))
            % 0x1_0000_0000_0000_0000,
        old(tasks).spec_polls() is None ==> final(tasks).spec_polls() is None,
        old(tasks).spec_polls() matches Some(l0) ==> ({
            let l = final(tasks).spec_polls().unwrap();
            let tail = l.subrange(l0.len() as int, l.len() as int);
            let want = ready_slots(old(exec).spec_slots(), old(exec).spec_slots().len() as int);
            &&& final(tasks).spec_polls() is Some
            &&& l.len() >= l0.len()
            &&& l.subrange(0, l0.len() as int) == l0
            &&& tail.len() == want.len()
            &&& forall|j: int| 0 <= j < tail.len() ==> (#[trigger] tail[j]).0 == want[j]
            &&& forall|j: int| 0 <= j < tail.len() ==> #[trigger] final(exec).spec_slots()[tail[j].0 as int] == if tail[j].1 {
                freed_slot()
            } else {
                AsyncSlot { ready: false, ..old(exec).spec_slots()[tail[j].0 as int] }
            }
        }),
{
    let n = exec.slots.len();
    let ghost l0 = tasks.spec_polls();
    let mut polled: usize = 0;
    let mut idx: usize = 0;
    let ghost prev_poll = exec.current_poll;
    let ghost s0 = exec.slots@;
    proof {
        assert(s0.subrange(0, 0) =~= Seq::<AsyncSlot>::empty());
        if l0 is Some {
            assert(tasks.spec_polls().unwrap().subrange(0, l0.unwrap().len() as int) =~= l0.unwrap());
        }
    }
    while idx < n
        invariant
            l0 == old(tasks).spec_polls(),
            l0 is None ==> tasks.spec_polls() is None,
            l0 matches Some(z) ==> ({
                let l = tasks.spec_polls().unwrap();
                let tail = l.subrange(z.len() as int, l.len() as int);
                let want = ready_slots(s0, idx as int);
                &&& tasks.spec_polls() is Some
                &&& l.len() >= z.len()
                &&& l.subrange(0, z.len() as int) == z
                &&& tail.len() == want.len()
                &&& forall|j: int| 0 <= j < tail.len() ==> (#[trigger] tail[j]).0 == want[j] && want[j] < idx
                &&& forall|j: int| 0 <= j < tail.len() ==> #[trigger] exec.slots@[tail[j].0 as int] == if tail[j].1 {
                    freed_slot()
                } else {
                    AsyncSlot { ready: false, ..s0[tail[j].0 as int] }
                }
            }),
            exec.wf(),
            exec.slots.len() == n,
            s0.len() == n,
            s0 == old(exec).spec_slots(),
            idx <= n,
            polled == ready_count(s0.subrange(0, idx as int)),
            polled <= idx,
            exec.current_poll == prev_poll,
            forall|i: int| 0 <= i < idx ==> !(#[trigger] exec.slots@[i]).ready,
            forall|i: int| idx <= i < n ==> #[trigger] exec.slots@[i] == s0[i],
            forall|i: int| 0 <= i < idx && !s0[i].ready ==> #[trigger] exec.slots@[i] == s0[i],
            forall|i: int| 0 <= i < idx && !s0[i].occupied ==> !(#[trigger] exec.slots@[i]).occupied,
            forall|i: int| 0 <= i < idx && s0[i].ready && s0[i].occupied ==> #[trigger] exec.slots@[i] == freed_slot()
                || exec.slots@[i] == (AsyncSlot { ready: false, ..s0[i] }),
            exec.completed as int == (old(exec).counts().1 + freed_count(s0.subrange(0, idx as int), exec.slots@.subrange(0, idx as int)))
                % 0x1_0000_0000_0000_0000,
        decreases n - idx,
    {
        let ghost pre = exec.slots@;
        let ghost log_start = tasks.spec_polls();
        let ghost mut polled_now = false;
        let ghost mut done_now = false;
        proof {
            assert(s0.subrange(0, idx + 1).drop_last() =~= s0.subrange(0, idx as int));
        }
        let s = exec.slots[idx];
        if s.ready && s.occupied {
            exec.slots.set(idx, AsyncSlot { ready: false, ..s });
            let saved = exec.current_poll;
            exec.current_poll = idx;
            let ghost before_log = tasks.spec_polls();
            let done = tasks.poll(idx);
            proof {
                polled_now = true;
                done_now = done;
            }
            exec.current_poll = saved;
            polled += 1;
            exec.polls = exec.polls.wrapping_add(1);
            if done {
                exec.slots.set(idx, AsyncSlot { occupied: false, name: "", ready: false });
                exec.clear_sleep(idx);
                proof {
                    lemma_wrapping_step64(exec.completed, old(exec).counts().1 + freed_count(s0.subrange(0, idx as int), pre.subrange(0, idx as int)));
                }
                exec.completed = exec.completed.wrapping_add(1);
            }
        } else if s.ready {
            exec.slots.set(idx, AsyncSlot { ready: false, ..s });
        }
        proof {
            assert(exec.slots@.subrange(0, idx + 1).drop_last() =~= pre.subrange(0, idx as int));
            assert(s0.subrange(0, idx + 1).last() == s0[idx as int]);
            assert(exec.slots@.subrange(0, idx + 1).last() == exec.slots@[idx as int]);
            assert(ready_slots(s0, idx + 1) == ready_slots(s0, idx as int) + if s0[idx as int].ready && s0[idx as int].occupied {
                seq![idx]
            } else {
                Seq::<usize>::empty()
            });
            if l0 is Some {
                let z = l0.unwrap();
                let ls = log_start.unwrap();
                let l = tasks.spec_polls().unwrap();
                let ts = ls.subrange(z.len() as int, ls.len() as int);
                let tail = l.subrange(z.len() as int, l.len() as int);
                let want = ready_slots(s0, idx + 1);
                assert(polled_now == (s0[idx as int].ready && s0[idx as int].occupied));
                if polled_now {
                    assert(l == ls.push((idx, done_now)));
                    assert(tail =~= ts.push((idx, done_now)));
                    assert(l.subrange(0, z.len() as int) =~= ls.subrange(0, z.len() as int));
                    assert(exec.slots@[idx as int] == if done_now { freed_slot() } else { AsyncSlot { ready: false, ..s0[idx as int] } });
                } else {
                    assert(l == ls);
                    assert(want =~= ready_slots(s0, idx as int));
                }
                assert forall|j: int| 0 <= j < tail.len() implies (#[trigger] tail[j]).0 == want[j] && want[j] < idx + 1 by {
                    if j < ts.len() {
                        assert(tail[j] == ts[j]);
                    }
                }
                assert forall|j: int| 0 <= j < tail.len() implies #[trigger] exec.slots@[tail[j].0 as int] == if tail[j].1 {
                    freed_slot()
                } else {
                    AsyncSlot { ready: false, ..s0[tail[j].0 as int] }
                } by {
                    if j < ts.len() {
                        assert(tail[j] == ts[j]);
                        assert(ts[j].0 < idx);
                        assert(exec.slots@[ts[j].0 as int] == pre[ts[j].0 as int]);
                    }
                }
            }
        }
        idx += 1;
    }
    proof {
        assert(s0.subrange(0, n as int) =~= s0);
        assert(exec.slots@.subrange(0, n as int) =~= exec.slots@);
    }
    polled
}

/// The sleep entry `e` is in use and its tick has come at `now`.
pub open spec fn due_entry(e: SleepSlot, now: u32) -> bool {
    e.active && tick_due(now, e.wake_tick)
}

/// One of the first `n` entries of `sl` is due at `now` for task `j`.
pub open spec fn woken_by(sl: Seq<SleepSlot>, now: u32, n: int, j: int) -> bool {
    exists|i: int| 0 <= i < n && #[trigger] due_entry(sl[i], now) && sl[i].task_idx == j
}

/// At tick `now`, wake each sleeping task whose wake tick has come: its
/// sleep entry is freed and its slot, when taken, is marked ready.
pub fn tick_update(exec: &mut Executor, now: u32)
    requires
        old(exec).wf(),
    ensures
        final(exec).wf(),
        final(exec).spec_sleep().len() == old(exec).spec_sleep().len(),
        forall|i: int| 0 <= i < old(exec).spec_sleep().len() ==> #[trigger] final(exec).spec_sleep()[i]
            == if due_entry(old(exec).spec_sleep()[i], now) { SleepSlot { task_idx: NO_TASK, wake_tick: 0, active: false } }
            else { old(exec).spec_sleep()[i] },
        final(exec).spec_slots().len() == old(exec).spec_slots().len(),
        forall|j: int| 0 <= j < old(exec).spec_slots().len() ==> #[trigger] final(exec).spec_slots()[j]
            == if woken_by(old(exec).spec_sleep(), now, old(exec).spec_sleep().len() as int, j)
                && old(exec).spec_slots()[j].occupied { AsyncSlot { ready: true, ..old(exec).spec_slots()[j] } }
            else { old(exec).spec_slots()[j] },
        final(exec).spec_enabled() == old(exec).spec_enabled(),
        final(exec).spec_current_poll() == old(exec).spec_current_poll(),
{
    let n = exec.sleep_slots.len();
    let ghost sl0 = exec.sleep_slots@;
    let ghost sv0 = exec.slots@;
    let mut i: usize = 0;
    while i < n
        invariant
            exec.wf(),
            exec.sleep_slots.len() == n,
            sl0.len() == n,
            sl0 == old(exec).spec_sleep(),
            sv0 == old(exec).spec_slots(),
            exec.slots.len() == sv0.len(),
            i <= n,
            exec.enabled == old(exec).enabled,
            exec.current_poll == old(exec).current_poll,
            forall|k: int| 0 <= k < i ==> #[trigger] exec.sleep_slots@[k]
                == if due_entry(sl0[k], now) { SleepSlot { task_idx: NO_TASK, wake_tick: 0, active: false } } else { sl0[k] },
            forall|k: int| i <= k < n ==> #[trigger] exec.sleep_slots@[k] == sl0[k],
            forall|j: int| 0 <= j < sv0.len() ==> #[trigger] exec.slots@[j]
                == if woken_by(sl0, now, i as int, j) && sv0[j].occupied { AsyncSlot { ready: true, ..sv0[j] } } else { sv0[j] },
        decreases n - i,
    {
        let s = exec.sleep_slots[i];
        let ghost before = exec.slots@;
        if s.active && tick_due_exec(now, s.wake_tick) {
            exec.sleep_slots.set(i, SleepSlot { task_idx: NO_TASK, wake_tick: 0, active: false });
            exec.mark_ready(s.task_idx);
            proof {
                assert(due_entry(sl0[i as int], now));
                assert forall|j: int| 0 <= j < sv0.len() implies #[trigger] exec.slots@[j]
                    == if woken_by(sl0, now, i + 1, j) && sv0[j].occupied { AsyncSlot { ready: true, ..sv0[j] } } else { sv0[j] } by {
                    if j == s.task_idx {
                        assert(woken_by(sl0, now, i + 1, j));
                    } else {
                        if woken_by(sl0, now, i + 1, j) {
                            let w = choose|w: int| 0 <= w < i + 1 && #[trigger] due_entry(sl0[w], now) && sl0[w].task_idx == j;
                            assert(w != i);
                            assert(woken_by(sl0, now, i as int, j));
                        }
                    }
                }
            }
        } else {
            proof {
                assert(!due_entry(sl0[i as int], now));
                assert forall|j: int| 0 <= j < sv0.len() implies #[trigger] exec.slots@[j]
                    == if woken_by(sl0, now, i + 1, j) && sv0[j].occupied { AsyncSlot { ready: true, ..sv0[j] } } else { sv0[j] } by {
                    if woken_by(sl0, now, i + 1, j) {
                        let w = choose|w: int| 0 <= w < i + 1 && #[trigger] due_entry(sl0[w], now) && sl0[w].task_idx == j;
                        assert(w != i);
                        assert(woken_by(sl0, now, i as int, j));
                    }
                }
            }
        }
        i += 1;
    }
}

/// Mark slot `idx` to be polled.
pub fn wake_task(exec: &mut Executor, idx: usize)
    requires
        old(exec).wf(),
    ensures
        final(exec).wf(),
        idx < old(exec).spec_slots().len() && old(exec).spec_slots()[idx as int].occupied ==> final(exec).spec_slots()
            == old(exec).spec_slots().update(idx as int, AsyncSlot { ready: true, ..old(exec).spec_slots()[idx as int] }),
        !(idx < old(exec).spec_slots().len() && old(exec).spec_slots()[idx as int].occupied) ==> final(exec).spec_slots()
            == old(exec).spec_slots(),
{
    if idx < exec.slots.len() {
        exec.mark_ready(idx);
    }
}

/// Count a received byte.
pub fn note_rx_byte(exec: &mut Executor, byte: u8)
    ensures
        final(exec).rx() == (old(exec).rx().0.wrapping_add(1), byte),
        final(exec).spec_slots() == old(exec).spec_slots(),
        final(exec).spec_sleep() == old(exec).spec_sleep(),
{
    exec.last_rx_byte = byte;
    exec.rx_bytes = exec.rx_bytes.wrapping_add(1);
}

/// The counters and the numbers of active and sleeping tasks.
pub fn stats(exec: &Executor) -> (r: AsyncStats)
    requires
        exec.wf(),
    ensures
        r.enabled == exec.spec_enabled(),
        r.slots == exec.spec_slots().len(),
        (r.spawned, r.completed, r.polls, r.wakes) == exec.counts(),
        r.rx_bytes == exec.rx().0,
        r.last_rx_byte == exec.rx().1,
        r.active == occupied_count(exec.spec_slots()),
        r.sleeping == sleeping_count(exec.spec_sleep()),
        r.active <= r.slots,
        r.sleeping <= r.slots,
{
    let mut active: usize = 0;
    let mut sleeping: usize = 0;
    let mut i: usize = 0;
    while i < exec.slots.len()
        invariant
            exec.wf(),
            i <= exec.slots.len(),
            active <= i,
            sleeping <= i,
            active == occupied_count(exec.slots@.subrange(0, i as int)),
            sleeping == sleeping_count(exec.sleep_slots@.subrange(0, i as int)),
        decreases exec.slots.len() - i,
    {
        proof {
            assert(exec.slots@.subrange(0, i + 1).drop_last() =~= exec.slots@.subrange(0, i as int));
            assert(exec.sleep_slots@.subrange(0, i + 1).drop_last() =~= exec.sleep_slots@.subrange(0, i as int));
        }
        if exec.slots[i].occupied {
            active += 1;
        }
        if exec.sleep_slots[i].active {
            sleeping += 1;
        }
        i += 1;
    }
    proof {
        assert(exec.slots@.subrange(0, exec.slots@.len() as int) =~= exec.slots@);
        assert(exec.sleep_slots@.subrange(0, exec.sleep_slots@.len() as int) =~= exec.sleep_slots@);
    }
    AsyncStats {
        enabled: exec.enabled,
        slots: exec.slots.len(),
        active,
        spawned: exec.spawned,
        completed: exec.completed,
        polls: exec.polls,
        wakes: exec.wakes,
        sleeping,
        heartbeat_ticks: exec.heartbeat_ticks,
        demo_events: exec.demo_events,
        rx_bytes: exec.rx_bytes,
        rx_events: exec.rx_events,
        last_rx_byte: exec.last_rx_byte,
    }
}

/// A sleep until a tick: the tick, and whether the task is registered in
/// the sleep table.
#[derive(Debug, Clone, Copy, PartialEq, Eq, Structural)]
pub struct SleepTicks {
    pub wake_tick: u32,
    pub registered: bool,
}

/// A sleep of `ticks` ticks from tick `now` (wrapping).
pub fn sleep_ticks(now: u32, ticks: u32) -> (r: SleepTicks)
    ensures
        r.wake_tick == now.wrapping_add(ticks),
        !r.registered,
{
    SleepTicks { wake_tick: now.wrapping_add(ticks), registered: false }
}

impl SleepTicks {
    /// Poll the sleep at tick `now`: done when the tick has come; else the
    /// polled task is registered to sleep (once).
    pub fn poll_sleep(&mut self, exec: &mut Executor, now: u32) -> (done: bool)
        requires
            old(exec).wf(),
        ensures
            final(exec).wf(),
            done == tick_due(now, old(self).wake_tick),
            final(self).wake_tick == old(self).wake_tick,
            done ==> *final(exec) == *old(exec) && final(self).registered == old(self).registered,
            !done ==> final(self).registered == (old(self).registered || old(exec).spec_current_poll() != NO_TASK),
            !done && (old(self).registered || old(exec).spec_current_poll() == NO_TASK) ==> *final(exec) == *old(exec),
            final(exec).spec_current_poll() == old(exec).spec_current_poll(),
    {
        if tick_due_exec(now, self.wake_tick) {
            return true;
        }
        if !self.registered {
            let task = exec.current_poll;
            if task != NO_TASK {
                exec.register_sleep(task, self.wake_tick);
                self.registered = true;
            }
        }
        false
    }
}

} // verus!
