//! Priority scheduler: task pool, per-CPU ready queues and the sleep queue.
//!
//! The scheduler is a plain value. The architecture layer owns it behind its
//! interrupt-safe lock, performs the context switch that the scheduler
//! decides (`next` task), and reports the switch back with
//! [`Scheduler::switch_to_next`].

pub mod task;
pub mod ready_queue;
pub mod percpu;
pub mod wait;
pub mod async_rt;

use vstd::prelude::*;
use crate::mm::slab::{Slab, lemma_set_below_bound};
use ready_queue::{MAX_PRIORITY, MAX_PRIORITIES, MAX_TASKS, ReadyQueue, top_from, all_empty, flat};
use task::{CpuAffinity, Priority, TaskControlBlock, TaskId, TaskState};
use vstd::wrapping::{u32_specs, u64_specs};

verus! {

/// Capacity of the task pool.
pub const TASK_CAP: usize = 32;

/// Capacity of a task snapshot.
pub const TASK_SNAPSHOT_CAP: usize = TASK_CAP;

/// Most CPUs the scheduler can drive.
pub const MAX_CPUS: usize = 4;

/// Per-CPU scheduler state.
pub struct CpuScheduler {
    pub ready_queue: ReadyQueue,
    pub idle_task: Option<TaskId>,
    pub preempt_pending: bool,
    pub context_switches: u64,
    pub preemptions: u64,
    pub steal_attempts: u64,
    pub steal_successes: u64,
}

impl CpuScheduler {
    pub fn new() -> (r: Self)
        ensures
            r.ready_queue.wf(),
            all_empty(r.ready_queue.view()),
            r.ready_queue.members() == Set::<usize>::empty(),
            r.idle_task is None,
            !r.preempt_pending,
            r.context_switches == 0,
            r.preemptions == 0,
            r.steal_attempts == 0,
            r.steal_successes == 0,
    {
        CpuScheduler {
            ready_queue: ReadyQueue::new(),
            idle_task: None,
            preempt_pending: false,
            context_switches: 0,
            preemptions: 0,
            steal_attempts: 0,
            steal_successes: 0,
        }
    }
}

pub struct Scheduler {
    cpu_scheds: Vec<CpuScheduler>,
    task_id_counter: u32,
    sleep_queue: Vec<usize>,
    tasks: Slab<TaskControlBlock, TASK_CAP>,
    current: Option<usize>,
    next: Option<usize>,
    active_mask: usize,
}

/// Public view of a task, as shown by `tasks`/`ps`.
#[derive(Clone, Copy)]
pub struct TaskInfo {
    pub id: TaskId,
    pub name: &'static str,
    pub priority: Priority,
    pub state: TaskState,
    pub stack_size: usize,
    pub wakeup_tick: u32,
    pub queued: bool,
    pub current: bool,
}

#[derive(Clone, Copy)]
pub struct SchedulerStats {
    pub ready_tasks: usize,
    pub highest_ready_priority: Priority,
    pub current_task: Option<TaskInfo>,
    pub context_switches: u64,
    pub preemptions: u64,
    pub preempt_pending: bool,
    pub current_cpu: usize,
    pub active_cpu_mask: usize,
    pub steal_attempts: u64,
    pub steal_successes: u64,
}

pub open spec fn spec_task_info(t: TaskControlBlock, current: bool) -> TaskInfo {
    TaskInfo {
        id: t.id,
        name: t.name,
        priority: t.priority,
        state: t.state,
        stack_size: t.stack_size,
        wakeup_tick: t.wakeup_tick,
        queued: t.queued,
        current,
    }
}

/// The public view of a task.
pub fn task_info(task: &TaskControlBlock, current: bool) -> (r: TaskInfo)
    ensures
        r == spec_task_info(*task, current),
{
    TaskInfo {
        id: task.id,
        name: task.name,
        priority: task.priority,
        state: task.state,
        stack_size: task.stack_size,
        wakeup_tick: task.wakeup_tick,
        queued: task.queued,
        current,
    }
}

/// The mask of active CPUs: the platform's mask, or CPU 0 alone when the
/// platform reports none.
pub open spec fn effective_mask(mask: usize) -> usize {
    if mask == 0 { 1 } else { mask }
}

/// CPU `cpu` is active under the platform mask `mask`.
pub open spec fn cpu_active(mask: usize, cpu: int) -> bool {
    0 <= cpu < usize::BITS && (effective_mask(mask) >> (cpu as usize)) & 1usize == 1usize
}

/// The single bit that stands for CPU `cpu_id` in a CPU mask.
pub fn cpu_bit(cpu_id: usize) -> (r: Option<usize>)
    ensures
        cpu_id < usize::BITS ==> r == Some(1usize << cpu_id),
        cpu_id >= usize::BITS ==> r is None,
{
    if cpu_id < usize::BITS as usize {
        Some(1usize << cpu_id)
    } else {
        None
    }
}

proof fn lemma_mask_bit(m: usize, c: usize)
    requires
        c < usize::BITS,
    ensures
        (m & (1usize << c) != 0) == ((m >> c) & 1usize == 1usize),
{
    assert((m & (1usize << c) != 0) == ((m >> c) & 1usize == 1usize)) by (bit_vector)
        requires
            c < usize::BITS,
    ;
}

/// The task in slot `s` of the pool, if any.
pub open spec fn pool_task(tasks: Slab<TaskControlBlock, TASK_CAP>, s: usize) -> Option<TaskControlBlock> {
    if s < TASK_CAP { tasks.view()[s as int] } else { None }
}

pub open spec fn pool_live(tasks: Slab<TaskControlBlock, TASK_CAP>, s: usize) -> bool {
    pool_task(tasks, s) is Some
}

pub open spec fn pool_tcb(tasks: Slab<TaskControlBlock, TASK_CAP>, s: usize) -> TaskControlBlock {
    pool_task(tasks, s).unwrap()
}

/// The scheduler's invariant over its parts.
pub open spec fn sched_inv(
    tasks: Slab<TaskControlBlock, TASK_CAP>,
    cpus: Seq<CpuScheduler>,
    sleep: Seq<usize>,
    current: Option<usize>,
    next: Option<usize>,
) -> bool {
    &&& tasks.wf()
    &&& 1 <= cpus.len() <= MAX_CPUS
    &&& forall|c: int| 0 <= c < cpus.len() ==> (#[trigger] cpus[c]).ready_queue.wf()
    &&& forall|c: int, s: usize|
        0 <= c < cpus.len() && #[trigger] cpus[c].ready_queue.members().contains(s)
            ==> pool_live(tasks, s) && pool_tcb(tasks, s).queued && pool_tcb(tasks, s).state == TaskState::Ready
    &&& forall|c: int, p: int, i: int|
        0 <= c < cpus.len() && 0 <= p < MAX_PRIORITIES && 0 <= i < cpus[c].ready_queue.view()[p].len()
            ==> pool_tcb(tasks, #[trigger] cpus[c].ready_queue.view()[p][i]).priority == p
    &&& forall|c1: int, c2: int, s: usize|
        0 <= c1 < cpus.len() && 0 <= c2 < cpus.len()
            && #[trigger] cpus[c1].ready_queue.members().contains(s)
            && #[trigger] cpus[c2].ready_queue.members().contains(s) ==> c1 == c2
    &&& sleep.no_duplicates()
    &&& forall|k: int| 0 <= k < sleep.len() ==> {
        let s = #[trigger] sleep[k];
        pool_live(tasks, s) && pool_tcb(tasks, s).state == TaskState::Sleeping && !pool_tcb(tasks, s).queued
    }
    &&& forall|s: usize| #[trigger] pool_live(tasks, s) ==> pool_tcb(tasks, s).priority <= MAX_PRIORITY
    &&& forall|s: usize| #[trigger] pool_live(tasks, s) && pool_tcb(tasks, s).queued
        ==> pool_tcb(tasks, s).state == TaskState::Ready
    &&& current is Some ==> pool_live(tasks, current.unwrap())
    &&& next is Some ==> pool_live(tasks, next.unwrap())
}

/// Writing slot `slot` of the pool leaves every other slot as it was.
pub proof fn lemma_pool_set(
    old_tasks: Slab<TaskControlBlock, TASK_CAP>,
    new_tasks: Slab<TaskControlBlock, TASK_CAP>,
    slot: usize,
    v: Option<TaskControlBlock>,
)
    requires
        old_tasks.wf(),
        new_tasks.wf(),
        slot < TASK_CAP,
        new_tasks.view() == old_tasks.view().update(slot as int, v),
    ensures
        pool_task(new_tasks, slot) == v,
        forall|x: usize| x != slot ==> #[trigger] pool_task(new_tasks, x) == pool_task(old_tasks, x),
{
    old_tasks.lemma_view_len();
    new_tasks.lemma_view_len();
    assert forall|x: usize| x != slot implies #[trigger] pool_task(new_tasks, x) == pool_task(old_tasks, x) by {
        if x < TASK_CAP {
            assert(new_tasks.view()[x as int] == old_tasks.view()[x as int]);
        }
    }
}

/// The wake-up tick of `t` has come at tick `now` (in wrapping tick
/// arithmetic, "at or before now, within half the tick range").
pub open spec fn is_due(t: TaskControlBlock, now: u32) -> bool {
    u32_specs::wrapping_sub(now, t.wakeup_tick) < u32::MAX / 2
}

impl Scheduler {
    /// The sleepers of `self` that stay asleep at tick `now`.
    pub open spec fn stays_asleep(self, now: u32) -> spec_fn(usize) -> bool {
        |x: usize| !is_due(self.tcb(x), now)
    }

    pub closed spec fn num_cpus(self) -> nat {
        self.cpu_scheds.len() as nat
    }

    /// The same scheduler under another active-CPU mask.
    pub closed spec fn with_mask(self, mask: usize) -> Self {
        Scheduler { active_mask: mask, ..self }
    }

    pub closed spec fn spec_active_mask(self) -> usize {
        self.active_mask
    }

    /// The task that runs now (the context-switch ABI's current task).
    pub closed spec fn spec_current(self) -> Option<usize> {
        self.current
    }

    /// The task chosen to run after the next context switch.
    pub closed spec fn spec_next(self) -> Option<usize> {
        self.next
    }

    pub closed spec fn spec_sleep_queue(self) -> Seq<usize> {
        self.sleep_queue@
    }

    /// The task in pool slot `s`, if any.
    pub closed spec fn spec_task(self, s: usize) -> Option<TaskControlBlock> {
        pool_task(self.tasks, s)
    }

    pub closed spec fn spec_free_slots(self) -> nat {
        self.tasks.spec_free_count()
    }

    pub closed spec fn spec_next_slot(self) -> Option<usize> {
        self.tasks.next_slot()
    }

    pub closed spec fn spec_id_counter(self) -> u32 {
        self.task_id_counter
    }

    pub closed spec fn spec_cpu(self, c: int) -> CpuScheduler {
        self.cpu_scheds@[c]
    }

    pub open spec fn live(self, s: usize) -> bool {
        self.spec_task(s) is Some
    }

    pub open spec fn tcb(self, s: usize) -> TaskControlBlock {
        self.spec_task(s).unwrap()
    }

    pub open spec fn ready(self, c: int) -> ReadyQueue {
        self.spec_cpu(c).ready_queue
    }

    /// The current task exists and is running.
    pub open spec fn cur_running(self) -> bool {
        &&& self.spec_current() is Some
        &&& self.live(self.spec_current().unwrap())
        &&& self.tcb(self.spec_current().unwrap()).state == TaskState::Running
    }

    /// The current task, if any, is running (the state in which a task can
    /// put itself to sleep or end itself).
    pub open spec fn current_is_running_or_none(self) -> bool {
        self.spec_current() is Some ==> self.cur_running()
    }

    pub closed spec fn wf(self) -> bool {
        sched_inv(self.tasks, self.cpu_scheds@, self.sleep_queue@, self.current, self.next)
    }

    /// A scheduler for `num_cpus` CPUs with no tasks.
    pub fn new(num_cpus: usize) -> (r: Self)
        requires
            1 <= num_cpus <= MAX_CPUS,
        ensures
            r.wf(),
            r.num_cpus() == num_cpus,
            r.spec_current() is None,
            r.spec_next() is None,
            r.spec_sleep_queue() == Seq::<usize>::empty(),
            r.spec_free_slots() == TASK_CAP,
            r.spec_id_counter() == 0,
            r.spec_active_mask() == 1,
            forall|s: usize| !#[trigger] r.live(s),
            forall|c: int| 0 <= c < num_cpus ==> all_empty(#[trigger] r.ready(c).view()) && !r.spec_cpu(c).preempt_pending,
    {
        let mut cpu_scheds: Vec<CpuScheduler> = Vec::new();
        let mut i: usize = 0;
        while i < num_cpus
            invariant
                i <= num_cpus,
                cpu_scheds.len() == i,
                forall|c: int| 0 <= c < i ==> {
                    &&& (#[trigger] cpu_scheds@[c]).ready_queue.wf()
                    &&& all_empty(cpu_scheds@[c].ready_queue.view())
                    &&& cpu_scheds@[c].ready_queue.members() == Set::<usize>::empty()
                    &&& !cpu_scheds@[c].preempt_pending
                },
            decreases num_cpus - i,
        {
            cpu_scheds.push(CpuScheduler::new());
            i += 1;
        }
        let r = Scheduler {
            cpu_scheds,
            task_id_counter: 0,
            sleep_queue: Vec::new(),
            tasks: Slab::new(),
            current: None,
            next: None,
            active_mask: 1,
        };
        r
    }

    /// Record the platform's mask of active CPUs.
    pub fn set_active_cpu_mask(&mut self, mask: usize)
        requires
            old(self).wf(),
        ensures
            final(self).wf(),
            *final(self) == old(self).with_mask(mask),
    {
        self.active_mask = mask;
    }

    /// The mask of active CPUs.
    pub fn active_cpu_mask(&self) -> (r: usize)
        ensures
            r == effective_mask(self.spec_active_mask()),
    {
        if self.active_mask == 0 { 1 } else { self.active_mask }
    }

    pub fn is_cpu_active(&self, cpu_id: usize) -> (r: bool)
        ensures
            r == cpu_active(self.spec_active_mask(), cpu_id as int),
    {
        let mask = self.active_cpu_mask();
        match cpu_bit(cpu_id) {
            Some(bit) => {
                proof {
                    lemma_mask_bit(mask, cpu_id);
                }
                mask & bit != 0
            },
            None => false,
        }
    }

    /// The CPU whose queues the calling CPU `raw_cpu` works on: its own when
    /// active, CPU 0 otherwise.
    pub open spec fn spec_sched_cpu(self, raw_cpu: u32) -> int {
        let c = (raw_cpu as int) % (self.num_cpus() as int);
        if cpu_active(self.spec_active_mask(), c) { c } else { 0 }
    }

    pub fn current_scheduler_cpu_id(&self, raw_cpu: u32) -> (r: usize)
        requires
            self.wf(),
        ensures
            r == self.spec_sched_cpu(raw_cpu),
            r < self.num_cpus(),
    {
        let current = (raw_cpu as usize) % self.cpu_scheds.len();
        if self.is_cpu_active(current) { current } else { 0 }
    }

    /// A new task of priority `priority` should preempt the current one.
    pub open spec fn spec_check_preempt(self, priority: Priority) -> bool {
        self.cur_running() && priority > self.tcb(self.spec_current().unwrap()).priority
    }

    fn check_preempt_needed(&self, priority: Priority) -> (r: bool)
        requires
            self.wf(),
        ensures
            r == self.spec_check_preempt(priority),
    {
        match self.current {
            None => false,
            Some(c) => {
                match self.tasks.get(c) {
                    Some(t) => t.state == TaskState::Running && priority > t.priority,
                    None => false,
                }
            },
        }
    }

    /// A task of higher priority than the running one waits on CPU `cpu`.
    pub open spec fn spec_higher_ready(self, cpu: int) -> bool {
        &&& self.cur_running()
        &&& self.ready(cpu).spec_len() > 0
        &&& top_from(self.ready(cpu).view(), MAX_PRIORITIES - 1) > self.tcb(self.spec_current().unwrap()).priority
    }

    fn has_higher_ready_than_current(&self, cpu: usize) -> (r: bool)
        requires
            self.wf(),
            cpu < self.num_cpus(),
        ensures
            r == self.spec_higher_ready(cpu as int),
    {
        let rq = &self.cpu_scheds[cpu].ready_queue;
        match self.current {
            None => false,
            Some(c) => {
                if rq.is_empty() {
                    return false;
                }
                proof {
                    if all_empty(rq.view()) {
                        rq.lemma_len_empty();
                    }
                }
                match self.tasks.get(c) {
                    Some(t) => t.state == TaskState::Running && rq.peek_highest_priority() > t.priority,
                    None => false,
                }
            },
        }
    }

    /// Everything but the task pool is the same in `a` and `b`.
    pub closed spec fn same_but_tasks(a: Self, b: Self) -> bool {
        &&& a.cpu_scheds@ == b.cpu_scheds@
        &&& a.sleep_queue@ == b.sleep_queue@
        &&& a.current == b.current
        &&& a.next == b.next
        &&& a.task_id_counter == b.task_id_counter
        &&& a.active_mask == b.active_mask
    }

    /// What two schedulers that differ at most in their task pools share.
    pub proof fn lemma_same_but_tasks(a: Self, b: Self)
        requires
            Self::same_but_tasks(a, b),
        ensures
            a.num_cpus() == b.num_cpus(),
            a.spec_current() == b.spec_current(),
            a.spec_next() == b.spec_next(),
            a.spec_sleep_queue() == b.spec_sleep_queue(),
            a.spec_id_counter() == b.spec_id_counter(),
            a.spec_active_mask() == b.spec_active_mask(),
            forall|c: int| #[trigger] a.spec_cpu(c) == b.spec_cpu(c),
    {
    }

    /// The pools of `a` and `b` differ at most in slot `slot` and hand out
    /// the same slots next.
    pub open spec fn tasks_same_except(a: Self, b: Self, slot: usize) -> bool {
        &&& forall|s: usize| s != slot ==> #[trigger] a.spec_task(s) == b.spec_task(s)
        &&& a.spec_free_slots() == b.spec_free_slots()
        &&& a.spec_next_slot() == b.spec_next_slot()
    }

    /// A slot that no ready queue holds.
    pub open spec fn unqueued(self, slot: usize) -> bool {
        forall|c: int| 0 <= c < self.num_cpus() ==> !#[trigger] self.ready(c).members().contains(slot)
    }

    /// Overwrite the task in `slot` with `t`, neither of which is queued.
    fn set_task(&mut self, slot: usize, t: TaskControlBlock)
        requires
            old(self).wf(),
            old(self).live(slot),
            old(self).unqueued(slot),
            !t.queued,
            t.priority <= MAX_PRIORITY,
            old(self).spec_sleep_queue().contains(slot) ==> t.state == TaskState::Sleeping,
        ensures
            final(self).wf(),
            final(self).spec_task(slot) == Some(t),
            Self::tasks_same_except(*final(self), *old(self), slot),
            Self::same_but_tasks(*final(self), *old(self)),
            final(self).num_cpus() == old(self).num_cpus(),
    {
        let ghost old_self = *self;
        self.tasks.set(slot, t);
        proof {
            old_self.tasks.lemma_view_len();
            self.tasks.lemma_view_len();
            assert forall|x: usize| x != slot implies #[trigger] pool_task(self.tasks, x) == pool_task(old_self.tasks, x) by {
                if x < TASK_CAP {
                    assert(self.tasks.view()[x as int] == old_self.tasks.view()[x as int]);
                }
            }
            assert forall|k: int| 0 <= k < self.sleep_queue@.len() implies {
                let s = #[trigger] self.sleep_queue@[k];
                pool_live(self.tasks, s) && pool_tcb(self.tasks, s).state == TaskState::Sleeping
                    && !pool_tcb(self.tasks, s).queued
            } by {
                let s = old_self.sleep_queue@[k];
                if s == slot {
                    assert(self.sleep_queue@.contains(slot));
                } else {
                    assert(pool_task(self.tasks, s) == pool_task(old_self.tasks, s));
                }
            }
            assert forall|c: int, p: int, i: int|
                0 <= c < self.cpu_scheds@.len() && 0 <= p < MAX_PRIORITIES && 0 <= i
                    < self.cpu_scheds@[c].ready_queue.view()[p].len() implies pool_tcb(
                self.tasks,
                #[trigger] self.cpu_scheds@[c].ready_queue.view()[p][i],
            ).priority == p by {
                let rq = self.cpu_scheds@[c].ready_queue;
                let x = rq.view()[p][i];
                rq.lemma_members();
                assert(rq.members().contains(x));
                assert(!old_self.ready(c).members().contains(slot));
                assert(x != slot);
                assert(pool_task(self.tasks, x) == pool_task(old_self.tasks, x));
            }
            assert forall|c: int, x: usize|
                0 <= c < self.cpu_scheds@.len() && #[trigger] self.cpu_scheds@[c].ready_queue.members().contains(x)
                implies pool_live(self.tasks, x) && pool_tcb(self.tasks, x).queued
                    && pool_tcb(self.tasks, x).state == TaskState::Ready by {
                assert(!old_self.ready(c).members().contains(slot));
                assert(x != slot);
                assert(pool_task(self.tasks, x) == pool_task(old_self.tasks, x));
            }
            assert forall|x: usize| #[trigger] pool_live(self.tasks, x) implies pool_tcb(self.tasks, x).priority
                <= MAX_PRIORITY && (pool_tcb(self.tasks, x).queued ==> pool_tcb(self.tasks, x).state
                == TaskState::Ready) by {
                if x != slot {
                    assert(pool_task(self.tasks, x) == pool_task(old_self.tasks, x));
                    assert(pool_live(old_self.tasks, x));
                }
            }
        }
    }

    /// Give the ready task in `slot` to the ready queue of `cpu`.
    fn push_ready(&mut self, cpu: usize, slot: usize)
        requires
            old(self).wf(),
            cpu < old(self).num_cpus(),
            old(self).live(slot),
            !old(self).tcb(slot).queued,
            old(self).tcb(slot).state == TaskState::Ready,
        ensures
            final(self).wf(),
            final(self).spec_task(slot) == Some(TaskControlBlock { queued: true, ..old(self).tcb(slot) }),
            Self::tasks_same_except(*final(self), *old(self), slot),
            final(self).ready(cpu as int).view() == old(self).ready(cpu as int).view().update(
                old(self).tcb(slot).priority as int,
                old(self).ready(cpu as int).view()[old(self).tcb(slot).priority as int].push(slot),
            ),
            final(self).ready(cpu as int).members() == old(self).ready(cpu as int).members().insert(slot),
            final(self).ready(cpu as int).spec_len() == old(self).ready(cpu as int).spec_len() + 1,
            final(self).spec_cpu(cpu as int).preempt_pending == old(self).spec_cpu(cpu as int).preempt_pending,
            final(self).spec_cpu(cpu as int).idle_task == old(self).spec_cpu(cpu as int).idle_task,
            final(self).spec_cpu(cpu as int).context_switches == old(self).spec_cpu(cpu as int).context_switches,
            final(self).spec_cpu(cpu as int).preemptions == old(self).spec_cpu(cpu as int).preemptions,
            final(self).spec_cpu(cpu as int).steal_attempts == old(self).spec_cpu(cpu as int).steal_attempts,
            final(self).spec_cpu(cpu as int).steal_successes == old(self).spec_cpu(cpu as int).steal_successes,
            forall|c: int| 0 <= c < old(self).num_cpus() && c != cpu ==> #[trigger] final(self).spec_cpu(c) == old(self).spec_cpu(c),
            final(self).num_cpus() == old(self).num_cpus(),
            final(self).spec_sleep_queue() == old(self).spec_sleep_queue(),
            final(self).spec_current() == old(self).spec_current(),
            final(self).spec_next() == old(self).spec_next(),
            final(self).spec_id_counter() == old(self).spec_id_counter(),
            final(self).spec_active_mask() == old(self).spec_active_mask(),
    {
        let ghost old_self = *self;
        let mut t = self.tasks.get(slot).unwrap();
        proof {
            let m = self.cpu_scheds@[cpu as int].ready_queue.members();
            self.cpu_scheds@[cpu as int].ready_queue.lemma_members();
            assert forall|x: usize| #[trigger] m.contains(x) implies x < TASK_CAP by {
                assert(pool_live(self.tasks, x));
            }
            lemma_set_below_bound(m, TASK_CAP, slot);
        }
        proof {
            assert(pool_live(self.tasks, slot));
            assert(t.priority <= MAX_PRIORITY);
        }
        let mut cs = self.cpu_scheds.remove(cpu);
        let ok = cs.ready_queue.push(slot, &mut t);
        assert(ok);
        self.cpu_scheds.insert(cpu, cs);
        self.tasks.set(slot, t);
        proof {
            lemma_pool_set(old_self.tasks, self.tasks, slot, Some(t));
            assert(self.cpu_scheds@ == old_self.cpu_scheds@.update(cpu as int, cs));
            let tasks = self.tasks;
            let cpus = self.cpu_scheds@;
            assert forall|c: int, x: usize|
                0 <= c < cpus.len() && #[trigger] cpus[c].ready_queue.members().contains(x) implies
                pool_live(tasks, x) && pool_tcb(tasks, x).queued && pool_tcb(tasks, x).state == TaskState::Ready by {
                if x != slot {
                    assert(old_self.cpu_scheds@[c].ready_queue.members().contains(x));
                }
            }
            assert forall|c1: int, c2: int, x: usize|
                0 <= c1 < cpus.len() && 0 <= c2 < cpus.len()
                    && #[trigger] cpus[c1].ready_queue.members().contains(x)
                    && #[trigger] cpus[c2].ready_queue.members().contains(x) implies c1 == c2 by {
                if x == slot {
                    if c1 != cpu {
                        assert(old_self.cpu_scheds@[c1].ready_queue.members().contains(x));
                    }
                    if c2 != cpu {
                        assert(old_self.cpu_scheds@[c2].ready_queue.members().contains(x));
                    }
                } else {
                    assert(old_self.cpu_scheds@[c1].ready_queue.members().contains(x));
                    assert(old_self.cpu_scheds@[c2].ready_queue.members().contains(x));
                }
            }
            assert forall|c: int, p: int, i: int|
                0 <= c < cpus.len() && 0 <= p < MAX_PRIORITIES && 0 <= i < cpus[c].ready_queue.view()[p].len()
                implies pool_tcb(tasks, #[trigger] cpus[c].ready_queue.view()[p][i]).priority == p by {
                let x = cpus[c].ready_queue.view()[p][i];
                if c == cpu {
                    let q = old_self.cpu_scheds@[c].ready_queue.view();
                    if p == old_self.tcb(slot).priority as int && i == q[p].len() {
                        assert(x == slot);
                    } else {
                        assert(x == q[p][i]);
                        old_self.cpu_scheds@[c].ready_queue.lemma_members();
                        assert(old_self.cpu_scheds@[c].ready_queue.members().contains(x));
                    }
                } else {
                    old_self.cpu_scheds@[c].ready_queue.lemma_members();
                    assert(old_self.cpu_scheds@[c].ready_queue.members().contains(x));
                }
            }
            assert forall|k: int| 0 <= k < self.sleep_queue@.len() implies {
                let s = #[trigger] self.sleep_queue@[k];
                pool_live(self.tasks, s) && pool_tcb(self.tasks, s).state == TaskState::Sleeping
                    && !pool_tcb(self.tasks, s).queued
            } by {
                assert(self.sleep_queue@[k] != slot);
            }
            assert forall|x: usize| #[trigger] pool_live(self.tasks, x) implies pool_tcb(self.tasks, x).priority
                <= MAX_PRIORITY && (pool_tcb(self.tasks, x).queued ==> pool_tcb(self.tasks, x).state
                == TaskState::Ready) by {
                if x != slot {
                    assert(pool_live(old_self.tasks, x));
                }
            }
        }
    }

    /// Take the highest-priority task off the ready queue of `cpu`.
    fn pop_ready(&mut self, cpu: usize) -> (r: Option<usize>)
        requires
            old(self).wf(),
            cpu < old(self).num_cpus(),
        ensures
            final(self).wf(),
            final(self).num_cpus() == old(self).num_cpus(),
            forall|c: int| 0 <= c < old(self).num_cpus() && c != cpu ==> #[trigger] final(self).spec_cpu(c) == old(self).spec_cpu(c),
            final(self).spec_cpu(cpu as int).preempt_pending == old(self).spec_cpu(cpu as int).preempt_pending,
            final(self).spec_cpu(cpu as int).context_switches == old(self).spec_cpu(cpu as int).context_switches,
            final(self).spec_cpu(cpu as int).preemptions == old(self).spec_cpu(cpu as int).preemptions,
            final(self).spec_cpu(cpu as int).idle_task == old(self).spec_cpu(cpu as int).idle_task,
            final(self).spec_cpu(cpu as int).steal_attempts == old(self).spec_cpu(cpu as int).steal_attempts,
            final(self).spec_cpu(cpu as int).steal_successes == old(self).spec_cpu(cpu as int).steal_successes,
            final(self).spec_sleep_queue() == old(self).spec_sleep_queue(),
            final(self).spec_current() == old(self).spec_current(),
            final(self).spec_next() == old(self).spec_next(),
            final(self).spec_id_counter() == old(self).spec_id_counter(),
            final(self).spec_active_mask() == old(self).spec_active_mask(),
            match r {
                None => all_empty(old(self).ready(cpu as int).view()) && final(self).spec_cpu(cpu as int)
                    == old(self).spec_cpu(cpu as int) && forall|s: usize| #[trigger] final(self).spec_task(s)
                    == old(self).spec_task(s),
                Some(n) => {
                    let p = top_from(old(self).ready(cpu as int).view(), MAX_PRIORITIES - 1);
                    &&& 0 <= p < MAX_PRIORITIES
                    &&& old(self).ready(cpu as int).view()[p].len() > 0
                    &&& n == old(self).ready(cpu as int).view()[p][0]
                    &&& old(self).ready(cpu as int).members().contains(n)
                    &&& final(self).ready(cpu as int).view() == old(self).ready(cpu as int).view().update(
                        p,
                        old(self).ready(cpu as int).view()[p].drop_first(),
                    )
                    &&& final(self).ready(cpu as int).members() == old(self).ready(cpu as int).members().remove(n)
                    &&& final(self).spec_task(n) == Some(TaskControlBlock { queued: false, ..old(self).tcb(n) })
                    &&& old(self).tcb(n).priority == p
                    &&& Self::tasks_same_except(*final(self), *old(self), n)
                    &&& final(self).unqueued(n)
                },
            },
    {
        let ghost old_self = *self;
        let mut cs = self.cpu_scheds.remove(cpu);
        let r = cs.ready_queue.pop_highest();
        self.cpu_scheds.insert(cpu, cs);
        proof {
            assert(self.cpu_scheds@ == old_self.cpu_scheds@.update(cpu as int, cs));
        }
        match r {
            None => {
                proof {
                    assert(self.cpu_scheds@ =~= old_self.cpu_scheds@);
                }
                None
            },
            Some(n) => {
                proof {
                    let cpus = self.cpu_scheds@;
                    let tasks = self.tasks;
                    old_self.cpu_scheds@[cpu as int].ready_queue.lemma_members();
                    assert forall|c: int, p: int, i: int|
                        0 <= c < cpus.len() && 0 <= p < MAX_PRIORITIES && 0 <= i < cpus[c].ready_queue.view()[p].len()
                        implies pool_tcb(tasks, #[trigger] cpus[c].ready_queue.view()[p][i]).priority == p by {
                        if c == cpu {
                            let top = top_from(old_self.cpu_scheds@[c].ready_queue.view(), MAX_PRIORITIES - 1);
                            let q = old_self.cpu_scheds@[c].ready_queue.view();
                            assert(cpus[c] == cs);
                            old_self.cpu_scheds@[c].ready_queue.lemma_members();
                            cs.ready_queue.lemma_members();
                            assert(cs.ready_queue.view() == q.update(top, q[top].drop_first()));
                            if p == top {
                                assert(cs.ready_queue.view()[top] == q[top].drop_first());
                                assert(q[top].drop_first()[i] == q[top][i + 1]);
                                assert(cpus[c].ready_queue.view()[p][i] == q[p][i + 1]);
                            } else {
                                assert(cpus[c].ready_queue.view()[p][i] == q[p][i]);
                            }
                        } else {
                            assert(cpus[c] == old_self.cpu_scheds@[c]);
                        }
                    }
                    assert forall|c: int, x: usize|
                        0 <= c < cpus.len() && #[trigger] cpus[c].ready_queue.members().contains(x) implies
                        pool_live(tasks, x) && pool_tcb(tasks, x).queued && pool_tcb(tasks, x).state == TaskState::Ready by {
                        if c != cpu {
                            assert(old_self.cpu_scheds@[c].ready_queue.members().contains(x));
                        }
                    }
                    assert forall|c1: int, c2: int, x: usize|
                        0 <= c1 < cpus.len() && 0 <= c2 < cpus.len()
                            && #[trigger] cpus[c1].ready_queue.members().contains(x)
                            && #[trigger] cpus[c2].ready_queue.members().contains(x) implies c1 == c2 by {
                        assert(old_self.cpu_scheds@[c1].ready_queue.members().contains(x));
                        assert(old_self.cpu_scheds@[c2].ready_queue.members().contains(x));
                    }
                    let top = top_from(old_self.cpu_scheds@[cpu as int].ready_queue.view(), MAX_PRIORITIES - 1);
                    assert(old_self.cpu_scheds@[cpu as int].ready_queue.view()[top][0] == n);
                    assert forall|c: int| 0 <= c < self.num_cpus() implies !#[trigger] self.ready(c).members().contains(n) by {
                        if c != cpu {
                            assert(old_self.cpu_scheds@[c].ready_queue.members().contains(n) ==> c == cpu);
                        }
                    }
                }
                let mut t = self.tasks.get(n).unwrap();
                t.queued = false;
                self.set_task(n, t);
                Some(n)
            },
        }
    }

    /// Replace the bookkeeping of CPU `cpu`, keeping its ready queue.
    fn set_cpu_meta(
        &mut self,
        cpu: usize,
        pending: bool,
        switches: u64,
        preemptions: u64,
        steal_attempts: u64,
        steal_successes: u64,
    )
        requires
            old(self).wf(),
            cpu < old(self).num_cpus(),
        ensures
            final(self).wf(),
            final(self).num_cpus() == old(self).num_cpus(),
            final(self).spec_cpu(cpu as int) == (CpuScheduler {
                preempt_pending: pending,
                context_switches: switches,
                preemptions,
                steal_attempts,
                steal_successes,
                ..old(self).spec_cpu(cpu as int)
            }),
            forall|c: int| 0 <= c < old(self).num_cpus() && c != cpu ==> #[trigger] final(self).spec_cpu(c) == old(self).spec_cpu(c),
            forall|s: usize| #[trigger] final(self).spec_task(s) == old(self).spec_task(s),
            final(self).spec_free_slots() == old(self).spec_free_slots(),
            final(self).spec_next_slot() == old(self).spec_next_slot(),
            final(self).spec_sleep_queue() == old(self).spec_sleep_queue(),
            final(self).spec_current() == old(self).spec_current(),
            final(self).spec_next() == old(self).spec_next(),
            final(self).spec_id_counter() == old(self).spec_id_counter(),
            final(self).spec_active_mask() == old(self).spec_active_mask(),
    {
        let ghost old_self = *self;
        let mut cs = self.cpu_scheds.remove(cpu);
        cs.preempt_pending = pending;
        cs.context_switches = switches;
        cs.preemptions = preemptions;
        cs.steal_attempts = steal_attempts;
        cs.steal_successes = steal_successes;
        self.cpu_scheds.insert(cpu, cs);
        proof {
            assert(self.cpu_scheds@ == old_self.cpu_scheds@.update(cpu as int, cs));
            let cpus = self.cpu_scheds@;
            assert forall|c: int| 0 <= c < cpus.len() implies #[trigger] cpus[c].ready_queue == old_self.cpu_scheds@[c].ready_queue by {
            }
            assert forall|c: int, x: usize|
                0 <= c < cpus.len() && #[trigger] cpus[c].ready_queue.members().contains(x) implies
                pool_live(self.tasks, x) && pool_tcb(self.tasks, x).queued && pool_tcb(self.tasks, x).state == TaskState::Ready by {
                assert(old_self.cpu_scheds@[c].ready_queue.members().contains(x));
            }
            assert forall|c1: int, c2: int, x: usize|
                0 <= c1 < cpus.len() && 0 <= c2 < cpus.len()
                    && #[trigger] cpus[c1].ready_queue.members().contains(x)
                    && #[trigger] cpus[c2].ready_queue.members().contains(x) implies c1 == c2 by {
                assert(old_self.cpu_scheds@[c1].ready_queue.members().contains(x));
                assert(old_self.cpu_scheds@[c2].ready_queue.members().contains(x));
            }
            assert forall|c: int, p: int, i: int|
                0 <= c < cpus.len() && 0 <= p < MAX_PRIORITIES && 0 <= i < cpus[c].ready_queue.view()[p].len()
                implies pool_tcb(self.tasks, #[trigger] cpus[c].ready_queue.view()[p][i]).priority == p by {
                assert(cpus[c].ready_queue.view()[p][i] == old_self.cpu_scheds@[c].ready_queue.view()[p][i]);
            }
        }
    }

    fn set_pending(&mut self, cpu: usize, pending: bool)
        requires
            old(self).wf(),
            cpu < old(self).num_cpus(),
        ensures
            final(self).wf(),
            final(self).num_cpus() == old(self).num_cpus(),
            final(self).spec_cpu(cpu as int) == (CpuScheduler { preempt_pending: pending, ..old(self).spec_cpu(cpu as int) }),
            forall|c: int| 0 <= c < old(self).num_cpus() && c != cpu ==> #[trigger] final(self).spec_cpu(c) == old(self).spec_cpu(c),
            forall|s: usize| #[trigger] final(self).spec_task(s) == old(self).spec_task(s),
            final(self).spec_free_slots() == old(self).spec_free_slots(),
            final(self).spec_next_slot() == old(self).spec_next_slot(),
            final(self).spec_sleep_queue() == old(self).spec_sleep_queue(),
            final(self).spec_current() == old(self).spec_current(),
            final(self).spec_next() == old(self).spec_next(),
            final(self).spec_id_counter() == old(self).spec_id_counter(),
            final(self).spec_active_mask() == old(self).spec_active_mask(),
    {
        let cs = &self.cpu_scheds[cpu];
        let (sw, pre, sa, ss) = (cs.context_switches, cs.preemptions, cs.steal_attempts, cs.steal_successes);
        self.set_cpu_meta(cpu, pending, sw, pre, sa, ss);
    }

    /// The CPU that a task being made ready is queued on: its pinned CPU
    /// when that one is active, otherwise the active CPU with the fewest
    /// ready tasks (lowest index on ties); the calling CPU's scheduler CPU
    /// when no CPU qualifies.
    pub open spec fn spec_select_cpu(self, t: TaskControlBlock, raw_cpu: u32, r: int) -> bool {
        match t.affinity {
            CpuAffinity::Pin(cpu) => {
                let target = (cpu as int) % (self.num_cpus() as int);
                r == if cpu_active(self.spec_active_mask(), target) { target } else { self.spec_sched_cpu(raw_cpu) }
            },
            CpuAffinity::Any => {
                if exists|i: int| 0 <= i < self.num_cpus() && cpu_active(self.spec_active_mask(), i) {
                    &&& 0 <= r < self.num_cpus()
                    &&& cpu_active(self.spec_active_mask(), r)
                    &&& forall|i: int| 0 <= i < self.num_cpus() && cpu_active(self.spec_active_mask(), i)
                        ==> #[trigger] self.ready(i).spec_len() >= self.ready(r).spec_len()
                            && (self.ready(i).spec_len() == self.ready(r).spec_len() ==> r <= i)
                } else {
                    r == self.spec_sched_cpu(raw_cpu)
                }
            },
        }
    }

    /// CPU `c` is where a task with `t`'s affinity is made ready from the
    /// calling CPU `raw_cpu`: its pinned CPU when that is active, else the
    /// calling CPU's scheduler; a task free to run anywhere goes to an
    /// active CPU when there is one.
    pub open spec fn wake_cpu_ok(self, t: TaskControlBlock, raw_cpu: u32, c: int) -> bool {
        &&& 0 <= c < self.num_cpus()
        &&& match t.affinity {
            CpuAffinity::Pin(cpu) => {
                let target = (cpu as int) % (self.num_cpus() as int);
                c == if cpu_active(self.spec_active_mask(), target) { target } else { self.spec_sched_cpu(raw_cpu) }
            },
            CpuAffinity::Any => if exists|i: int| 0 <= i < self.num_cpus() && cpu_active(self.spec_active_mask(), i) {
                cpu_active(self.spec_active_mask(), c)
            } else {
                c == self.spec_sched_cpu(raw_cpu)
            },
        }
    }

    /// A woken task pinned to an active CPU is made ready on that CPU.
    pub proof fn lemma_wake_pinned(self, t: TaskControlBlock, raw_cpu: u32, c: int, pin: u32)
        requires
            t.affinity == CpuAffinity::Pin(pin),
            (pin as int) < self.num_cpus(),
            cpu_active(self.spec_active_mask(), pin as int),
            self.wake_cpu_ok(t, raw_cpu, c),
        ensures
            c == pin,
    {
        vstd::arithmetic::div_mod::lemma_small_mod(pin as nat, self.num_cpus());
    }

        pub fn select_cpu_for_task(&self, task: &TaskControlBlock, raw_cpu: u32) -> (r: usize)
        requires
            self.wf(),
        ensures
            r < self.num_cpus(),
            self.spec_select_cpu(*task, raw_cpu, r as int),
    {
        match task.affinity {
            CpuAffinity::Pin(cpu) => {
                let target = (cpu as usize) % self.cpu_scheds.len();
                if self.is_cpu_active(target) {
                    target
                } else {
                    self.current_scheduler_cpu_id(raw_cpu)
                }
            },
            CpuAffinity::Any => {
                let mut best_cpu = self.current_scheduler_cpu_id(raw_cpu);
                let mut best_len = usize::MAX;
                let n = self.cpu_scheds.len();
                let mut i: usize = 0;
                while i < n
                    invariant
                        self.wf(),
                        n == self.num_cpus(),
                        i <= n,
                        best_cpu < n,
                        best_len == usize::MAX ==> best_cpu == self.spec_sched_cpu(raw_cpu)
                            && forall|j: int| 0 <= j < i ==> !cpu_active(self.spec_active_mask(), j),
                        best_len != usize::MAX ==> {
                            &&& cpu_active(self.spec_active_mask(), best_cpu as int)
                            &&& best_len == self.ready(best_cpu as int).spec_len()
                            &&& best_cpu < i
                            &&& forall|j: int| 0 <= j < i && cpu_active(self.spec_active_mask(), j)
                                ==> #[trigger] self.ready(j).spec_len() >= best_len
                                    && (self.ready(j).spec_len() == best_len ==> best_cpu <= j)
                        },
                    decreases n - i,
                {
                    if self.is_cpu_active(i) {
                        let len = self.cpu_scheds[i].ready_queue.len();
                        proof {
                            self.ready(i as int).lemma_members();
                        }
                        if len < best_len {
                            best_len = len;
                            best_cpu = i;
                        }
                    }
                    i += 1;
                }
                best_cpu
            },
        }
    }

    /// Put `t` into a free pool slot; the slot is not queued anywhere.
    fn alloc_task(&mut self, t: TaskControlBlock) -> (slot: usize)
        requires
            old(self).wf(),
            old(self).spec_free_slots() > 0,
            !t.queued,
            t.priority <= MAX_PRIORITY,
        ensures
            final(self).wf(),
            Some(slot) == old(self).spec_next_slot(),
            !old(self).live(slot),
            final(self).spec_task(slot) == Some(t),
            forall|x: usize| x != slot ==> #[trigger] final(self).spec_task(x) == old(self).spec_task(x),
            final(self).spec_free_slots() == old(self).spec_free_slots() - 1,
            final(self).unqueued(slot),
            Self::same_but_tasks(*final(self), *old(self)),
            final(self).num_cpus() == old(self).num_cpus(),
    {
        let ghost old_self = *self;
        proof {
            self.tasks.lemma_free_count();
        }
        let slot = self.tasks.allocate(t).unwrap();
        proof {
            lemma_pool_set(old_self.tasks, self.tasks, slot, Some(t));
            assert(!pool_live(old_self.tasks, slot));
            let cpus = self.cpu_scheds@;
            assert forall|c: int, x: usize|
                0 <= c < cpus.len() && #[trigger] cpus[c].ready_queue.members().contains(x) implies
                pool_live(self.tasks, x) && pool_tcb(self.tasks, x).queued && pool_tcb(self.tasks, x).state == TaskState::Ready by {
                assert(pool_live(old_self.tasks, x));
            }
            assert forall|c: int, p: int, i: int|
                0 <= c < cpus.len() && 0 <= p < MAX_PRIORITIES && 0 <= i < cpus[c].ready_queue.view()[p].len()
                implies pool_tcb(self.tasks, #[trigger] cpus[c].ready_queue.view()[p][i]).priority == p by {
                let x = cpus[c].ready_queue.view()[p][i];
                cpus[c].ready_queue.lemma_members();
                assert(cpus[c].ready_queue.members().contains(x));
                assert(pool_live(old_self.tasks, x));
            }
            assert forall|k: int| 0 <= k < self.sleep_queue@.len() implies {
                let s = #[trigger] self.sleep_queue@[k];
                pool_live(self.tasks, s) && pool_tcb(self.tasks, s).state == TaskState::Sleeping
                    && !pool_tcb(self.tasks, s).queued
            } by {
                assert(pool_live(old_self.tasks, self.sleep_queue@[k]));
            }
            assert forall|x: usize| #[trigger] pool_live(self.tasks, x) implies pool_tcb(self.tasks, x).priority
                <= MAX_PRIORITY && (pool_tcb(self.tasks, x).queued ==> pool_tcb(self.tasks, x).state
                == TaskState::Ready) by {
                if x != slot {
                    assert(pool_live(old_self.tasks, x));
                }
            }
            assert forall|c: int| 0 <= c < self.num_cpus() implies !#[trigger] self.ready(c).members().contains(slot) by {
                if self.ready(c).members().contains(slot) {
                    assert(pool_live(old_self.tasks, slot));
                }
            }
        }
        slot
    }

    /// Create a task and queue it on CPU `target_cpu % num_cpus`. The
    /// priority is capped at [`MAX_PRIORITY`]. The result is the new task's
    /// id, taken from the id counter.
    pub fn create_task_on_cpu(
        &mut self,
        entry: usize,
        initial_sp: usize,
        stack_size: usize,
        priority: Priority,
        name: &'static str,
        target_cpu: usize,
    ) -> (r: TaskId)
        requires
            old(self).wf(),
            old(self).spec_free_slots() > 0,
        ensures
            final(self).wf(),
            r == old(self).spec_id_counter(),
            final(self).spec_id_counter() == u32_specs::wrapping_add(old(self).spec_id_counter(), 1),
            final(self).spec_free_slots() == old(self).spec_free_slots() - 1,
            final(self).num_cpus() == old(self).num_cpus(),
            final(self).spec_sleep_queue() == old(self).spec_sleep_queue(),
            final(self).spec_current() == old(self).spec_current(),
            final(self).spec_next() == old(self).spec_next(),
            ({
                let slot = old(self).spec_next_slot().unwrap();
                let c = target_cpu as int % old(self).num_cpus() as int;
                let p = if priority < MAX_PRIORITY { priority } else { MAX_PRIORITY };
                &&& old(self).spec_next_slot() is Some
                &&& !old(self).live(slot)
                &&& final(self).spec_task(slot) == Some(TaskControlBlock {
                    sp: initial_sp,
                    id: r,
                    priority: p,
                    wakeup_tick: 0,
                    state: TaskState::Ready,
                    stack_size,
                    entry,
                    name,
                    queued: true,
                    affinity: CpuAffinity::Any,
                    cpu_id: 0,
                })
                &&& forall|x: usize| x != slot ==> #[trigger] final(self).spec_task(x) == old(self).spec_task(x)
                &&& final(self).ready(c).view() == old(self).ready(c).view().update(p as int, old(self).ready(c).view()[p as int].push(slot))
                &&& final(self).ready(c).members() == old(self).ready(c).members().insert(slot)
                &&& final(self).spec_cpu(c).preempt_pending == old(self).spec_check_preempt(p)
                &&& forall|o: int| 0 <= o < old(self).num_cpus() && o != c ==> #[trigger] final(self).spec_cpu(o) == old(self).spec_cpu(o)
                &&& final(self).spec_cpu(c).idle_task == old(self).spec_cpu(c).idle_task
            }),
    {
        let priority = if priority < MAX_PRIORITY { priority } else { MAX_PRIORITY };
        let ghost old_self = *self;
        let id = self.task_id_counter;
        self.task_id_counter = id.wrapping_add(1);
        let tcb_val = TaskControlBlock::new(id, entry, initial_sp, stack_size, priority, name);
        let pend = self.check_preempt_needed(priority);
        let slot = self.alloc_task(tcb_val);
        let cpu = target_cpu % self.cpu_scheds.len();
        self.push_ready(cpu, slot);
        self.set_pending(cpu, pend);
        id
    }

    /// Create a task on the scheduler CPU of the calling CPU `raw_cpu`.
    pub fn create_task(
        &mut self,
        entry: usize,
        initial_sp: usize,
        stack_size: usize,
        priority: Priority,
        name: &'static str,
        raw_cpu: u32,
    ) -> (r: TaskId)
        requires
            old(self).wf(),
            old(self).spec_free_slots() > 0,
        ensures
            final(self).wf(),
            r == old(self).spec_id_counter(),
            final(self).spec_id_counter() == u32_specs::wrapping_add(old(self).spec_id_counter(), 1),
            final(self).spec_free_slots() == old(self).spec_free_slots() - 1,
            final(self).num_cpus() == old(self).num_cpus(),
            ({
                let slot = old(self).spec_next_slot().unwrap();
                let c = old(self).spec_sched_cpu(raw_cpu);
                let p = if priority < MAX_PRIORITY { priority } else { MAX_PRIORITY };
                &&& final(self).spec_task(slot) is Some
                &&& final(self).tcb(slot).id == r
                &&& final(self).tcb(slot).priority == p
                &&& final(self).tcb(slot).state == TaskState::Ready
                &&& final(self).tcb(slot).entry == entry
                &&& final(self).tcb(slot).sp == initial_sp
                &&& final(self).tcb(slot).stack_size == stack_size
                &&& final(self).tcb(slot).name == name
                &&& final(self).tcb(slot).wakeup_tick == 0
                &&& final(self).tcb(slot).affinity == CpuAffinity::Any
                &&& final(self).tcb(slot).queued
                &&& !old(self).live(slot)
                &&& final(self).ready(c).members() == old(self).ready(c).members().insert(slot)
                &&& final(self).spec_cpu(c).preempt_pending == old(self).spec_check_preempt(p)
            }),
            forall|o: int| 0 <= o < old(self).num_cpus() ==> #[trigger] final(self).spec_cpu(o).idle_task == old(self).spec_cpu(o).idle_task,
    {
        let cpu = self.current_scheduler_cpu_id(raw_cpu);
        proof {
            vstd::arithmetic::div_mod::lemma_small_mod(cpu as nat, self.num_cpus());
        }
        self.create_task_on_cpu(entry, initial_sp, stack_size, priority, name, cpu)
    }

    /// Create one idle task (priority 0, named `IDLE`) per CPU, record each
    /// as its CPU's idle task, then the root task (priority 1, `ROOT`).
    /// `idle_sps[c]` is the prepared stack pointer of CPU `c`'s idle task.
    pub fn init_system_tasks(
        &mut self,
        idle_entry: usize,
        idle_sps: &Vec<usize>,
        idle_stack_size: usize,
        root_entry: usize,
        root_sp: usize,
        root_stack_size: usize,
        raw_cpu: u32,
    )
        requires
            old(self).wf(),
            idle_sps.len() == old(self).num_cpus(),
            old(self).spec_free_slots() > old(self).num_cpus(),
        ensures
            final(self).wf(),
            final(self).num_cpus() == old(self).num_cpus(),
            final(self).spec_free_slots() == old(self).spec_free_slots() - old(self).num_cpus() - 1,
            forall|c: int| 0 <= c < old(self).num_cpus() ==> #[trigger] final(self).spec_cpu(c).idle_task is Some,
    {
        let n = self.cpu_scheds.len();
        let ghost old_free = self.spec_free_slots();
        let mut cpu: usize = 0;
        while cpu < n
            invariant
                self.wf(),
                n == self.num_cpus(),
                cpu <= n,
                idle_sps.len() == n,
                self.spec_free_slots() == old_free - cpu,
                old_free > n,
                forall|c: int| 0 <= c < cpu ==> #[trigger] self.spec_cpu(c).idle_task is Some,
            decreases n - cpu,
        {
            let ghost before = *self;
            let id = self.create_task_on_cpu(idle_entry, idle_sps[cpu], idle_stack_size, 0, "IDLE", cpu);
            proof {
                vstd::arithmetic::div_mod::lemma_small_mod(cpu as nat, n as nat);
                assert forall|c: int| 0 <= c < cpu implies #[trigger] self.spec_cpu(c).idle_task is Some by {
                    assert(before.spec_cpu(c).idle_task is Some);
                    if c != cpu as int % n as int {
                        assert(self.spec_cpu(c) == before.spec_cpu(c));
                    }
                }
            }
            self.set_idle_task(cpu, id);
            cpu += 1;
        }
        let ghost before = *self;
        self.create_task(root_entry, root_sp, root_stack_size, 1, "ROOT", raw_cpu);
        proof {
            assert forall|c: int| 0 <= c < n implies #[trigger] self.spec_cpu(c).idle_task is Some by {
                assert(before.spec_cpu(c).idle_task is Some);
            }
        }
    }

    fn set_idle_task(&mut self, cpu: usize, id: TaskId)
        requires
            old(self).wf(),
            cpu < old(self).num_cpus(),
        ensures
            final(self).wf(),
            final(self).num_cpus() == old(self).num_cpus(),
            final(self).spec_cpu(cpu as int) == (CpuScheduler { idle_task: Some(id), ..old(self).spec_cpu(cpu as int) }),
            forall|c: int| 0 <= c < old(self).num_cpus() && c != cpu ==> #[trigger] final(self).spec_cpu(c) == old(self).spec_cpu(c),
            final(self).spec_free_slots() == old(self).spec_free_slots(),
    {
        let ghost old_self = *self;
        let mut cs = self.cpu_scheds.remove(cpu);
        cs.idle_task = Some(id);
        self.cpu_scheds.insert(cpu, cs);
        proof {
            assert(self.cpu_scheds@ == old_self.cpu_scheds@.update(cpu as int, cs));
            let cpus = self.cpu_scheds@;
            assert forall|c: int| 0 <= c < cpus.len() implies #[trigger] cpus[c].ready_queue == old_self.cpu_scheds@[c].ready_queue by {
            }
            assert forall|c: int, x: usize|
                0 <= c < cpus.len() && #[trigger] cpus[c].ready_queue.members().contains(x) implies
                pool_live(self.tasks, x) && pool_tcb(self.tasks, x).queued && pool_tcb(self.tasks, x).state == TaskState::Ready by {
                assert(old_self.cpu_scheds@[c].ready_queue.members().contains(x));
            }
            assert forall|c1: int, c2: int, x: usize|
                0 <= c1 < cpus.len() && 0 <= c2 < cpus.len()
                    && #[trigger] cpus[c1].ready_queue.members().contains(x)
                    && #[trigger] cpus[c2].ready_queue.members().contains(x) implies c1 == c2 by {
                assert(old_self.cpu_scheds@[c1].ready_queue.members().contains(x));
                assert(old_self.cpu_scheds@[c2].ready_queue.members().contains(x));
            }
            assert forall|c: int, p: int, i: int|
                0 <= c < cpus.len() && 0 <= p < MAX_PRIORITIES && 0 <= i < cpus[c].ready_queue.view()[p].len()
                implies pool_tcb(self.tasks, #[trigger] cpus[c].ready_queue.view()[p][i]).priority == p by {
                assert(cpus[c].ready_queue.view()[p][i] == old_self.cpu_scheds@[c].ready_queue.view()[p][i]);
            }
        }
    }

    /// Mark the current task blocked when it is running.
    pub fn block_current_task(&mut self) -> (r: bool)
        requires
            old(self).wf(),
        ensures
            final(self).wf(),
            r == old(self).cur_running(),
            r ==> final(self).spec_task(old(self).spec_current().unwrap()) == Some(TaskControlBlock {
                state: TaskState::Blocked,
                wakeup_tick: 0,
                ..old(self).tcb(old(self).spec_current().unwrap())
            }),
            !r ==> *final(self) == *old(self),
            old(self).spec_current() is Some ==> Self::tasks_same_except(*final(self), *old(self), old(self).spec_current().unwrap()),
            Self::same_but_tasks(*final(self), *old(self)),
            final(self).num_cpus() == old(self).num_cpus(),
    {
        match self.current {
            None => false,
            Some(c) => {
                let mut t = self.tasks.get(c).unwrap();
                if t.state == TaskState::Running {
                    proof {
                        assert(pool_live(self.tasks, c));
                        assert forall|cpu: int| 0 <= cpu < self.num_cpus() implies !#[trigger] self.ready(cpu).members().contains(c) by {
                        }
                    }
                    t.state = TaskState::Blocked;
                    t.wakeup_tick = 0;
                    self.set_task(c, t);
                    true
                } else {
                    false
                }
            },
        }
    }

    /// Make the blocked task in `slot` ready again and queue it on the CPU
    /// chosen for it. Slots that hold no blocked task are left alone.
    pub fn wake_blocked_task(&mut self, slot: usize, raw_cpu: u32) -> (r: bool)
        requires
            old(self).wf(),
        ensures
            final(self).wf(),
            r == (old(self).live(slot) && old(self).tcb(slot).state == TaskState::Blocked),
            !r ==> *final(self) == *old(self),
            r ==> {
                &&& final(self).spec_task(slot) == Some(TaskControlBlock {
                    state: TaskState::Ready,
                    wakeup_tick: 0,
                    queued: true,
                    ..old(self).tcb(slot)
                })
                &&& exists|c: int| 0 <= c < final(self).num_cpus() && #[trigger] final(self).ready(c).members() == old(self).ready(c).members().insert(slot)
                    && final(self).spec_cpu(c).preempt_pending == old(self).spec_check_preempt(old(self).tcb(slot).priority)
            },
            Self::tasks_same_except(*final(self), *old(self), slot),
            final(self).num_cpus() == old(self).num_cpus(),
            final(self).spec_sleep_queue() == old(self).spec_sleep_queue(),
            final(self).spec_current() == old(self).spec_current(),
            final(self).spec_next() == old(self).spec_next(),
    {
        match self.tasks.get(slot) {
            None => false,
            Some(t0) => {
                if t0.state != TaskState::Blocked {
                    return false;
                }
                proof {
                    assert(pool_live(self.tasks, slot));
                    assert(!t0.queued);
                    assert forall|cpu: int| 0 <= cpu < self.num_cpus() implies !#[trigger] self.ready(cpu).members().contains(slot) by {
                    }
                    if self.sleep_queue@.contains(slot) {
                        let k = choose|k: int| 0 <= k < self.sleep_queue@.len() && self.sleep_queue@[k] == slot;
                        assert(pool_tcb(self.tasks, self.sleep_queue@[k]).state == TaskState::Sleeping);
                    }
                }
                let ghost old_self = *self;
                let pend = self.check_preempt_needed(t0.priority);
                let mut t = t0;
                t.state = TaskState::Ready;
                t.wakeup_tick = 0;
                self.set_task(slot, t);
                let cpu = self.select_cpu_for_task(&t, raw_cpu);
                self.push_ready(cpu, slot);
                let ghost mid = *self;
                self.set_pending(cpu, pend);
                proof {
                    assert(self.ready(cpu as int).members() == old_self.ready(cpu as int).members().insert(slot));
                }
                true
            },
        }
    }

    /// Put the current task to sleep until tick `now + ticks` (wrapping).
    /// Returns whether a task was put to sleep; the caller then yields.
    pub fn delay(&mut self, ticks: u32, now: u32) -> (r: bool)
        requires
            old(self).wf(),
            old(self).current_is_running_or_none(),
        ensures
            final(self).wf(),
            r == (old(self).spec_current() is Some),
            !r ==> *final(self) == *old(self),
            r ==> {
                let c = old(self).spec_current().unwrap();
                &&& final(self).spec_task(c) == Some(TaskControlBlock {
                    state: TaskState::Sleeping,
                    wakeup_tick: u32_specs::wrapping_add(now, ticks),
                    ..old(self).tcb(c)
                })
                &&& final(self).spec_sleep_queue() == seq![c] + old(self).spec_sleep_queue()
                &&& Self::tasks_same_except(*final(self), *old(self), c)
            },
            final(self).num_cpus() == old(self).num_cpus(),
            final(self).spec_current() == old(self).spec_current(),
            final(self).spec_next() == old(self).spec_next(),
            forall|c: int| 0 <= c < old(self).num_cpus() ==> #[trigger] final(self).spec_cpu(c) == old(self).spec_cpu(c),
    {
        let wakeup_tick = now.wrapping_add(ticks);
        match self.current {
            None => false,
            Some(c) => {
                let mut t = self.tasks.get(c).unwrap();
                proof {
                    assert(pool_live(self.tasks, c));
                    assert(!self.sleep_queue@.contains(c)) by {
                        if self.sleep_queue@.contains(c) {
                            let k = choose|k: int| 0 <= k < self.sleep_queue@.len() && self.sleep_queue@[k] == c;
                            assert(pool_tcb(self.tasks, self.sleep_queue@[k]).state == TaskState::Sleeping);
                        }
                    }
                    assert forall|cpu: int| 0 <= cpu < self.num_cpus() implies !#[trigger] self.ready(cpu).members().contains(c) by {
                    }
                }
                t.state = TaskState::Sleeping;
                t.wakeup_tick = wakeup_tick;
                self.set_task(c, t);
                let ghost old_q = self.sleep_queue@;
                let ghost mid = *self;
                self.sleep_queue.insert(0, c);
                proof {
                    assert forall|s: usize| #[trigger] self.spec_task(s) == mid.spec_task(s) by {}
                    assert(self.spec_free_slots() == mid.spec_free_slots());
                    assert(self.spec_next_slot() == mid.spec_next_slot());
                    assert(self.sleep_queue@ == seq![c] + old_q);
                    assert forall|k: int| 0 <= k < self.sleep_queue@.len() implies {
                        let s = #[trigger] self.sleep_queue@[k];
                        pool_live(self.tasks, s) && pool_tcb(self.tasks, s).state == TaskState::Sleeping
                            && !pool_tcb(self.tasks, s).queued
                    } by {
                        if k > 0 {
                            assert(self.sleep_queue@[k] == old_q[k - 1]);
                        }
                    }
                    assert(self.sleep_queue@.no_duplicates()) by {
                        assert forall|a: int, b: int| 0 <= a < b < self.sleep_queue@.len() implies self.sleep_queue@[a] != self.sleep_queue@[b] by {
                            if a == 0 {
                                assert(old_q.contains(old_q[b - 1]));
                            } else {
                                assert(self.sleep_queue@[a] == old_q[a - 1]);
                            }
                        }
                    }
                }
                true
            },
        }
    }

    /// Complete a context switch: the chosen next task becomes current.
    pub fn switch_to_next(&mut self)
        requires
            old(self).wf(),
        ensures
            final(self).wf(),
            final(self).spec_current() == old(self).spec_next(),
            final(self).spec_next() == old(self).spec_next(),
            Self::tasks_same_except(*final(self), *old(self), 0),
            forall|s: usize| #[trigger] final(self).spec_task(s) == old(self).spec_task(s),
            final(self).spec_sleep_queue() == old(self).spec_sleep_queue(),
            final(self).num_cpus() == old(self).num_cpus(),
            forall|c: int| 0 <= c < old(self).num_cpus() ==> #[trigger] final(self).spec_cpu(c) == old(self).spec_cpu(c),
    {
        self.current = self.next;
    }

    /// How many task slots are free.
    pub fn free_task_slots(&self) -> (r: usize)
        requires
            self.wf(),
        ensures
            r == self.spec_free_slots(),
    {
        self.tasks.free_count()
    }

    /// The slot of the current task.
    pub fn current_task(&self) -> (r: Option<usize>)
        ensures
            r == self.spec_current(),
    {
        self.current
    }

    /// The slot of the task chosen to run next.
    pub fn next_task(&self) -> (r: Option<usize>)
        ensures
            r == self.spec_next(),
    {
        self.next
    }

    pub fn has_current_task(&self) -> (r: bool)
        ensures
            r == (self.spec_current() is Some),
    {
        self.current.is_some()
    }

    /// A copy of the task in pool slot `slot`.
    pub fn task(&self, slot: usize) -> (r: Option<TaskControlBlock>)
        requires
            self.wf(),
        ensures
            r == self.spec_task(slot),
    {
        self.tasks.get(slot)
    }

    /// Timer tick: every sleeping task whose wake-up tick has come is made
    /// ready and queued on the CPU chosen for it; the others keep sleeping
    /// in their order.
    pub fn tick_update(&mut self, current_tick: u32, raw_cpu: u32)
        requires
            old(self).wf(),
        ensures
            final(self).wf(),
            final(self).num_cpus() == old(self).num_cpus(),
            final(self).spec_current() == old(self).spec_current(),
            final(self).spec_next() == old(self).spec_next(),
            final(self).spec_sleep_queue() == old(self).spec_sleep_queue().filter(old(self).stays_asleep(current_tick)),
            forall|k: int| 0 <= k < old(self).spec_sleep_queue().len()
                && is_due(old(self).tcb(#[trigger] old(self).spec_sleep_queue()[k]), current_tick) ==> {
                let s = old(self).spec_sleep_queue()[k];
                &&& final(self).spec_task(s) == Some(TaskControlBlock { state: TaskState::Ready, queued: true, ..old(self).tcb(s) })
                &&& exists|c: int| 0 <= c < final(self).num_cpus() && #[trigger] final(self).ready(c).members().contains(s)
                    && old(self).wake_cpu_ok(old(self).tcb(s), raw_cpu, c)
            },
            forall|k: int| 0 <= k < old(self).spec_sleep_queue().len()
                && !is_due(old(self).tcb(#[trigger] old(self).spec_sleep_queue()[k]), current_tick) ==> final(self).spec_task(
                old(self).spec_sleep_queue()[k],
            ) == old(self).spec_task(old(self).spec_sleep_queue()[k]),
            forall|s: usize| !old(self).spec_sleep_queue().contains(s) ==> #[trigger] final(self).spec_task(s) == old(self).spec_task(s),
    {
        let ghost old_self = *self;
        let ghost pred = old_self.stays_asleep(current_tick);
        let mut list: Vec<usize> = Vec::new();
        std::mem::swap(&mut list, &mut self.sleep_queue);
        let mut kept: Vec<usize> = Vec::new();
        let mut k: usize = 0;
        proof {
            reveal(Seq::filter);
            assert(list@.subrange(0, 0) =~= Seq::<usize>::empty());
        }
        while k < list.len()
            invariant
                self.wf(),
                self.sleep_queue@ == Seq::<usize>::empty(),
                list@ == old_self.sleep_queue@,
                list@.no_duplicates(),
                k <= list.len(),
                self.num_cpus() == old_self.num_cpus(),
                self.spec_current() == old_self.spec_current(),
                self.spec_next() == old_self.spec_next(),
                pred == old_self.stays_asleep(current_tick),
                kept@ == list@.subrange(0, k as int).filter(pred),
                forall|j: int| k <= j < list.len() ==> #[trigger] self.spec_task(list@[j]) == old_self.spec_task(list@[j]),
                forall|j: int| 0 <= j < list.len() ==> old_self.live(#[trigger] list@[j]) && old_self.tcb(list@[j]).state
                    == TaskState::Sleeping && !old_self.tcb(list@[j]).queued,
                forall|j: int| 0 <= j < k && !pred(#[trigger] list@[j]) ==> {
                    &&& self.spec_task(list@[j]) == Some(TaskControlBlock { state: TaskState::Ready, queued: true, ..old_self.tcb(list@[j]) })
                    &&& exists|c: int| 0 <= c < self.num_cpus() && #[trigger] self.ready(c).members().contains(list@[j])
                        && old_self.wake_cpu_ok(old_self.tcb(list@[j]), raw_cpu, c)
                },
                self.spec_active_mask() == old_self.spec_active_mask(),
                forall|j: int| 0 <= j < k && pred(#[trigger] list@[j]) ==> self.spec_task(list@[j]) == old_self.spec_task(list@[j]),
                forall|s: usize| !list@.contains(s) ==> #[trigger] self.spec_task(s) == old_self.spec_task(s),
                kept@.no_duplicates(),
                forall|a: int| 0 <= a < kept@.len() ==> list@.subrange(0, k as int).contains(#[trigger] kept@[a]),
                forall|a: int| 0 <= a < kept@.len() ==> #[trigger] self.spec_task(kept@[a]) == old_self.spec_task(kept@[a])
                    && old_self.live(kept@[a]) && old_self.tcb(kept@[a]).state == TaskState::Sleeping
                    && !old_self.tcb(kept@[a]).queued,
            decreases list.len() - k,
        {
            let s = list[k];
            let ghost before = *self;
            let ghost kept_before = kept@;
            let mut t = self.tasks.get(s).unwrap();
            proof {
                assert(!list@.subrange(0, k as int).contains(s)) by {
                    if list@.subrange(0, k as int).contains(s) {
                        let j = choose|j: int| 0 <= j < k && list@.subrange(0, k as int)[j] == s;
                        assert(list@[j] == list@[k as int]);
                    }
                }
                assert forall|a: int| 0 <= a < kept@.len() implies #[trigger] kept@[a] != s by {
                    assert(list@.subrange(0, k as int).contains(kept@[a]));
                }
                assert forall|a: int| 0 <= a < kept@.len() implies list@.subrange(0, k + 1).contains(#[trigger] kept@[a]) by {
                    let j = choose|j: int| 0 <= j < k && list@.subrange(0, k as int)[j] == kept@[a];
                    assert(list@.subrange(0, k + 1)[j] == kept@[a]);
                }
                assert(old_self.live(list@[k as int]));
                assert(self.spec_task(s) == old_self.spec_task(s));
                assert(pool_live(self.tasks, s));
                assert forall|cpu: int| 0 <= cpu < self.num_cpus() implies !#[trigger] self.ready(cpu).members().contains(s) by {
                }
                assert(list@.subrange(0, k + 1) == list@.subrange(0, k as int).push(s));
                list@.subrange(0, k as int).lemma_filter_push(s, pred);
            }
            if current_tick.wrapping_sub(t.wakeup_tick) < u32::MAX / 2 {
                t.state = TaskState::Ready;
                self.set_task(s, t);
                let cpu = self.select_cpu_for_task(&t, raw_cpu);
                self.push_ready(cpu, s);
                let pend = self.check_preempt_needed(t.priority);
                self.set_pending(cpu, pend);
                proof {
                    assert forall|j: int| 0 <= j < k + 1 && !pred(#[trigger] list@[j]) implies {
                        &&& self.spec_task(list@[j]) == Some(TaskControlBlock { state: TaskState::Ready, queued: true, ..old_self.tcb(list@[j]) })
                        &&& exists|c: int| 0 <= c < self.num_cpus() && #[trigger] self.ready(c).members().contains(list@[j])
                            && old_self.wake_cpu_ok(old_self.tcb(list@[j]), raw_cpu, c)
                    } by {
                        if j == k {
                            assert(self.ready(cpu as int).members().contains(s));
                            assert(t.affinity == old_self.tcb(s).affinity);
                            assert(old_self.wake_cpu_ok(old_self.tcb(s), raw_cpu, cpu as int));
                        } else {
                            assert(list@[j] != s);
                            let c = choose|c: int| 0 <= c < before.num_cpus() && #[trigger] before.ready(c).members().contains(list@[j])
                                && old_self.wake_cpu_ok(old_self.tcb(list@[j]), raw_cpu, c);
                            if c == cpu {
                                assert(self.ready(c).members().contains(list@[j]));
                            } else {
                                assert(self.spec_cpu(c) == before.spec_cpu(c));
                                assert(self.ready(c).members().contains(list@[j]));
                            }
                        }
                    }
                    assert forall|j: int| k + 1 <= j < list.len() implies #[trigger] self.spec_task(list@[j]) == old_self.spec_task(list@[j]) by {
                        assert(list@[j] != s);
                    }
                    assert forall|j: int| 0 <= j < k + 1 && pred(#[trigger] list@[j]) implies self.spec_task(list@[j]) == old_self.spec_task(list@[j]) by {
                        assert(list@[j] != s);
                    }
                    assert forall|x: usize| !list@.contains(x) implies #[trigger] self.spec_task(x) == old_self.spec_task(x) by {
                        assert(x != s);
                    }
                    assert forall|a: int| 0 <= a < kept@.len() implies #[trigger] self.spec_task(kept@[a]) == old_self.spec_task(kept@[a])
                        && old_self.live(kept@[a]) && old_self.tcb(kept@[a]).state == TaskState::Sleeping
                        && !old_self.tcb(kept@[a]).queued by {
                        assert(kept@[a] != s);
                    }
                }
            } else {
                kept.push(s);
                proof {
                    assert(pred(s));
                    assert(kept@.no_duplicates()) by {
                        assert forall|a: int, b: int| 0 <= a < b < kept@.len() implies kept@[a] != kept@[b] by {
                            if b == kept@.len() - 1 {
                                assert(kept@[a] == kept_before[a]);
                            } else {
                                assert(kept@[a] == kept_before[a]);
                                assert(kept@[b] == kept_before[b]);
                            }
                        }
                    }
                    assert forall|a: int| 0 <= a < kept@.len() implies list@.subrange(0, k + 1).contains(#[trigger] kept@[a]) by {
                        if a == kept@.len() - 1 {
                            assert(list@.subrange(0, k + 1)[k as int] == s);
                        } else {
                            assert(kept@[a] == kept_before[a]);
                        }
                    }
                    assert forall|a: int| 0 <= a < kept@.len() implies #[trigger] self.spec_task(kept@[a]) == old_self.spec_task(kept@[a])
                        && old_self.live(kept@[a]) && old_self.tcb(kept@[a]).state == TaskState::Sleeping
                        && !old_self.tcb(kept@[a]).queued by {
                        if a < kept@.len() - 1 {
                            assert(kept@[a] == kept_before[a]);
                        }
                    }
                }
            }
            k += 1;
        }
        proof {
            assert(list@.subrange(0, list.len() as int) == list@);
        }
        let ghost mid = *self;
        self.sleep_queue = kept;
        proof {
            assert forall|x: usize| #[trigger] self.spec_task(x) == mid.spec_task(x) by {}
            assert forall|k: int| 0 <= k < self.sleep_queue@.len() implies {
                let s = #[trigger] self.sleep_queue@[k];
                pool_live(self.tasks, s) && pool_tcb(self.tasks, s).state == TaskState::Sleeping
                    && !pool_tcb(self.tasks, s).queued
            } by {
                assert(mid.spec_task(self.sleep_queue@[k]) == old_self.spec_task(self.sleep_queue@[k]));
            }
            assert forall|j: int| 0 <= j < list.len() && !pred(#[trigger] list@[j]) implies
                exists|c: int| 0 <= c < self.num_cpus() && #[trigger] self.ready(c).members().contains(list@[j])
                    && old_self.wake_cpu_ok(old_self.tcb(list@[j]), raw_cpu, c) by {
                let c = choose|c: int| 0 <= c < mid.num_cpus() && #[trigger] mid.ready(c).members().contains(list@[j])
                    && old_self.wake_cpu_ok(old_self.tcb(list@[j]), raw_cpu, c);
                assert(self.ready(c) == mid.ready(c));
            }
        }
    }

    /// Take the lowest-priority task off the ready queue of `cpu`.
    fn pop_lowest_ready(&mut self, cpu: usize) -> (r: Option<usize>)
        requires
            old(self).wf(),
            cpu < old(self).num_cpus(),
        ensures
            final(self).wf(),
            final(self).num_cpus() == old(self).num_cpus(),
            forall|c: int| 0 <= c < old(self).num_cpus() && c != cpu ==> #[trigger] final(self).spec_cpu(c) == old(self).spec_cpu(c),
            final(self).spec_cpu(cpu as int).preempt_pending == old(self).spec_cpu(cpu as int).preempt_pending,
            final(self).spec_cpu(cpu as int).context_switches == old(self).spec_cpu(cpu as int).context_switches,
            final(self).spec_cpu(cpu as int).preemptions == old(self).spec_cpu(cpu as int).preemptions,
            final(self).spec_cpu(cpu as int).idle_task == old(self).spec_cpu(cpu as int).idle_task,
            final(self).spec_cpu(cpu as int).steal_attempts == old(self).spec_cpu(cpu as int).steal_attempts,
            final(self).spec_cpu(cpu as int).steal_successes == old(self).spec_cpu(cpu as int).steal_successes,
            final(self).spec_sleep_queue() == old(self).spec_sleep_queue(),
            final(self).spec_current() == old(self).spec_current(),
            final(self).spec_next() == old(self).spec_next(),
            final(self).spec_id_counter() == old(self).spec_id_counter(),
            final(self).spec_active_mask() == old(self).spec_active_mask(),
            match r {
                None => all_empty(old(self).ready(cpu as int).view()) && final(self).spec_cpu(cpu as int)
                    == old(self).spec_cpu(cpu as int) && forall|s: usize| #[trigger] final(self).spec_task(s)
                    == old(self).spec_task(s),
                Some(n) => {
                    &&& old(self).ready(cpu as int).members().contains(n)
                    &&& final(self).ready(cpu as int).members() == old(self).ready(cpu as int).members().remove(n)
                    &&& final(self).ready(cpu as int).spec_len() == old(self).ready(cpu as int).spec_len() - 1
                    &&& final(self).spec_task(n) == Some(TaskControlBlock { queued: false, ..old(self).tcb(n) })
                    &&& Self::tasks_same_except(*final(self), *old(self), n)
                    &&& final(self).unqueued(n)
                },
            },
    {
        let ghost old_self = *self;
        let mut cs = self.cpu_scheds.remove(cpu);
        let r = cs.ready_queue.pop_lowest();
        self.cpu_scheds.insert(cpu, cs);
        proof {
            assert(self.cpu_scheds@ == old_self.cpu_scheds@.update(cpu as int, cs));
        }
        match r {
            None => {
                proof {
                    assert(self.cpu_scheds@ =~= old_self.cpu_scheds@);
                }
                None
            },
            Some(n) => {
                proof {
                    let cpus = self.cpu_scheds@;
                    let tasks = self.tasks;
                    old_self.cpu_scheds@[cpu as int].ready_queue.lemma_members();
                    assert forall|c: int, p: int, i: int|
                        0 <= c < cpus.len() && 0 <= p < MAX_PRIORITIES && 0 <= i < cpus[c].ready_queue.view()[p].len()
                        implies pool_tcb(tasks, #[trigger] cpus[c].ready_queue.view()[p][i]).priority == p by {
                        if c == cpu {
                            let b = ready_queue::bottom_from(old_self.cpu_scheds@[c].ready_queue.view(), 0);
                            let q = old_self.cpu_scheds@[c].ready_queue.view();
                            assert(cpus[c] == cs);
                            cs.ready_queue.lemma_members();
                            if p == b {
                                assert(cs.ready_queue.view()[b] == q[b].drop_first());
                                assert(q[b].drop_first()[i] == q[b][i + 1]);
                                assert(cpus[c].ready_queue.view()[p][i] == q[p][i + 1]);
                            } else {
                                assert(cpus[c].ready_queue.view()[p][i] == q[p][i]);
                            }
                        } else {
                            assert(cpus[c] == old_self.cpu_scheds@[c]);
                        }
                    }
                    assert forall|c: int, x: usize|
                        0 <= c < cpus.len() && #[trigger] cpus[c].ready_queue.members().contains(x) implies
                        pool_live(tasks, x) && pool_tcb(tasks, x).queued && pool_tcb(tasks, x).state == TaskState::Ready by {
                        if c != cpu {
                            assert(old_self.cpu_scheds@[c].ready_queue.members().contains(x));
                        }
                    }
                    assert forall|c1: int, c2: int, x: usize|
                        0 <= c1 < cpus.len() && 0 <= c2 < cpus.len()
                            && #[trigger] cpus[c1].ready_queue.members().contains(x)
                            && #[trigger] cpus[c2].ready_queue.members().contains(x) implies c1 == c2 by {
                        assert(old_self.cpu_scheds@[c1].ready_queue.members().contains(x));
                        assert(old_self.cpu_scheds@[c2].ready_queue.members().contains(x));
                    }
                    assert forall|c: int| 0 <= c < self.num_cpus() implies !#[trigger] self.ready(c).members().contains(n) by {
                        if c != cpu {
                            assert(old_self.cpu_scheds@[c].ready_queue.members().contains(n) ==> c == cpu);
                        }
                    }
                }
                let mut t = self.tasks.get(n).unwrap();
                t.queued = false;
                self.set_task(n, t);
                Some(n)
            },
        }
    }

    /// Work stealing: look at the other active CPUs in turn (starting after
    /// `cpu`) and take the lowest-priority task of the first one that has
    /// more than one ready task and whose task may run on `cpu`. A task
    /// that may not run on `cpu` goes back to the end of its queue.
    fn try_steal_task(&mut self, cpu: usize) -> (r: Option<usize>)
        requires
            old(self).wf(),
            cpu < old(self).num_cpus(),
        ensures
            final(self).wf(),
            final(self).num_cpus() == old(self).num_cpus(),
            final(self).ready(cpu as int) == old(self).ready(cpu as int),
            final(self).spec_cpu(cpu as int).preempt_pending == old(self).spec_cpu(cpu as int).preempt_pending,
            final(self).spec_cpu(cpu as int).context_switches == old(self).spec_cpu(cpu as int).context_switches,
            final(self).spec_cpu(cpu as int).preemptions == old(self).spec_cpu(cpu as int).preemptions,
            final(self).spec_cpu(cpu as int).steal_attempts == u64_specs::wrapping_add(old(self).spec_cpu(cpu as int).steal_attempts, 1),
            final(self).spec_cpu(cpu as int).steal_successes == if r is Some {
                u64_specs::wrapping_add(old(self).spec_cpu(cpu as int).steal_successes, 1)
            } else {
                old(self).spec_cpu(cpu as int).steal_successes
            },
            r is Some ==> exists|c: int| 0 <= c < old(self).num_cpus() && c != cpu && #[trigger] old(self).ready(c).members().contains(
                r.unwrap(),
            ),
            final(self).spec_sleep_queue() == old(self).spec_sleep_queue(),
            final(self).spec_current() == old(self).spec_current(),
            final(self).spec_next() == old(self).spec_next(),
            forall|s: usize| #[trigger] old(self).live(s) == final(self).live(s),
            forall|s: usize| #[trigger] old(self).live(s) ==> final(self).tcb(s).priority == old(self).tcb(s).priority
                && final(self).tcb(s).state == old(self).tcb(s).state,
            forall|s: usize| #[trigger] old(self).unqueued(s) ==> final(self).unqueued(s) && final(self).spec_task(s) == old(self).spec_task(s),
            r is Some ==> {
                let t = r.unwrap();
                &&& !old(self).unqueued(t)
                &&& final(self).live(t)
                &&& final(self).tcb(t).state == TaskState::Ready
                &&& !final(self).tcb(t).queued
                &&& final(self).unqueued(t)
                &&& final(self).tcb(t).spec_can_run_on(cpu as u32)
            },
    {
        let n = self.cpu_scheds.len();
        let cs = &self.cpu_scheds[cpu];
        let (pend, sw, pre, sa, ss) = (cs.preempt_pending, cs.context_switches, cs.preemptions, cs.steal_attempts, cs.steal_successes);
        self.set_cpu_meta(cpu, pend, sw, pre, sa.wrapping_add(1), ss);
        let ghost start = *self;
        proof {
            assert(start.ready(cpu as int) == old(self).ready(cpu as int));
            assert(start.num_cpus() == old(self).num_cpus());
            assert forall|s: usize| #[trigger] old(self).live(s) == start.live(s) by {
                assert(old(self).spec_task(s) == start.spec_task(s));
            }
            assert forall|s: usize| #[trigger] old(self).live(s) implies start.tcb(s).priority == old(self).tcb(s).priority
                && start.tcb(s).state == old(self).tcb(s).state by {
                assert(old(self).spec_task(s) == start.spec_task(s));
            }
            assert forall|s: usize| #[trigger] old(self).unqueued(s) implies start.unqueued(s) && start.spec_task(s) == old(self).spec_task(s) by {
                assert forall|c: int| 0 <= c < start.num_cpus() implies !#[trigger] start.ready(c).members().contains(s) by {
                    assert(!old(self).ready(c).members().contains(s));
                    if c != cpu {
                        assert(start.spec_cpu(c) == old(self).spec_cpu(c));
                    }
                }
            }
        }
        let mut offset: usize = 1;
        while offset < n
            invariant
                self.wf(),
                n == self.num_cpus(),
                n == old(self).num_cpus(),
                cpu < n,
                1 <= offset <= n,
                self.ready(cpu as int) == old(self).ready(cpu as int),
                self.spec_cpu(cpu as int) == start.spec_cpu(cpu as int),
                start.spec_cpu(cpu as int).preempt_pending == old(self).spec_cpu(cpu as int).preempt_pending,
                start.spec_cpu(cpu as int).context_switches == old(self).spec_cpu(cpu as int).context_switches,
                start.spec_cpu(cpu as int).preemptions == old(self).spec_cpu(cpu as int).preemptions,
                start.spec_cpu(cpu as int).steal_attempts == u64_specs::wrapping_add(old(self).spec_cpu(cpu as int).steal_attempts, 1),
                start.spec_cpu(cpu as int).steal_successes == old(self).spec_cpu(cpu as int).steal_successes,
                forall|c: int| 0 <= c < n ==> #[trigger] self.ready(c).members() == old(self).ready(c).members(),
                self.spec_sleep_queue() == old(self).spec_sleep_queue(),
                self.spec_current() == old(self).spec_current(),
                self.spec_next() == old(self).spec_next(),
                forall|s: usize| #[trigger] old(self).live(s) == self.live(s),
                forall|s: usize| #[trigger] old(self).live(s) ==> self.tcb(s).priority == old(self).tcb(s).priority
                    && self.tcb(s).state == old(self).tcb(s).state,
                forall|s: usize| #[trigger] old(self).unqueued(s) ==> self.unqueued(s) && self.spec_task(s) == old(self).spec_task(s),
            decreases n - offset,
        {
            let victim = (cpu + offset) % n;
            proof {
                assert(victim != cpu) by {
                    vstd::arithmetic::div_mod::lemma_mod_add_multiples_vanish(cpu as int, n as int);
                    if cpu + offset < n {
                        vstd::arithmetic::div_mod::lemma_small_mod((cpu + offset) as nat, n as nat);
                    } else {
                        vstd::arithmetic::div_mod::lemma_small_mod((cpu + offset - n) as nat, n as nat);
                        vstd::arithmetic::div_mod::lemma_mod_sub_multiples_vanish((cpu + offset) as int, n as int);
                    }
                }
            }
            if self.is_cpu_active(victim) && self.cpu_scheds[victim].ready_queue.len() > 1 {
                let ghost before = *self;
                let popped = self.pop_lowest_ready(victim);
                proof {
                    assert forall|s: usize| #[trigger] old(self).unqueued(s) implies self.unqueued(s) && self.spec_task(s) == old(self).spec_task(s) by {
                        assert(before.unqueued(s));
                        assert forall|c: int| 0 <= c < self.num_cpus() implies !#[trigger] self.ready(c).members().contains(s) by {
                            assert(!before.ready(c).members().contains(s));
                            if c != victim {
                                assert(self.spec_cpu(c) == before.spec_cpu(c));
                            }
                        }
                        if popped is Some {
                            assert(popped.unwrap() != s) by {
                                assert(before.ready(victim as int).members().contains(popped.unwrap()));
                            }
                        }
                    }
                    if popped is Some {
                        let t = popped.unwrap();
                        assert(!old(self).unqueued(t)) by {
                            assert(!before.unqueued(t));
                        }
                        assert(before.ready(victim as int).members().contains(t));
                        assert(old(self).ready(victim as int).members().contains(t));
                    }
                }
                match popped {
                    Some(t) => {
                        let task = self.tasks.get(t).unwrap();
                        if task.can_run_on(cpu as u32) {
                            let cs = &self.cpu_scheds[cpu];
                            let (pend, sw, pre, sa, ss) = (cs.preempt_pending, cs.context_switches, cs.preemptions, cs.steal_attempts, cs.steal_successes);
                            let ghost mid = *self;
                            self.set_cpu_meta(cpu, pend, sw, pre, sa, ss.wrapping_add(1));
                            proof {
                                assert(mid.ready(cpu as int) == before.ready(cpu as int));
                                assert(self.ready(cpu as int) == mid.ready(cpu as int));
                                assert forall|s: usize| #[trigger] old(self).live(s) == self.live(s) by {
                                    assert(self.spec_task(s) == mid.spec_task(s));
                                    assert(old(self).live(s) == before.live(s));
                                    if s != t {
                                        assert(mid.spec_task(s) == before.spec_task(s));
                                    }
                                }
                                assert forall|s: usize| #[trigger] old(self).live(s) implies self.tcb(s).priority == old(self).tcb(s).priority
                                    && self.tcb(s).state == old(self).tcb(s).state by {
                                    assert(self.spec_task(s) == mid.spec_task(s));
                                    assert(before.live(s));
                                    if s != t {
                                        assert(mid.spec_task(s) == before.spec_task(s));
                                    }
                                }
                                assert forall|s: usize| #[trigger] old(self).unqueued(s) implies self.unqueued(s) && self.spec_task(s) == old(self).spec_task(s) by {
                                    assert(mid.unqueued(s));
                                    assert(self.spec_task(s) == mid.spec_task(s));
                                    assert forall|c: int| 0 <= c < self.num_cpus() implies !#[trigger] self.ready(c).members().contains(s) by {
                                        assert(!mid.ready(c).members().contains(s));
                                        if c != cpu {
                                            assert(self.spec_cpu(c) == mid.spec_cpu(c));
                                        }
                                    }
                                }
                            }
                            return Some(t);
                        } else {
                            let ghost mid = *self;
                            self.push_ready(victim, t);
                            proof {
                                assert forall|c: int| 0 <= c < n implies #[trigger] self.ready(c).members() == old(self).ready(c).members() by {
                                    assert(before.ready(c).members() == old(self).ready(c).members());
                                    if c == victim {
                                        assert(mid.ready(c).members() == before.ready(c).members().remove(t));
                                        assert(self.ready(c).members() == mid.ready(c).members().insert(t));
                                        assert(before.ready(c).members().contains(t));
                                        assert(self.ready(c).members() =~= before.ready(c).members());
                                    } else {
                                        assert(self.spec_cpu(c) == mid.spec_cpu(c));
                                        assert(mid.spec_cpu(c) == before.spec_cpu(c));
                                    }
                                }
                                assert forall|s: usize| #[trigger] old(self).unqueued(s) implies self.unqueued(s) && self.spec_task(s) == old(self).spec_task(s) by {
                                    assert(mid.unqueued(s));
                                    assert(s != t);
                                    assert forall|c: int| 0 <= c < self.num_cpus() implies !#[trigger] self.ready(c).members().contains(s) by {
                                        assert(!mid.ready(c).members().contains(s));
                                        if c != victim {
                                            assert(self.spec_cpu(c) == mid.spec_cpu(c));
                                        }
                                    }
                                }
                            }
                        }
                    },
                    None => {
                        proof {
                            assert forall|c: int| 0 <= c < n implies #[trigger] self.ready(c).members() == old(self).ready(c).members() by {
                                assert(before.ready(c).members() == old(self).ready(c).members());
                                assert(self.spec_cpu(c) == before.spec_cpu(c));
                            }
                        }
                    },
                }
            }
            offset += 1;
        }
        None
    }

    /// The running task keeps the CPU: every ready task of `cpu` has a lower
    /// priority than it.
    pub open spec fn keeps_cpu(self, cpu: int) -> bool {
        &&& self.cur_running()
        &&& (self.ready(cpu).spec_len() == 0 || top_from(self.ready(cpu).view(), MAX_PRIORITIES - 1)
            < self.tcb(self.spec_current().unwrap()).priority)
    }

    /// The ready queue of `cpu` with the running task, when there is one,
    /// put at the back of its level.
    pub open spec fn requeued(self, cpu: int) -> Seq<Seq<usize>> {
        if self.cur_running() {
            let c = self.spec_current().unwrap();
            let p = self.tcb(c).priority as int;
            self.ready(cpu).view().update(p, self.ready(cpu).view()[p].push(c))
        } else {
            self.ready(cpu).view()
        }
    }

    /// Pick the task to run next on `cpu` (set as `next`). The running task
    /// keeps the CPU unless a ready task has at least its priority; then it
    /// goes to the back of its queue and the front task of the highest
    /// non-empty level is chosen; an idle CPU may steal work. Returns
    /// whether a different task than the current one was chosen.
    #[verifier::rlimit(100)]
    #[verifier::spinoff_prover]
    pub fn schedule_cpu_locked(&mut self, cpu: usize) -> (r: bool)
        requires
            old(self).wf(),
            cpu < old(self).num_cpus(),
        ensures
            final(self).wf(),
            final(self).num_cpus() == old(self).num_cpus(),
            final(self).spec_current() == old(self).spec_current(),
            final(self).spec_sleep_queue() == old(self).spec_sleep_queue(),
            !final(self).spec_cpu(cpu as int).preempt_pending,
            old(self).keeps_cpu(cpu as int) ==> !r && final(self).ready(cpu as int) == old(self).ready(cpu as int),
            !r ==> final(self).spec_next() == old(self).spec_current(),
            r ==> final(self).spec_next() is Some && final(self).spec_next() != old(self).spec_current(),
            old(self).spec_current() is Some && !old(self).cur_running() && old(self).unqueued(old(self).spec_current().unwrap())
                ==> final(self).spec_task(old(self).spec_current().unwrap()) == old(self).spec_task(old(self).spec_current().unwrap()),
            r ==> final(self).spec_cpu(cpu as int).context_switches == u64_specs::wrapping_add(
                old(self).spec_cpu(cpu as int).context_switches,
                1,
            ),
            !r ==> final(self).spec_cpu(cpu as int).context_switches == old(self).spec_cpu(cpu as int).context_switches,
            !old(self).keeps_cpu(cpu as int) && !all_empty(old(self).requeued(cpu as int)) ==> {
                let v = old(self).requeued(cpu as int);
                let p = top_from(v, MAX_PRIORITIES - 1);
                let n = v[p][0];
                &&& 0 <= p < MAX_PRIORITIES
                &&& final(self).spec_next() == Some(n)
                &&& r == (old(self).spec_current() != Some(n))
                &&& final(self).ready(cpu as int).view() == v.update(p, v[p].drop_first())
            },
            old(self).cur_running() && !old(self).keeps_cpu(cpu as int) ==> {
                let c = old(self).spec_current().unwrap();
                final(self).spec_task(c) == Some(TaskControlBlock { state: TaskState::Ready, queued: true, ..old(self).tcb(c) })
            },
            !old(self).keeps_cpu(cpu as int) && (!all_empty(old(self).requeued(cpu as int)) || old(self).num_cpus() == 1)
                ==> final(self).spec_cpu(cpu as int).steal_attempts == old(self).spec_cpu(cpu as int).steal_attempts
                && final(self).spec_cpu(cpu as int).steal_successes == old(self).spec_cpu(cpu as int).steal_successes,
            !old(self).keeps_cpu(cpu as int) && all_empty(old(self).requeued(cpu as int)) && old(self).num_cpus() > 1 ==> {
                &&& final(self).spec_cpu(cpu as int).steal_attempts == u64_specs::wrapping_add(
                    old(self).spec_cpu(cpu as int).steal_attempts,
                    1,
                )
                &&& final(self).spec_cpu(cpu as int).steal_successes == old(self).spec_cpu(cpu as int).steal_successes || {
                    &&& final(self).spec_cpu(cpu as int).steal_successes == u64_specs::wrapping_add(
                        old(self).spec_cpu(cpu as int).steal_successes,
                        1,
                    )
                    &&& final(self).spec_next() is Some
                    &&& exists|c: int| 0 <= c < old(self).num_cpus() && c != cpu && #[trigger] old(self).ready(c).members().contains(
                        final(self).spec_next().unwrap(),
                    )
                }
            },
            final(self).spec_next() is Some && final(self).spec_next() != old(self).spec_current() ==> {
                let n = final(self).spec_next().unwrap();
                &&& final(self).live(n)
                &&& final(self).tcb(n).state == TaskState::Running
                &&& final(self).tcb(n).cpu_id == cpu
                &&& forall|m: usize| #[trigger] old(self).ready(cpu as int).members().contains(m)
                    ==> old(self).tcb(m).priority <= final(self).tcb(n).priority
                &&& old(self).cur_running() ==> old(self).tcb(old(self).spec_current().unwrap()).priority
                    <= final(self).tcb(n).priority
            },
    {
        let ghost old_self = *self;
        self.set_pending(cpu, false);
        let current = self.current;
        let cur_prio: Option<Priority> = match current {
            Some(c) => match self.tasks.get(c) {
                Some(t) => if t.state == TaskState::Running { Some(t.priority) } else { None },
                None => None,
            },
            None => None,
        };
        let ghost after_pend = *self;
        if let Some(cp) = cur_prio {
            let empty = self.cpu_scheds[cpu].ready_queue.is_empty();
            let highest = self.cpu_scheds[cpu].ready_queue.peek_highest_priority();
            proof {
                self.ready(cpu as int).lemma_len_empty();
            }
            if empty || highest < cp {
                let ghost before_next = *self;
                self.next = current;
                proof {
                    assert(self.spec_cpu(cpu as int) == before_next.spec_cpu(cpu as int));
                    assert(self.ready(cpu as int) == old_self.ready(cpu as int));
                }
                return false;
            }
            let c = current.unwrap();
            let mut t = self.tasks.get(c).unwrap();
            proof {
                assert(pool_live(self.tasks, c));
                assert forall|x: int| 0 <= x < self.num_cpus() implies !#[trigger] self.ready(x).members().contains(c) by {
                }
                if self.sleep_queue@.contains(c) {
                    let k = choose|k: int| 0 <= k < self.sleep_queue@.len() && self.sleep_queue@[k] == c;
                    assert(pool_tcb(self.tasks, self.sleep_queue@[k]).state == TaskState::Sleeping);
                }
            }
            t.state = TaskState::Ready;
            self.set_task(c, t);
            self.push_ready(cpu, c);
        }
        let ghost pushed = *self;
        proof {
            pushed.ready(cpu as int).lemma_members();
            old_self.ready(cpu as int).lemma_members();
            // every task that was ready on `cpu`, and the running task if it
            // was pushed, sits at the level of its priority in `pushed`
            assert forall|m: usize| #[trigger] old_self.ready(cpu as int).members().contains(m) implies
                pushed.ready(cpu as int).members().contains(m) && pushed.tcb(m).priority == old_self.tcb(m).priority by {
                assert(after_pend.ready(cpu as int) == old_self.ready(cpu as int));
                assert(m != current.unwrap() || cur_prio is None) by {
                    if cur_prio is Some && m == current.unwrap() {
                        assert(old_self.tcb(m).queued);
                    }
                }
            }
        }
        let local = self.pop_ready(cpu);
        let ghost popped = *self;
        proof {
            if old_self.cur_running() && !old_self.keeps_cpu(cpu as int) {
                let c = current.unwrap();
                let pc = old_self.tcb(c).priority as int;
                let ov = old_self.ready(cpu as int).view();
                let v = pushed.ready(cpu as int).view();
                old_self.ready(cpu as int).lemma_len_empty();
                old_self.ready(cpu as int).lemma_members();
                let q = choose|q: int| 0 <= q < MAX_PRIORITIES && #[trigger] ov[q].len() > 0;
                ready_queue::lemma_top_bound(ov, MAX_PRIORITIES - 1, q);
                let t = top_from(ov, MAX_PRIORITIES - 1);
                ready_queue::lemma_top_le(ov, MAX_PRIORITIES - 1);
                assert(t >= pc);
                assert(v == old_self.requeued(cpu as int));
                assert(v[t].len() > 0);
                ready_queue::lemma_top_bound(v, MAX_PRIORITIES - 1, t);
                assert(!old_self.ready(cpu as int).members().contains(c)) by {
                    if old_self.ready(cpu as int).members().contains(c) {
                        assert(old_self.tcb(c).queued);
                    }
                }
                assert(local is Some) by {
                    if local is None {
                        assert(v[t].len() == 0);
                    }
                }
                let p = top_from(v, MAX_PRIORITIES - 1);
                let n = local.unwrap();
                if p == pc {
                    assert(ov[pc].len() > 0);
                    assert(v[p][0] == ov[pc][0]);
                    assert(old_self.ready(cpu as int).members().contains(ov[pc][0]));
                } else {
                    assert(v[p] == ov[p]);
                    assert(old_self.ready(cpu as int).members().contains(ov[p][0]));
                }
                assert(n != c);
                assert(popped.spec_task(c) == pushed.spec_task(c));
            }
        }
        let mut next = local;
        if local.is_none() && self.cpu_scheds.len() > 1 {
            next = self.try_steal_task(cpu);
            proof {
                if next is Some {
                    let t = next.unwrap();
                    let c = choose|c: int| 0 <= c < popped.num_cpus() && c != cpu && #[trigger] popped.ready(c).members().contains(t);
                    assert(popped.spec_cpu(c) == pushed.spec_cpu(c));
                    assert(pushed.ready(c) == old_self.ready(c)) by {
                        assert(after_pend.spec_cpu(c) == old_self.spec_cpu(c));
                    }
                    assert(old_self.ready(c).members().contains(t));
                }
            }
        }
        let ghost after_steal = *self;
        proof {
            if local is None {
                pushed.ready(cpu as int).lemma_len_empty();
                if old_self.cur_running() {
                    let c = current.unwrap();
                    assert(pushed.ready(cpu as int).members().contains(c));
                    let (p, i) = choose|p: int, i: int| 0 <= p < MAX_PRIORITIES && 0 <= i < pushed.ready(cpu as int).view()[p].len()
                        && pushed.ready(cpu as int).view()[p][i] == c;
                    assert(pushed.ready(cpu as int).view()[p].len() == 0);
                }
            }
        }
        match next {
            Some(n) => {
                let mut t = self.tasks.get(n).unwrap();
                proof {
                    assert(pool_live(self.tasks, n));
                    if self.sleep_queue@.contains(n) {
                        let k = choose|k: int| 0 <= k < self.sleep_queue@.len() && self.sleep_queue@[k] == n;
                        assert(pool_tcb(self.tasks, self.sleep_queue@[k]).state == TaskState::Sleeping);
                    }
                }
                proof {
                    if old_self.spec_current() is Some && !old_self.cur_running() && old_self.unqueued(old_self.spec_current().unwrap()) {
                        let c = old_self.spec_current().unwrap();
                        assert(cur_prio is None);
                        assert(pushed.unqueued(c)) by {
                            assert forall|x: int| 0 <= x < pushed.num_cpus() implies !#[trigger] pushed.ready(x).members().contains(c) by {
                                assert(!old_self.ready(x).members().contains(c));
                                if x != cpu {
                                    assert(pushed.spec_cpu(x) == old_self.spec_cpu(x));
                                }
                            }
                        }
                        if local is Some {
                            assert(n != c);
                        } else {
                            assert(popped.unqueued(c)) by {
                                assert forall|x: int| 0 <= x < popped.num_cpus() implies !#[trigger] popped.ready(x).members().contains(c) by {
                                    if x != cpu {
                                        assert(popped.spec_cpu(x) == pushed.spec_cpu(x));
                                    }
                                    assert(popped.ready(x) == pushed.ready(x));
                                }
                            }
                            assert(n != c);
                        }
                        assert(self.spec_task(c) == old_self.spec_task(c));
                    }
                }
                t.state = TaskState::Running;
                t.cpu_id = cpu as u32;
                let ghost before_set = *self;
                self.set_task(n, t);
                let ghost mid = *self;
                self.next = Some(n);
                proof {
                    assert forall|s: usize| #[trigger] self.spec_task(s) == mid.spec_task(s) by {}
                    if old_self.spec_current() is Some && !old_self.cur_running() && old_self.unqueued(old_self.spec_current().unwrap()) {
                        let c = old_self.spec_current().unwrap();
                        assert(n != c);
                        assert(self.spec_task(c) == before_set.spec_task(c));
                    }
                    assert(self.ready(cpu as int) == mid.ready(cpu as int));
                    assert(self.spec_cpu(cpu as int) == mid.spec_cpu(cpu as int));
                    assert(self.tcb(n).priority == before_set.tcb(n).priority);
                    if local is Some {
                        // taken from the local queue: the front of the highest level
                        let top = top_from(pushed.ready(cpu as int).view(), MAX_PRIORITIES - 1);
                        assert(pushed.tcb(n).priority == top);
                        assert forall|m: usize| #[trigger] old_self.ready(cpu as int).members().contains(m)
                            implies old_self.tcb(m).priority <= self.tcb(n).priority by {
                            let (p, i) = choose|p: int, i: int| 0 <= p < MAX_PRIORITIES && 0 <= i < pushed.ready(cpu as int).view()[p].len()
                                && pushed.ready(cpu as int).view()[p][i] == m;
                            ready_queue::lemma_top_bound(pushed.ready(cpu as int).view(), MAX_PRIORITIES - 1, p);
                        }
                        if old_self.cur_running() {
                            let c = current.unwrap();
                            assert(pushed.ready(cpu as int).members().contains(c));
                            let (p, i) = choose|p: int, i: int| 0 <= p < MAX_PRIORITIES && 0 <= i < pushed.ready(cpu as int).view()[p].len()
                                && pushed.ready(cpu as int).view()[p][i] == c;
                            ready_queue::lemma_top_bound(pushed.ready(cpu as int).view(), MAX_PRIORITIES - 1, p);
                        }
                    }
                }
                let ghost installed = *self;
                let switched = if current != Some(n) {
                    let cs = &self.cpu_scheds[cpu];
                    let (pend, sw, pre, sa, ss) = (cs.preempt_pending, cs.context_switches, cs.preemptions, cs.steal_attempts, cs.steal_successes);
                    let was_preempted = match cur_prio {
                        Some(cp) => t.priority > cp,
                        None => false,
                    };
                    let pre2 = if was_preempted { pre.wrapping_add(1) } else { pre };
                    self.set_cpu_meta(cpu, pend, sw.wrapping_add(1), pre2, sa, ss);
                    true
                } else {
                    false
                };
                proof {
                    assert(self.spec_task(n) == installed.spec_task(n));
                    if old_self.spec_current() is Some && !old_self.cur_running() && old_self.unqueued(old_self.spec_current().unwrap()) {
                        let c = old_self.spec_current().unwrap();
                        assert(self.spec_task(c) == installed.spec_task(c));
                        assert(installed.spec_task(c) == old_self.spec_task(c));
                    }
                }
                switched
            },
            None => {
                proof {
                    if old_self.spec_current() is Some && !old_self.cur_running() && old_self.unqueued(old_self.spec_current().unwrap()) {
                        let c = old_self.spec_current().unwrap();
                        assert(cur_prio is None);
                        assert(pushed.unqueued(c)) by {
                            assert forall|x: int| 0 <= x < pushed.num_cpus() implies !#[trigger] pushed.ready(x).members().contains(c) by {
                                assert(!old_self.ready(x).members().contains(c));
                                if x != cpu {
                                    assert(pushed.spec_cpu(x) == old_self.spec_cpu(x));
                                }
                            }
                        }
                        assert(popped.unqueued(c)) by {
                            assert forall|x: int| 0 <= x < popped.num_cpus() implies !#[trigger] popped.ready(x).members().contains(c) by {
                                if x != cpu {
                                    assert(popped.spec_cpu(x) == pushed.spec_cpu(x));
                                }
                                assert(popped.ready(x) == pushed.ready(x));
                            }
                        }
                        assert(self.spec_task(c) == popped.spec_task(c));
                    }
                }
                self.next = current;
                false
            },
        }
    }

    /// Schedule on the scheduler CPU of the calling CPU `raw_cpu`.
    pub fn schedule(&mut self, raw_cpu: u32) -> (r: bool)
        requires
            old(self).wf(),
        ensures
            final(self).wf(),
            final(self).num_cpus() == old(self).num_cpus(),
            final(self).spec_current() == old(self).spec_current(),
            !r ==> final(self).spec_next() == old(self).spec_current(),
            r ==> final(self).spec_next() is Some && final(self).spec_next() != old(self).spec_current(),
            old(self).keeps_cpu(old(self).spec_sched_cpu(raw_cpu)) ==> !r && final(self).ready(old(self).spec_sched_cpu(raw_cpu))
                == old(self).ready(old(self).spec_sched_cpu(raw_cpu)),
            ({
                let cpu = old(self).spec_sched_cpu(raw_cpu);
                !old(self).keeps_cpu(cpu) && !all_empty(old(self).requeued(cpu)) ==> {
                    let v = old(self).requeued(cpu);
                    let p = top_from(v, MAX_PRIORITIES - 1);
                    let n = v[p][0];
                    &&& final(self).spec_next() == Some(n)
                    &&& r == (old(self).spec_current() != Some(n))
                    &&& final(self).ready(cpu).view() == v.update(p, v[p].drop_first())
                }
            }),
            old(self).cur_running() && !old(self).keeps_cpu(old(self).spec_sched_cpu(raw_cpu)) ==> {
                let c = old(self).spec_current().unwrap();
                final(self).spec_task(c) == Some(TaskControlBlock { state: TaskState::Ready, queued: true, ..old(self).tcb(c) })
            },
            r ==> final(self).spec_cpu(old(self).spec_sched_cpu(raw_cpu)).context_switches == u64_specs::wrapping_add(
                old(self).spec_cpu(old(self).spec_sched_cpu(raw_cpu)).context_switches,
                1,
            ),
            !r ==> final(self).spec_cpu(old(self).spec_sched_cpu(raw_cpu)).context_switches == old(self).spec_cpu(
                old(self).spec_sched_cpu(raw_cpu),
            ).context_switches,
            final(self).spec_next() is Some && final(self).spec_next() != old(self).spec_current() ==> {
                let n = final(self).spec_next().unwrap();
                let c = old(self).spec_sched_cpu(raw_cpu);
                &&& final(self).tcb(n).state == TaskState::Running
                &&& forall|m: usize| #[trigger] old(self).ready(c).members().contains(m)
                    ==> old(self).tcb(m).priority <= final(self).tcb(n).priority
                &&& old(self).cur_running() ==> old(self).tcb(old(self).spec_current().unwrap()).priority
                    <= final(self).tcb(n).priority
            },
    {
        let cpu = self.current_scheduler_cpu_id(raw_cpu);
        self.schedule_cpu_locked(cpu)
    }

    /// A higher-priority task waits and preemption was requested on the
    /// calling CPU.
    pub fn preempt_pending(&self, raw_cpu: u32) -> (r: bool)
        requires
            self.wf(),
        ensures
            r == (self.spec_cpu(self.spec_sched_cpu(raw_cpu)).preempt_pending
                && self.spec_higher_ready(self.spec_sched_cpu(raw_cpu))),
    {
        let cpu = self.current_scheduler_cpu_id(raw_cpu);
        self.cpu_scheds[cpu].preempt_pending && self.has_higher_ready_than_current(cpu)
    }

    /// Schedule only when preemption was requested and a higher-priority
    /// task waits; otherwise clear the request and keep the current task.
    pub fn schedule_if_preempt_pending(&mut self, raw_cpu: u32) -> (r: bool)
        requires
            old(self).wf(),
        ensures
            final(self).wf(),
            final(self).num_cpus() == old(self).num_cpus(),
            final(self).spec_current() == old(self).spec_current(),
            !final(self).spec_cpu(old(self).spec_sched_cpu(raw_cpu)).preempt_pending,
            !(old(self).spec_cpu(old(self).spec_sched_cpu(raw_cpu)).preempt_pending
                && old(self).spec_higher_ready(old(self).spec_sched_cpu(raw_cpu))) ==> !r
                && final(self).spec_next() == old(self).spec_current(),
            r ==> final(self).spec_next() is Some && final(self).spec_next() != old(self).spec_current(),
    {
        let cpu = self.current_scheduler_cpu_id(raw_cpu);
        if self.cpu_scheds[cpu].preempt_pending && self.has_higher_ready_than_current(cpu) {
            self.schedule_cpu_locked(cpu)
        } else {
            self.set_pending(cpu, false);
            let ghost mid = *self;
            self.next = self.current;
            proof {
                assert(self.spec_cpu(cpu as int) == mid.spec_cpu(cpu as int));
            }
            false
        }
    }

    /// End the current task and schedule another one on the calling CPU.
    /// Returns false when there is no current task.
    pub fn terminate_current(&mut self, raw_cpu: u32) -> (r: bool)
        requires
            old(self).wf(),
            old(self).current_is_running_or_none(),
        ensures
            final(self).wf(),
            final(self).num_cpus() == old(self).num_cpus(),
            final(self).spec_current() == old(self).spec_current(),
            old(self).spec_current() is None ==> !r && *final(self) == *old(self),
            old(self).spec_current() is Some ==> final(self).spec_task(old(self).spec_current().unwrap())
                == Some(TaskControlBlock { state: TaskState::Terminated, ..old(self).tcb(old(self).spec_current().unwrap()) }),
            r ==> final(self).spec_next() is Some && final(self).spec_next() != old(self).spec_current(),
    {
        match self.current {
            None => false,
            Some(c) => {
                let mut t = self.tasks.get(c).unwrap();
                proof {
                    assert(pool_live(self.tasks, c));
                    assert forall|x: int| 0 <= x < self.num_cpus() implies !#[trigger] self.ready(x).members().contains(c) by {
                    }
                    if self.sleep_queue@.contains(c) {
                        let k = choose|k: int| 0 <= k < self.sleep_queue@.len() && self.sleep_queue@[k] == c;
                        assert(pool_tcb(self.tasks, self.sleep_queue@[k]).state == TaskState::Sleeping);
                    }
                }
                t.state = TaskState::Terminated;
                self.set_task(c, t);
                let cpu = self.current_scheduler_cpu_id(raw_cpu);
                self.schedule_cpu_locked(cpu)
            },
        }
    }

    /// Pin the task in `slot` to a CPU, or let it run anywhere.
    pub fn set_task_affinity(&mut self, slot: usize, affinity: CpuAffinity) -> (r: bool)
        requires
            old(self).wf(),
        ensures
            final(self).wf(),
            r == old(self).live(slot),
            r ==> final(self).spec_task(slot) == Some(TaskControlBlock { affinity, ..old(self).tcb(slot) }),
            !r ==> *final(self) == *old(self),
            Self::tasks_same_except(*final(self), *old(self), slot),
            Self::same_but_tasks(*final(self), *old(self)),
    {
        match self.tasks.get(slot) {
            None => false,
            Some(t0) => {
                let ghost old_self = *self;
                let mut t = t0;
                t.set_affinity(affinity);
                self.tasks.set(slot, t);
                proof {
                    lemma_pool_set(old_self.tasks, self.tasks, slot, Some(t));
                    let cpus = self.cpu_scheds@;
                    assert forall|c: int, x: usize|
                        0 <= c < cpus.len() && #[trigger] cpus[c].ready_queue.members().contains(x) implies
                        pool_live(self.tasks, x) && pool_tcb(self.tasks, x).queued && pool_tcb(self.tasks, x).state == TaskState::Ready by {
                        assert(pool_live(old_self.tasks, x));
                    }
                    assert forall|c: int, p: int, i: int|
                        0 <= c < cpus.len() && 0 <= p < MAX_PRIORITIES && 0 <= i < cpus[c].ready_queue.view()[p].len()
                        implies pool_tcb(self.tasks, #[trigger] cpus[c].ready_queue.view()[p][i]).priority == p by {
                        let x = cpus[c].ready_queue.view()[p][i];
                        cpus[c].ready_queue.lemma_members();
                        assert(cpus[c].ready_queue.members().contains(x));
                        assert(pool_live(old_self.tasks, x));
                    }
                    assert forall|k: int| 0 <= k < self.sleep_queue@.len() implies {
                        let s = #[trigger] self.sleep_queue@[k];
                        pool_live(self.tasks, s) && pool_tcb(self.tasks, s).state == TaskState::Sleeping
                            && !pool_tcb(self.tasks, s).queued
                    } by {
                        assert(pool_live(old_self.tasks, self.sleep_queue@[k]));
                    }
                    assert forall|x: usize| #[trigger] pool_live(self.tasks, x) implies pool_tcb(self.tasks, x).priority
                        <= MAX_PRIORITY && (pool_tcb(self.tasks, x).queued ==> pool_tcb(self.tasks, x).state
                        == TaskState::Ready) by {
                        assert(pool_live(old_self.tasks, x));
                    }
                }
                true
            },
        }
    }

    /// Counters and state of the calling CPU's scheduler.
    pub fn stats(&self, raw_cpu: u32) -> (r: SchedulerStats)
        requires
            self.wf(),
        ensures
            ({
                let c = self.spec_sched_cpu(raw_cpu);
                &&& r.ready_tasks == self.ready(c).spec_len()
                &&& r.highest_ready_priority == (if self.ready(c).spec_len() == 0 { 0 } else { top_from(self.ready(c).view(), MAX_PRIORITIES - 1) })
                &&& r.current_task == (if self.spec_current() is Some { Some(spec_task_info(self.tcb(self.spec_current().unwrap()), true)) } else { None::<TaskInfo> })
                &&& r.context_switches == self.spec_cpu(c).context_switches
                &&& r.preemptions == self.spec_cpu(c).preemptions
                &&& r.preempt_pending == self.spec_cpu(c).preempt_pending
                &&& r.current_cpu == c
                &&& r.active_cpu_mask == effective_mask(self.spec_active_mask())
                &&& r.steal_attempts == self.steal_attempts_total(self.num_cpus() as int)
                &&& r.steal_successes == self.steal_successes_total(self.num_cpus() as int)
            }),
    {
        let cpu = self.current_scheduler_cpu_id(raw_cpu);
        let cs = &self.cpu_scheds[cpu];
        let mut total_steal_attempts: u64 = 0;
        let mut total_steal_successes: u64 = 0;
        let mut i: usize = 0;
        while i < self.cpu_scheds.len()
            invariant
                i <= self.cpu_scheds.len(),
                total_steal_attempts == self.steal_attempts_total(i as int),
                total_steal_successes == self.steal_successes_total(i as int),
            decreases self.cpu_scheds.len() - i,
        {
            total_steal_attempts = total_steal_attempts.wrapping_add(self.cpu_scheds[i].steal_attempts);
            total_steal_successes = total_steal_successes.wrapping_add(self.cpu_scheds[i].steal_successes);
            i += 1;
        }
        proof {
            cs.ready_queue.lemma_len_empty();
        }
        let highest = if cs.ready_queue.is_empty() { 0 } else { cs.ready_queue.peek_highest_priority() };
        SchedulerStats {
            ready_tasks: cs.ready_queue.len(),
            highest_ready_priority: highest,
            current_task: self.current_task_info(),
            context_switches: cs.context_switches,
            preemptions: cs.preemptions,
            preempt_pending: cs.preempt_pending,
            current_cpu: cpu,
            active_cpu_mask: self.active_cpu_mask(),
            steal_attempts: total_steal_attempts,
            steal_successes: total_steal_successes,
        }
    }

    /// The steal attempts of the first `n` CPUs, summed modulo 2^64.
    pub open spec fn steal_attempts_total(self, n: int) -> u64
        decreases n,
    {
        if n <= 0 {
            0
        } else {
            u64_specs::wrapping_add(self.steal_attempts_total(n - 1), self.spec_cpu(n - 1).steal_attempts)
        }
    }

    /// The successful steals of the first `n` CPUs, summed modulo 2^64.
    pub open spec fn steal_successes_total(self, n: int) -> u64
        decreases n,
    {
        if n <= 0 {
            0
        } else {
            u64_specs::wrapping_add(self.steal_successes_total(n - 1), self.spec_cpu(n - 1).steal_successes)
        }
    }

    /// The public view of the current task.
    pub fn current_task_info(&self) -> (r: Option<TaskInfo>)
        requires
            self.wf(),
        ensures
            r == (if self.spec_current() is Some { Some(spec_task_info(self.tcb(self.spec_current().unwrap()), true)) } else { None::<TaskInfo> }),
    {
        match self.current {
            None => None,
            Some(c) => {
                proof {
                    assert(pool_live(self.tasks, c));
                }
                let t = self.tasks.get(c).unwrap();
                Some(task_info(&t, true))
            },
        }
    }

    /// The slots shown by a task snapshot: the current task, then each
    /// CPU's ready tasks (level 0 first), then the sleeping tasks.
    pub open spec fn snapshot_slots(self) -> Seq<usize> {
        (if self.spec_current() is Some { seq![self.spec_current().unwrap()] } else { Seq::empty() })
            + self.ready_slots(self.num_cpus() as int) + self.spec_sleep_queue()
    }

    pub open spec fn ready_slots(self, k: int) -> Seq<usize>
        decreases k,
    {
        if k <= 0 {
            Seq::empty()
        } else {
            self.ready_slots(k - 1) + flat(self.ready(k - 1).view(), MAX_PRIORITIES as int)
        }
    }

    /// Public views of the tasks in [`Scheduler::snapshot_slots`] order: at
    /// most [`TASK_SNAPSHOT_CAP`] of them, and the number that there are.
    pub fn task_snapshot(&self) -> (r: (Vec<TaskInfo>, usize))
        requires
            self.wf(),
        ensures
            r.1 == self.snapshot_slots().len(),
            r.0.len() == if r.1 < TASK_SNAPSHOT_CAP { r.1 } else { TASK_SNAPSHOT_CAP },
            forall|i: int| 0 <= i < r.0.len() ==> #[trigger] r.0@[i] == spec_task_info(
                self.tcb(self.snapshot_slots()[i]),
                i == 0 && self.spec_current() is Some,
            ),
    {
        let mut slots: Vec<usize> = Vec::new();
        if let Some(c) = self.current {
            slots.push(c);
        }
        let mut c: usize = 0;
        proof {
            assert(slots@ == (if self.spec_current() is Some { seq![self.spec_current().unwrap()] } else { Seq::empty() }) + self.ready_slots(0));
        }
        while c < self.cpu_scheds.len()
            invariant
                self.wf(),
                c <= self.num_cpus(),
                slots@ == (if self.spec_current() is Some { seq![self.spec_current().unwrap()] } else { Seq::<usize>::empty() })
                    + self.ready_slots(c as int),
                forall|x: int| 0 <= x < slots@.len() ==> #[trigger] self.live(slots@[x]),
            decreases self.cpu_scheds.len() - c,
        {
            let q = self.cpu_scheds[c].ready_queue.queued_slots();
            let ghost prev = slots@;
            let mut j: usize = 0;
            while j < q.len()
                invariant
                    self.wf(),
                    c < self.num_cpus(),
                    q@ == flat(self.ready(c as int).view(), MAX_PRIORITIES as int),
                    forall|y: int| 0 <= y < q.len() ==> self.ready(c as int).members().contains(#[trigger] q@[y]),
                    j <= q.len(),
                    slots@ == prev + q@.subrange(0, j as int),
                    forall|x: int| 0 <= x < slots@.len() ==> #[trigger] self.live(slots@[x]),
                decreases q.len() - j,
            {
                proof {
                    assert(self.ready(c as int).members().contains(q@[j as int]));
                    assert(self.cpu_scheds@[c as int].ready_queue.members().contains(q@[j as int]));
                }
                slots.push(q[j]);
                j += 1;
                proof {
                    assert(q@.subrange(0, j as int) == q@.subrange(0, j - 1).push(q@[j - 1]));
                }
            }
            proof {
                assert(q@.subrange(0, q.len() as int) == q@);
            }
            c += 1;
        }
        let mut k: usize = 0;
        let ghost prev2 = slots@;
        while k < self.sleep_queue.len()
            invariant
                self.wf(),
                k <= self.sleep_queue.len(),
                slots@ == prev2 + self.sleep_queue@.subrange(0, k as int),
                forall|x: int| 0 <= x < slots@.len() ==> #[trigger] self.live(slots@[x]),
            decreases self.sleep_queue.len() - k,
        {
            proof {
                assert(pool_live(self.tasks, self.sleep_queue@[k as int]));
            }
            slots.push(self.sleep_queue[k]);
            k += 1;
            proof {
                assert(self.sleep_queue@.subrange(0, k as int) == self.sleep_queue@.subrange(0, k - 1).push(self.sleep_queue@[k - 1]));
            }
        }
        proof {
            assert(self.sleep_queue@.subrange(0, self.sleep_queue@.len() as int) == self.sleep_queue@);
            assert(slots@ == self.snapshot_slots());
        }
        let count = slots.len();
        let mut out: Vec<TaskInfo> = Vec::new();
        let mut i: usize = 0;
        while i < count && i < TASK_SNAPSHOT_CAP
            invariant
                self.wf(),
                count == slots.len(),
                slots@ == self.snapshot_slots(),
                i <= count,
                i <= TASK_SNAPSHOT_CAP,
                out.len() == i,
                forall|x: int| 0 <= x < slots@.len() ==> #[trigger] self.live(slots@[x]),
                forall|x: int| 0 <= x < i ==> #[trigger] out@[x] == spec_task_info(
                    self.tcb(self.snapshot_slots()[x]),
                    x == 0 && self.spec_current() is Some,
                ),
            decreases count - i,
        {
            proof {
                assert(self.live(slots@[i as int]));
                assert(pool_live(self.tasks, slots@[i as int]));
            }
            let t = self.tasks.get(slots[i]).unwrap();
            let is_current = i == 0 && self.current.is_some();
            out.push(task_info(&t, is_current));
            i += 1;
        }
        (out, count)
    }
}

} // verus!
