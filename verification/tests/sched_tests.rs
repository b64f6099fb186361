use openion::sched::async_rt::{
    current_poll_task, note_rx_byte, poll_once, sleep_ticks, spawn, stats, tick_update, wake_task, Executor,
    SpawnError, TaskPoller, NO_TASK,
};
use openion::sched::percpu::{
    critical_nest, current_cpu_id, current_task_ptr, enter_critical, exit_critical, max_cpus, next_task_ptr,
    set_current_task_ptr, set_next_task_ptr, smp_enabled, CpuId, PerCpuTable,
};
use openion::sched::ready_queue::{is_realtime_priority, ReadyQueue};
use openion::sched::task::{CpuAffinity, TaskControlBlock, TaskState};
use openion::sched::wait::{Event, Semaphore, WaitQueue};
use openion::sched::{cpu_bit, Scheduler, TASK_CAP};

/// The pool slot of the task with id `id`.
fn slot_of(s: &Scheduler, id: u32) -> usize {
    (0..TASK_CAP).find(|&i| s.task(i).map(|t| t.id) == Some(id)).unwrap()
}

/// A scheduler on one CPU running task `b` (priority 5), with `a`
/// (priority 3) ready.
fn running_pair() -> (Scheduler, usize, usize) {
    let mut s = Scheduler::new(1);
    let a = s.create_task(0x100, 0x8000, 4096, 3, "a", 0);
    let b = s.create_task(0x200, 0x9000, 4096, 5, "b", 0);
    assert_eq!((a, b), (0, 1));
    assert!(s.schedule(0));
    s.switch_to_next();
    let sa = slot_of(&s, a);
    let sb = slot_of(&s, b);
    assert_eq!(s.current_task(), Some(sb));
    (s, sa, sb)
}

#[test]
fn highest_priority_runs_first() {
    let (s, sa, sb) = running_pair();
    assert_eq!(s.task(sb).unwrap().state, TaskState::Running);
    assert_eq!(s.task(sa).unwrap().state, TaskState::Ready);
    let info = s.current_task_info().unwrap();
    assert_eq!(info.name, "b");
    assert!(info.current);
    let st = s.stats(0);
    assert_eq!(st.ready_tasks, 1);
    assert_eq!(st.highest_ready_priority, 3);
    assert_eq!(st.context_switches, 1);
    let (snap, count) = s.task_snapshot();
    assert_eq!(count, 2);
    assert_eq!(snap.len(), 2);
}

#[test]
fn running_task_keeps_the_cpu_against_lower_priorities() {
    let (mut s, _sa, sb) = running_pair();
    assert!(!s.schedule(0));
    assert_eq!(s.next_task(), Some(sb));
}

#[test]
fn block_and_wake() {
    let (mut s, sa, sb) = running_pair();
    assert!(s.block_current_task());
    assert_eq!(s.task(sb).unwrap().state, TaskState::Blocked);
    assert!(s.schedule(0));
    s.switch_to_next();
    assert_eq!(s.current_task(), Some(sa));
    assert!(!s.wake_blocked_task(sa, 0));
    assert!(s.wake_blocked_task(sb, 0));
    assert_eq!(s.task(sb).unwrap().state, TaskState::Ready);
    // b outranks the running a
    assert!(s.preempt_pending(0));
    assert!(s.schedule_if_preempt_pending(0));
    s.switch_to_next();
    assert_eq!(s.current_task(), Some(sb));
    assert!(!s.preempt_pending(0));
}

#[test]
fn delay_then_tick_wakes() {
    let (mut s, sa, sb) = running_pair();
    assert!(s.delay(10, 100));
    let t = s.task(sb).unwrap();
    assert_eq!(t.state, TaskState::Sleeping);
    assert_eq!(t.wakeup_tick, 110);
    assert!(s.schedule(0));
    s.switch_to_next();
    assert_eq!(s.current_task(), Some(sa));
    s.tick_update(105, 0);
    assert_eq!(s.task(sb).unwrap().state, TaskState::Sleeping);
    s.tick_update(110, 0);
    assert_eq!(s.task(sb).unwrap().state, TaskState::Ready);
}

#[test]
fn terminate_current_runs_the_next() {
    let (mut s, sa, _sb) = running_pair();
    assert!(s.terminate_current(0));
    s.switch_to_next();
    assert_eq!(s.current_task(), Some(sa));
    let (_, count) = s.task_snapshot();
    assert_eq!(count, 1);
}

#[test]
fn cpu_masks_and_affinity() {
    let mut s = Scheduler::new(2);
    assert_eq!(s.active_cpu_mask(), 1);
    assert!(s.is_cpu_active(0));
    assert!(!s.is_cpu_active(1));
    assert_eq!(s.current_scheduler_cpu_id(1), 0);
    s.set_active_cpu_mask(0b11);
    assert!(s.is_cpu_active(1));
    assert_eq!(s.current_scheduler_cpu_id(3), 1);
    s.set_active_cpu_mask(0);
    assert_eq!(s.active_cpu_mask(), 1);
    assert_eq!(cpu_bit(3), Some(8));
    let id = s.create_task(0x100, 0x8000, 4096, 2, "p", 0);
    let slot = slot_of(&s, id);
    assert!(s.set_task_affinity(slot, CpuAffinity::Pin(1)));
    assert_eq!(s.task(slot).unwrap().affinity, CpuAffinity::Pin(1));
    assert!(!s.set_task_affinity(TASK_CAP - 1, CpuAffinity::Any));
}

#[test]
fn task_control_block_affinity() {
    let mut t = TaskControlBlock::new(7, 0x10, 0x20, 512, 2, "t");
    assert_eq!(t.state, TaskState::Ready);
    assert!(t.can_run_on(3));
    t.set_affinity(CpuAffinity::Pin(1));
    assert!(t.can_run_on(1));
    assert!(!t.can_run_on(0));
}

#[test]
fn ready_queue_orders_by_priority_then_arrival() {
    let mut q = ReadyQueue::new();
    let mut t0 = TaskControlBlock::new(0, 0, 0, 0, 2, "t0");
    let mut t1 = TaskControlBlock::new(1, 0, 0, 0, 6, "t1");
    let mut t2 = TaskControlBlock::new(2, 0, 0, 0, 2, "t2");
    assert!(q.push(0, &mut t0));
    assert!(t0.queued);
    assert!(!q.push(0, &mut t0));
    assert!(q.push(1, &mut t1));
    assert!(q.push(2, &mut t2));
    assert_eq!(q.len(), 3);
    assert_eq!(q.peek_highest_priority(), 6);
    assert_eq!(q.pop_highest(), Some(1));
    assert_eq!(q.pop_lowest(), Some(0));
    assert_eq!(q.pop_highest(), Some(2));
    assert!(q.is_empty());
    assert_eq!(q.pop_highest(), None);
    assert!(is_realtime_priority(7));
    assert!(!is_realtime_priority(6));
}

#[test]
fn wait_queue_is_first_come_first_served() {
    let mut q: WaitQueue<3> = WaitQueue::new();
    assert!(q.push(4));
    assert!(q.push(9));
    assert!(!q.push(4));
    assert!(q.push(1));
    assert!(!q.push(2));
    assert!(q.contains(9));
    q.remove(9);
    assert!(!q.contains(9));
    assert_eq!(q.pop_front(), Some(4));
    assert_eq!(q.take_all(), vec![1]);
    assert_eq!(q.pop_front(), None);
}

#[test]
fn wait_queue_blocks_and_wakes_tasks() {
    let (mut s, _sa, sb) = running_pair();
    let mut q: WaitQueue<4> = WaitQueue::new();
    assert!(q.wait(&mut s));
    assert_eq!(s.task(sb).unwrap().state, TaskState::Blocked);
    assert_eq!(q.stats().waiting, 1);
    assert!(q.wake_one(&mut s, 0));
    assert_eq!(s.task(sb).unwrap().state, TaskState::Ready);
    assert_eq!(q.stats().wakes, 1);
    assert!(!q.wake_one(&mut s, 0));
    assert_eq!(q.wake_all(&mut s, 0), 0);
}

#[test]
fn event_remembers_a_signal() {
    let (mut s, _sa, sb) = running_pair();
    let mut e: Event<4> = Event::new();
    assert!(!e.signal(&mut s, 0));
    assert!(e.is_signaled());
    assert!(e.wait(&mut s));
    assert!(!e.is_signaled());
    assert_eq!(s.task(sb).unwrap().state, TaskState::Running);
    assert!(e.wait(&mut s));
    assert_eq!(s.task(sb).unwrap().state, TaskState::Blocked);
    assert_eq!(e.stats().waiting, 1);
    assert!(e.signal(&mut s, 0));
    assert!(!e.is_signaled());
    e.signal(&mut s, 0);
    e.clear();
    assert!(!e.is_signaled());
}

#[test]
fn semaphore_counts_permits() {
    let (mut s, _sa, sb) = running_pair();
    let mut sem: Semaphore<4> = Semaphore::new(2);
    assert!(sem.try_acquire());
    assert!(sem.try_acquire());
    assert!(!sem.try_acquire());
    assert_eq!(sem.available(), 0);
    assert!(sem.wait(&mut s));
    assert_eq!(s.task(sb).unwrap().state, TaskState::Blocked);
    assert_eq!(sem.stats().waiting, 1);
    // the permit goes to the waiter
    assert_eq!(sem.release(&mut s, 0), 1);
    assert_eq!(sem.available(), 0);
    assert_eq!(sem.release_many(&mut s, 3, 0), 0);
    assert_eq!(sem.available(), 3);
    assert_eq!(sem.stats().permits, 3);
}

#[test]
fn per_cpu_data() {
    let mut t = PerCpuTable::new(true, 2);
    assert!(smp_enabled(&t));
    assert_eq!(max_cpus(&t), 2);
    assert_eq!(current_cpu_id(&t, 1), CpuId(1));
    assert_eq!(CpuId::new(5).raw(), 5);
    set_current_task_ptr(&mut t, 1, 0xAA);
    set_next_task_ptr(&mut t, 1, 0xBB);
    assert_eq!(current_task_ptr(&t, 1), 0xAA);
    assert_eq!(next_task_ptr(&t, 1), 0xBB);
    assert_eq!(current_task_ptr(&t, 0), 0);
    assert_eq!(enter_critical(&mut t, 0), 1);
    assert_eq!(enter_critical(&mut t, 0), 2);
    assert_eq!(critical_nest(&t, 0), 2);
    assert_eq!(critical_nest(&t, 1), 0);
    assert_eq!(exit_critical(&mut t, 0), 1);
    assert_eq!(exit_critical(&mut t, 0), 0);
    assert_eq!(exit_critical(&mut t, 0), 0);

    let u = PerCpuTable::new(false, 4);
    assert!(!smp_enabled(&u));
    assert_eq!(max_cpus(&u), 1);
    assert_eq!(current_cpu_id(&u, 3), CpuId(0));
}

struct Futures {
    done_after: Vec<u32>,
    polled: Vec<usize>,
}

impl TaskPoller for Futures {
    fn poll(&mut self, idx: usize) -> bool {
        self.polled.push(idx);
        if self.done_after[idx] == 0 {
            true
        } else {
            self.done_after[idx] -= 1;
            false
        }
    }
}

#[test]
fn executor_polls_ready_tasks() {
    let mut ex = Executor::new(true, 2);
    assert_eq!(spawn(&mut ex, "a"), Ok(0));
    assert_eq!(spawn(&mut ex, "b"), Ok(1));
    assert_eq!(spawn(&mut ex, "c"), Err(SpawnError::NoSlots));
    assert_eq!(current_poll_task(&ex), NO_TASK);
    let mut f = Futures { done_after: vec![0, 1], polled: Vec::new() };
    assert_eq!(poll_once(&mut ex, &mut f), 2);
    assert_eq!(f.polled, vec![0, 1]);
    // b is not ready again until woken
    assert_eq!(poll_once(&mut ex, &mut f), 0);
    wake_task(&mut ex, 1);
    assert_eq!(poll_once(&mut ex, &mut f), 1);
    let st = stats(&ex);
    assert_eq!(st.active, 0);
    assert_eq!(st.spawned, 2);
    assert_eq!(st.completed, 2);
    assert_eq!(st.polls, 3);
    note_rx_byte(&mut ex, b'x');
    let st = stats(&ex);
    assert_eq!(st.rx_bytes, 1);
    assert_eq!(st.last_rx_byte, b'x');

    let mut off = Executor::new(false, 2);
    assert_eq!(spawn(&mut off, "a"), Err(SpawnError::Disabled));
}

struct Never;

impl TaskPoller for Never {
    fn poll(&mut self, _idx: usize) -> bool {
        false
    }
}

#[test]
fn executor_sleeps_until_the_tick() {
    let mut ex = Executor::new(true, 1);
    spawn(&mut ex, "sleeper").unwrap();
    ex.register_sleep(0, 50);
    assert_eq!(stats(&ex).sleeping, 1);
    tick_update(&mut ex, 49);
    assert_eq!(poll_once(&mut ex, &mut Never), 1);
    assert_eq!(poll_once(&mut ex, &mut Never), 0);
    tick_update(&mut ex, 50);
    assert_eq!(stats(&ex).sleeping, 0);
    assert_eq!(poll_once(&mut ex, &mut Never), 1);

    let mut sl = sleep_ticks(10, 5);
    assert_eq!(sl.wake_tick, 15);
    assert!(!sl.poll_sleep(&mut ex, 12));
    assert!(sl.poll_sleep(&mut ex, 15));
    // wrapping
    assert_eq!(sleep_ticks(u32::MAX, 2).wake_tick, 1);
}

#[test]
fn event_async_waiter() {
    let (mut s, _sa, _sb) = running_pair();
    let mut e: Event<2> = Event::new();
    // slot 3 starts waiting; slot 5 cannot take its place
    assert!(!e.poll_wait_async(3));
    assert!(!e.poll_wait_async(5));
    // with no blocked waiter the async one is handed the signal
    assert_eq!(e.signal_async(&mut s, 0), (true, 3));
    assert!(e.is_signaled());
    assert!(e.poll_wait_async(3));
    assert!(!e.is_signaled());
    // nobody waits: the signal is remembered
    assert_eq!(e.signal_async(&mut s, 0), (false, NO_TASK));
    assert!(e.is_signaled());
    e.clear();
    assert!(!e.poll_wait_async(7));
    e.cancel_wait_async(7);
    assert_eq!(e.signal_async(&mut s, 0), (false, NO_TASK));
}

#[test]
fn free_task_slots_count_down() {
    let mut s = Scheduler::new(1);
    assert_eq!(s.free_task_slots(), TASK_CAP);
    s.create_task(0x100, 0x8000, 4096, 1, "t", 0);
    assert_eq!(s.free_task_slots(), TASK_CAP - 1);
}

#[test]
fn sleep_entries_are_updated_in_place() {
    let mut ex = Executor::new(true, 1);
    spawn(&mut ex, "t").unwrap();
    assert_eq!(poll_once(&mut ex, &mut Never), 1);
    ex.register_sleep(0, 50);
    ex.register_sleep(0, 60);
    assert_eq!(stats(&ex).sleeping, 1);
    tick_update(&mut ex, 55);
    assert_eq!(poll_once(&mut ex, &mut Never), 0);
    tick_update(&mut ex, 60);
    assert_eq!(stats(&ex).sleeping, 0);
    assert_eq!(poll_once(&mut ex, &mut Never), 1);
    // with every entry in use the task is made ready at once
    ex.register_sleep(0, 100);
    assert_eq!(poll_once(&mut ex, &mut Never), 0);
    ex.register_sleep(7, 100);
    assert_eq!(stats(&ex).sleeping, 1);
    ex.clear_sleep(0);
    assert_eq!(stats(&ex).sleeping, 0);
}

#[test]
fn wake_all_counts_only_blocked_tasks() {
    let (mut s, sa, sb) = running_pair();
    let mut q: WaitQueue<4> = WaitQueue::new();
    assert!(q.wait(&mut s));
    assert!(q.push(sa));
    assert_eq!(q.wake_all(&mut s, 0), 1);
    assert_eq!(s.task(sb).unwrap().state, TaskState::Ready);
    let st = q.stats();
    assert_eq!((st.waiting, st.wakes, st.failed_wakes), (0, 1, 1));
}

#[test]
fn release_many_stops_at_a_waiter_that_is_not_blocked() {
    let (mut s, _sa, sb) = running_pair();
    let mut sem: Semaphore<4> = Semaphore::new(0);
    assert!(sem.wait(&mut s));
    assert_eq!(s.task(sb).unwrap().state, TaskState::Blocked);
    assert!(s.wake_blocked_task(sb, 0));
    assert_eq!(sem.release_many(&mut s, 3, 0), 0);
    assert_eq!(sem.available(), 3);
    assert_eq!(sem.stats().waiting, 0);
}
