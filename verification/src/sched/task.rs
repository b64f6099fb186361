//! Task control blocks.

use vstd::prelude::*;

verus! {

pub type TaskId = u32;

pub type Priority = u8;

/// CPU affinity of a task: run anywhere, or only on one CPU.
#[derive(Debug, Clone, Copy, PartialEq, Eq, Structural)]
pub enum CpuAffinity {
    Any,
    Pin(u32),
}

#[derive(Debug, Clone, Copy, PartialEq, Eq, Structural)]
pub enum TaskState {
    Ready,
    Running,
    Blocked,
    Suspended,
    Terminated,
    Sleeping,
}

/// A task as the scheduler sees it. The task's stack and saved context are
/// owned by the architecture layer; `sp` and `entry` are plain addresses.
#[derive(Clone, Copy)]
pub struct TaskControlBlock {
    pub sp: usize,
    pub id: TaskId,
    pub priority: Priority,
    pub wakeup_tick: u32,
    pub state: TaskState,
    pub stack_size: usize,
    pub entry: usize,
    pub name: &'static str,
    pub queued: bool,
    pub affinity: CpuAffinity,
    pub cpu_id: u32,
}

impl TaskControlBlock {
    /// A fresh task: ready, not queued, runnable on any CPU.
    pub fn new(
        id: TaskId,
        entry: usize,
        initial_sp: usize,
        stack_size: usize,
        priority: Priority,
        name: &'static str,
    ) -> (r: Self)
        ensures
            r.sp == initial_sp,
            r.id == id,
            r.priority == priority,
            r.state == TaskState::Ready,
            r.wakeup_tick == 0,
            r.stack_size == stack_size,
            r.entry == entry,
            r.name == name,
            !r.queued,
            r.affinity == CpuAffinity::Any,
            r.cpu_id == 0,
    {
        TaskControlBlock {
            sp: initial_sp,
            id,
            priority,
            state: TaskState::Ready,
            wakeup_tick: 0,
            stack_size,
            entry,
            name,
            queued: false,
            affinity: CpuAffinity::Any,
            cpu_id: 0,
        }
    }

    pub fn set_affinity(&mut self, affinity: CpuAffinity)
        ensures
            *final(self) == (TaskControlBlock { affinity, ..*old(self) }),
    {
        self.affinity = affinity;
    }

    pub open spec fn spec_can_run_on(self, cpu_id: u32) -> bool {
        match self.affinity {
            CpuAffinity::Any => true,
            CpuAffinity::Pin(pin_cpu) => pin_cpu == cpu_id,
        }
    }

    /// The task may run on CPU `cpu_id`.
    pub fn can_run_on(&self, cpu_id: u32) -> (r: bool)
        ensures
            r == self.spec_can_run_on(cpu_id),
    {
        match self.affinity {
            CpuAffinity::Any => true,
            CpuAffinity::Pin(pin_cpu) => pin_cpu == cpu_id,
        }
    }
}

} // verus!
