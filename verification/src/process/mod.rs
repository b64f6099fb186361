//! Processes: the ELF loader's checks and load plan, and the init service
//! manager.

pub mod elf;
pub mod init;

use vstd::prelude::*;

verus! {

/// Process ID.
pub type Pid = u32;

#[derive(Debug, Clone, Copy, PartialEq, Eq, Structural)]
pub enum ProcessState {
    Ready,
    Running,
    Sleeping,
    Zombie,
}

/// A process: its entry point, its stack and its state.
#[derive(Debug, Clone, Copy)]
pub struct Process {
    pub pid: Pid,
    pub entry_point: usize,
    pub stack_base: usize,
    pub stack_size: usize,
    pub state: ProcessState,
    pub name: &'static str,
}

} // verus!
