//! Interrupt masking decisions of the architecture layer: critical
//! sections nest, and only the outermost one masks and unmasks the CPU's
//! interrupts.

use vstd::prelude::*;
use crate::sched::percpu::{PerCpuTable, current_cpu_id_spec, with_current};
use crate::sched::percpu;

verus! {

/// Enter a critical section on the calling CPU; the new nesting depth.
pub fn enter_critical(t: &mut PerCpuTable, hw_id: u32) -> (r: usize)
    requires
        old(t).wf(),
    ensures
        final(t).wf(),
        final(t).spec_smp() == old(t).spec_smp(),
        ({
            let d = old(t).spec_cpus()[old(t).index_of(current_cpu_id_spec(*old(t), hw_id))];
            &&& r == d.crit_nest.wrapping_add(1)
            &&& final(t).spec_cpus() == with_current(*old(t), hw_id, percpu::PerCpuData { crit_nest: r, ..d })
        }),
{
    percpu::enter_critical(t, hw_id)
}

/// Leave a critical section on the calling CPU; the new nesting depth.
pub fn exit_critical(t: &mut PerCpuTable, hw_id: u32) -> (r: usize)
    requires
        old(t).wf(),
    ensures
        final(t).wf(),
        final(t).spec_smp() == old(t).spec_smp(),
        ({
            let d = old(t).spec_cpus()[old(t).index_of(current_cpu_id_spec(*old(t), hw_id))];
            &&& r == if d.crit_nest == 0 { 0 } else { (d.crit_nest - 1) as usize }
            &&& final(t).spec_cpus() == if d.crit_nest == 0 { old(t).spec_cpus() }
                else { with_current(*old(t), hw_id, percpu::PerCpuData { crit_nest: r, ..d }) }
        }),
{
    percpu::exit_critical(t, hw_id)
}

/// The calling CPU's nesting depth.
pub fn critical_nest(t: &PerCpuTable, hw_id: u32) -> (r: usize)
    requires
        t.wf(),
    ensures
        r == t.spec_cpus()[t.index_of(current_cpu_id_spec(*t, hw_id))].crit_nest,
{
    percpu::critical_nest(t, hw_id)
}

/// The calling CPU is in a critical section.
pub fn in_critical_section(t: &PerCpuTable, hw_id: u32) -> (r: bool)
    requires
        t.wf(),
    ensures
        r == (t.spec_cpus()[t.index_of(current_cpu_id_spec(*t, hw_id))].crit_nest != 0),
{
    critical_nest(t, hw_id) != 0
}

/// Begin masking interrupts: the depth grows by one; whether the CPU's
/// interrupts must be masked now (only at the outermost level).
pub fn disable_irq(t: &mut PerCpuTable, hw_id: u32) -> (mask: bool)
    requires
        old(t).wf(),
        old(t).spec_cpus()[old(t).index_of(current_cpu_id_spec(*old(t), hw_id))].crit_nest < usize::MAX,
    ensures
        final(t).wf(),
        final(t).spec_smp() == old(t).spec_smp(),
        ({
            let d = old(t).spec_cpus()[old(t).index_of(current_cpu_id_spec(*old(t), hw_id))];
            &&& mask == (d.crit_nest == 0)
            &&& final(t).spec_cpus() == with_current(*old(t), hw_id, percpu::PerCpuData { crit_nest: (d.crit_nest + 1) as usize, ..d })
        }),
{
    let nest = percpu::critical_nest(t, hw_id);
    percpu::set_critical_nest(t, hw_id, nest + 1);
    nest == 0
}

/// End masking interrupts: the depth shrinks by one; whether the CPU's
/// interrupts must be unmasked now (back at depth 0 with a task to run).
pub fn enable_irq(t: &mut PerCpuTable, hw_id: u32, has_current_task: bool) -> (unmask: bool)
    requires
        old(t).wf(),
    ensures
        final(t).wf(),
        final(t).spec_smp() == old(t).spec_smp(),
        ({
            let d = old(t).spec_cpus()[old(t).index_of(current_cpu_id_spec(*old(t), hw_id))];
            &&& unmask == (d.crit_nest <= 1 && has_current_task)
            &&& final(t).spec_cpus() == if d.crit_nest == 0 { old(t).spec_cpus() }
                else { with_current(*old(t), hw_id, percpu::PerCpuData { crit_nest: (d.crit_nest - 1) as usize, ..d }) }
        }),
{
    let nest = percpu::exit_critical(t, hw_id);
    nest == 0 && has_current_task
}

} // verus!
