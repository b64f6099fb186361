//! Per-CPU data: each CPU's current and next task, and its critical section
//! nesting depth.

use vstd::prelude::*;

verus! {

/// A logical CPU.
#[derive(Debug, Clone, Copy, PartialEq, Eq, Structural)]
pub struct CpuId(pub u32);

impl CpuId {
    pub fn new(id: u32) -> (r: Self)
        ensures
            r.0 == id,
    {
        CpuId(id)
    }

    pub fn raw(self) -> (r: u32)
        ensures
            r == self.0,
    {
        self.0
    }
}

/// The data of one CPU; tasks are named by their scheduler slots, 0 for
/// none.
#[derive(Debug, Clone, Copy, PartialEq, Eq, Structural)]
pub struct PerCpuData {
    pub current_tcb: usize,
    pub next_tcb: usize,
    pub crit_nest: usize,
    pub cpu_id: CpuId,
}

impl PerCpuData {
    pub fn new(cpu_id: CpuId) -> (r: Self)
        ensures
            r == (PerCpuData { current_tcb: 0, next_tcb: 0, crit_nest: 0, cpu_id }),
    {
        PerCpuData { current_tcb: 0, next_tcb: 0, crit_nest: 0, cpu_id }
    }
}

/// The data of every CPU of the configuration: SMP or not, and up to how
/// many CPUs.
pub struct PerCpuTable {
    cpus: Vec<PerCpuData>,
    smp: bool,
}

impl PerCpuTable {
    pub closed spec fn spec_cpus(self) -> Seq<PerCpuData> {
        self.cpus@
    }

    pub closed spec fn spec_smp(self) -> bool {
        self.smp
    }

    pub closed spec fn wf(self) -> bool {
        &&& self.cpus.len() >= 1
        &&& !self.smp ==> self.cpus.len() == 1
        &&& forall|i: int| 0 <= i < self.cpus.len() ==> (#[trigger] self.cpus@[i]).cpu_id.0 == i
    }

    /// The table for `smp_max_cpus` CPUs with SMP, for one without.
    pub fn new(smp: bool, smp_max_cpus: usize) -> (r: Self)
        requires
            1 <= smp_max_cpus <= u32::MAX,
        ensures
            r.wf(),
            r.spec_smp() == smp,
            r.spec_cpus().len() == if smp { smp_max_cpus } else { 1 },
            forall|i: int| 0 <= i < r.spec_cpus().len() ==> #[trigger] r.spec_cpus()[i]
                == (PerCpuData { current_tcb: 0, next_tcb: 0, crit_nest: 0, cpu_id: CpuId(i as u32) }),
    {
        let n = if smp { smp_max_cpus } else { 1 };
        let mut cpus: Vec<PerCpuData> = Vec::new();
        let mut i: usize = 0;
        while i < n
            invariant
                i <= n,
                n <= u32::MAX,
                cpus.len() == i,
                forall|k: int| 0 <= k < i ==> #[trigger] cpus@[k]
                    == (PerCpuData { current_tcb: 0, next_tcb: 0, crit_nest: 0, cpu_id: CpuId(k as u32) }),
            decreases n - i,
        {
            cpus.push(PerCpuData::new(CpuId::new(i as u32)));
            i += 1;
        }
        PerCpuTable { cpus, smp }
    }

    /// The index of the data of CPU `id`.
    pub open spec fn index_of(self, id: u32) -> int {
        id as int % self.spec_cpus().len() as int
    }

    /// A well-formed table has at least one CPU, exactly one without SMP,
    /// and every id names one of its CPUs.
    pub proof fn lemma_wf_cpus(self)
        requires
            self.wf(),
        ensures
            self.spec_cpus().len() >= 1,
            !self.spec_smp() ==> self.spec_cpus().len() == 1,
            forall|id: u32| 0 <= #[trigger] self.index_of(id) < self.spec_cpus().len(),
            forall|i: int| 0 <= i < self.spec_cpus().len() ==> (#[trigger] self.spec_cpus()[i]).cpu_id.0 == i,
    {
    }
}

/// The logical id of the calling CPU, whose hardware id is `hw_id`: that
/// id with SMP, 0 without.
pub fn current_cpu_id(t: &PerCpuTable, hw_id: u32) -> (r: CpuId)
    ensures
        r.0 == if t.spec_smp() { hw_id } else { 0 },
{
    if t.smp {
        CpuId::new(hw_id)
    } else {
        CpuId::new(0)
    }
}

/// The data of the calling CPU.
pub fn current_cpu(t: &PerCpuTable, hw_id: u32) -> (r: &PerCpuData)
    requires
        t.wf(),
    ensures
        *r == t.spec_cpus()[t.index_of(current_cpu_id_spec(*t, hw_id))],
{
    let id = current_cpu_id(t, hw_id).raw();
    cpu_data(t, CpuId(id))
}

pub open spec fn current_cpu_id_spec(t: PerCpuTable, hw_id: u32) -> u32 {
    if t.spec_smp() { hw_id } else { 0 }
}

/// The data of CPU `cpu_id` (ids wrap around the number of CPUs).
pub fn cpu_data(t: &PerCpuTable, cpu_id: CpuId) -> (r: &PerCpuData)
    requires
        t.wf(),
    ensures
        *r == t.spec_cpus()[t.index_of(cpu_id.0)],
{
    &t.cpus[(cpu_id.raw() as usize) % t.cpus.len()]
}

/// `t` with the data of the calling CPU changed to `d`.
pub open spec fn with_current(t: PerCpuTable, hw_id: u32, d: PerCpuData) -> Seq<PerCpuData> {
    t.spec_cpus().update(t.index_of(current_cpu_id_spec(t, hw_id)), d)
}

fn update_current(t: &mut PerCpuTable, hw_id: u32, d: PerCpuData)
    requires
        old(t).wf(),
        d.cpu_id == old(t).spec_cpus()[old(t).index_of(current_cpu_id_spec(*old(t), hw_id))].cpu_id,
    ensures
        final(t).wf(),
        final(t).spec_smp() == old(t).spec_smp(),
        final(t).spec_cpus() == with_current(*old(t), hw_id, d),
{
    let id = current_cpu_id(t, hw_id).raw();
    let k = (id as usize) % t.cpus.len();
    t.cpus.set(k, d);
    proof {
        assert forall|i: int| 0 <= i < t.cpus.len() implies (#[trigger] t.cpus@[i]).cpu_id.0 == i by {
            if i != k {
                assert(t.cpus@[i] == old(t).cpus@[i]);
            }
        }
    }
}

/// The calling CPU's current task.
pub fn current_task_ptr(t: &PerCpuTable, hw_id: u32) -> (r: usize)
    requires
        t.wf(),
    ensures
        r == t.spec_cpus()[t.index_of(current_cpu_id_spec(*t, hw_id))].current_tcb,
{
    current_cpu(t, hw_id).current_tcb
}

/// Set the calling CPU's current task.
pub fn set_current_task_ptr(t: &mut PerCpuTable, hw_id: u32, task: usize)
    requires
        old(t).wf(),
    ensures
        final(t).wf(),
        final(t).spec_smp() == old(t).spec_smp(),
        final(t).spec_cpus() == with_current(*old(t), hw_id, PerCpuData {
            current_tcb: task,
            ..old(t).spec_cpus()[old(t).index_of(current_cpu_id_spec(*old(t), hw_id))]
        }),
{
    let d = *current_cpu(t, hw_id);
    update_current(t, hw_id, PerCpuData { current_tcb: task, ..d });
}

/// The calling CPU's next task.
pub fn next_task_ptr(t: &PerCpuTable, hw_id: u32) -> (r: usize)
    requires
        t.wf(),
    ensures
        r == t.spec_cpus()[t.index_of(current_cpu_id_spec(*t, hw_id))].next_tcb,
{
    current_cpu(t, hw_id).next_tcb
}

/// Set the calling CPU's next task.
pub fn set_next_task_ptr(t: &mut PerCpuTable, hw_id: u32, task: usize)
    requires
        old(t).wf(),
    ensures
        final(t).wf(),
        final(t).spec_smp() == old(t).spec_smp(),
        final(t).spec_cpus() == with_current(*old(t), hw_id, PerCpuData {
            next_tcb: task,
            ..old(t).spec_cpus()[old(t).index_of(current_cpu_id_spec(*old(t), hw_id))]
        }),
{
    let d = *current_cpu(t, hw_id);
    update_current(t, hw_id, PerCpuData { next_tcb: task, ..d });
}

/// Enter a critical section on the calling CPU: the new nesting depth
/// (wrapping like the atomic counter).
pub fn enter_critical(t: &mut PerCpuTable, hw_id: u32) -> (r: usize)
    requires
        old(t).wf(),
    ensures
        final(t).wf(),
        final(t).spec_smp() == old(t).spec_smp(),
        ({
            let d = old(t).spec_cpus()[old(t).index_of(current_cpu_id_spec(*old(t), hw_id))];
            &&& r == d.crit_nest.wrapping_add(1)
            &&& final(t).spec_cpus() == with_current(*old(t), hw_id, PerCpuData { crit_nest: r, ..d })
        }),
{
    let d = *current_cpu(t, hw_id);
    let n = d.crit_nest.wrapping_add(1);
    update_current(t, hw_id, PerCpuData { crit_nest: n, ..d });
    n
}

/// Leave a critical section on the calling CPU: the new nesting depth,
/// which stays 0 at 0.
pub fn exit_critical(t: &mut PerCpuTable, hw_id: u32) -> (r: usize)
    requires
        old(t).wf(),
    ensures
        final(t).wf(),
        final(t).spec_smp() == old(t).spec_smp(),
        ({
            let d = old(t).spec_cpus()[old(t).index_of(current_cpu_id_spec(*old(t), hw_id))];
            &&& r == if d.crit_nest == 0 { 0 } else { (d.crit_nest - 1) as usize }
            &&& final(t).spec_cpus() == if d.crit_nest == 0 { old(t).spec_cpus() }
                else { with_current(*old(t), hw_id, PerCpuData { crit_nest: r, ..d }) }
        }),
{
    let d = *current_cpu(t, hw_id);
    if d.crit_nest == 0 {
        return 0;
    }
    let n = d.crit_nest - 1;
    update_current(t, hw_id, PerCpuData { crit_nest: n, ..d });
    n
}

/// The calling CPU's critical nesting depth.
pub fn critical_nest(t: &PerCpuTable, hw_id: u32) -> (r: usize)
    requires
        t.wf(),
    ensures
        r == t.spec_cpus()[t.index_of(current_cpu_id_spec(*t, hw_id))].crit_nest,
{
    current_cpu(t, hw_id).crit_nest
}

/// Set the calling CPU's critical nesting depth.
pub fn set_critical_nest(t: &mut PerCpuTable, hw_id: u32, nest: usize)
    requires
        old(t).wf(),
    ensures
        final(t).wf(),
        final(t).spec_smp() == old(t).spec_smp(),
        final(t).spec_cpus() == with_current(*old(t), hw_id, PerCpuData {
            crit_nest: nest,
            ..old(t).spec_cpus()[old(t).index_of(current_cpu_id_spec(*old(t), hw_id))]
        }),
{
    let d = *current_cpu(t, hw_id);
    update_current(t, hw_id, PerCpuData { crit_nest: nest, ..d });
}

pub fn smp_enabled(t: &PerCpuTable) -> (r: bool)
    ensures
        r == t.spec_smp(),
{
    t.smp
}

/// The number of CPUs of the configuration.
pub fn max_cpus(t: &PerCpuTable) -> (r: usize)
    ensures
        r == t.spec_cpus().len(),
{
    t.cpus.len()
}

/// Entering a critical section and leaving it again restores the nesting
/// depth (below the wrap-around).
pub proof fn lemma_enter_exit(t0: PerCpuTable, t1: PerCpuTable, t2: PerCpuTable, hw_id: u32, n1: usize, n2: usize)
    requires
        t0.wf(),
        t1.wf(),
        t1.spec_smp() == t0.spec_smp(),
        ({
            let d = t0.spec_cpus()[t0.index_of(current_cpu_id_spec(t0, hw_id))];
            &&& d.crit_nest < usize::MAX
            &&& n1 == d.crit_nest.wrapping_add(1)
            &&& t1.spec_cpus() == with_current(t0, hw_id, PerCpuData { crit_nest: n1, ..d })
        }),
        ({
            let d = t1.spec_cpus()[t1.index_of(current_cpu_id_spec(t1, hw_id))];
            &&& n2 == if d.crit_nest == 0 { 0 } else { (d.crit_nest - 1) as usize }
            &&& t2.spec_cpus() == if d.crit_nest == 0 { t1.spec_cpus() }
                else { with_current(t1, hw_id, PerCpuData { crit_nest: n2, ..d }) }
        }),
    ensures
        t2.spec_cpus() == t0.spec_cpus(),
        n2 == t0.spec_cpus()[t0.index_of(current_cpu_id_spec(t0, hw_id))].crit_nest,
{
    let k = t0.index_of(current_cpu_id_spec(t0, hw_id));
    assert(t1.spec_cpus().len() == t0.spec_cpus().len());
    assert(t1.index_of(current_cpu_id_spec(t1, hw_id)) == k);
    assert(t2.spec_cpus() =~= t0.spec_cpus());
}

} // verus!
