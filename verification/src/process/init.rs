//! The init service manager: a fixed list of services started in order at
//! boot, with a count of how each start went.

use vstd::prelude::*;

verus! {

pub const INIT_SERVICE_CAP: usize = 8;

#[derive(Debug, Clone, Copy, PartialEq, Eq, Structural)]
pub enum InitError {
    Disabled,
    NoSlots,
    StartFailed,
}

pub type InitResult = Result<(), InitError>;

/// A service: its name, whether boot needs it, and the handle of its start
/// function.
#[derive(Debug, Clone, Copy)]
pub struct InitService {
    pub name: &'static str,
    pub required: bool,
    pub start: usize,
}

impl InitService {
    pub fn new(name: &'static str, required: bool, start: usize) -> (r: Self)
        ensures
            r.name == name,
            r.required == required,
            r.start == start,
    {
        InitService { name, required, start }
    }
}

#[derive(Debug, Clone, Copy, PartialEq, Eq, Structural)]
pub struct InitStats {
    pub registered: usize,
    pub started: usize,
    pub skipped: usize,
    pub failed: usize,
}

impl InitStats {
    /// The counts after one more start that gave `r`: started when it
    /// succeeded, skipped when the service is disabled, failed otherwise.
    pub fn record(self, r: InitResult) -> (out: InitStats)
        requires
            self.started + self.skipped + self.failed < usize::MAX,
        ensures
            out.registered == self.registered,
            out.started == self.started + if r is Ok { 1int } else { 0int },
            out.skipped == self.skipped + if r == Err::<(), InitError>(InitError::Disabled) { 1int } else { 0int },
            out.failed == self.failed + if r is Err && r != Err::<(), InitError>(InitError::Disabled) { 1int } else { 0int },
    {
        match r {
            Ok(()) => InitStats { started: self.started + 1, ..self },
            Err(InitError::Disabled) => InitStats { skipped: self.skipped + 1, ..self },
            Err(_) => InitStats { failed: self.failed + 1, ..self },
        }
    }
}

/// The start functions of the services, named by handles.
pub trait ServiceStarter {
    /// The starts made so far, each with its result, for a starter that
    /// keeps such a record; `None` for one that does not.
    open spec fn spec_log(&self) -> Option<Seq<(usize, InitResult)>> {
        None
    }

    /// Run the start function `start`; a starter that keeps a record adds
    /// this start and its result to it.
    fn start(&mut self, start: usize) -> (r: InitResult)
        ensures
            old(self).spec_log() matches Some(l) ==> final(self).spec_log() == Some(l.push((start, r))),
            old(self).spec_log() is None ==> final(self).spec_log() is None,
    ;
}

/// How many of the starts `log` succeeded.
pub open spec fn count_started(log: Seq<(usize, InitResult)>) -> nat
    decreases log.len(),
{
    if log.len() == 0 { 0 } else { count_started(log.drop_last()) + if log.last().1 is Ok { 1nat } else { 0nat } }
}

/// How many of the starts `log` reported the service disabled.
pub open spec fn count_skipped(log: Seq<(usize, InitResult)>) -> nat
    decreases log.len(),
{
    if log.len() == 0 {
        0
    } else {
        count_skipped(log.drop_last()) + if log.last().1 == Err::<(), InitError>(InitError::Disabled) { 1nat } else { 0nat }
    }
}

/// How many of the starts `log` failed otherwise.
pub open spec fn count_failed(log: Seq<(usize, InitResult)>) -> nat
    decreases log.len(),
{
    if log.len() == 0 {
        0
    } else {
        count_failed(log.drop_last()) + if log.last().1 is Err && log.last().1 != Err::<(), InitError>(InitError::Disabled) {
            1nat
        } else {
            0nat
        }
    }
}

/// The registered services, in order.
pub struct InitManager {
    services: Vec<InitService>,
}

impl InitManager {
    pub closed spec fn view(self) -> Seq<InitService> {
        self.services@
    }

    pub fn new() -> (r: Self)
        ensures
            r.view().len() == 0,
    {
        InitManager { services: Vec::new() }
    }

    /// Add a service at the end; refused when [`INIT_SERVICE_CAP`] are
    /// registered.
    pub fn register(&mut self, service: InitService) -> (r: InitResult)
        ensures
            old(self).view().len() < INIT_SERVICE_CAP ==> r is Ok && final(self).view() == old(self).view().push(service),
            old(self).view().len() >= INIT_SERVICE_CAP ==> r == Err::<(), InitError>(InitError::NoSlots)
                && final(self).view() == old(self).view(),
    {
        if self.services.len() >= INIT_SERVICE_CAP {
            return Err(InitError::NoSlots);
        }
        self.services.push(service);
        Ok(())
    }

    /// Start every service in order: a start that succeeds counts as
    /// started, one that reports the service disabled as skipped, any other
    /// failure as failed.
    pub fn run<S: ServiceStarter>(&self, starter: &mut S) -> (r: InitStats)
        ensures
            r.registered == self.view().len(),
            r.started + r.skipped + r.failed == self.view().len(),
            old(starter).spec_log() matches Some(l) ==> ({
                let n = self.view().len() as int;
                &&& final(starter).spec_log() is Some
                &&& final(starter).spec_log().unwrap().len() == l.len() + n
                &&& final(starter).spec_log().unwrap().subrange(0, l.len() as int) == l
                &&& forall|i: int| 0 <= i < n ==> (#[trigger] final(starter).spec_log().unwrap()[l.len() + i]).0
                    == self.view()[i].start
                &&& r.started == count_started(final(starter).spec_log().unwrap().subrange(l.len() as int, l.len() + n))
                &&& r.skipped == count_skipped(final(starter).spec_log().unwrap().subrange(l.len() as int, l.len() + n))
                &&& r.failed == count_failed(final(starter).spec_log().unwrap().subrange(l.len() as int, l.len() + n))
            }),
    {
        let mut stats = InitStats { registered: self.services.len(), started: 0, skipped: 0, failed: 0 };
        let ghost l0 = starter.spec_log();
        let mut i: usize = 0;
        while i < self.services.len()
            invariant
                i <= self.services.len(),
                stats.registered == self.services.len(),
                stats.started + stats.skipped + stats.failed == i,
                l0 == old(starter).spec_log(),
                l0 is None ==> starter.spec_log() is None,
                l0 matches Some(l) ==> ({
                    let cur = starter.spec_log().unwrap();
                    &&& starter.spec_log() is Some
                    &&& cur.len() == l.len() + i
                    &&& cur.subrange(0, l.len() as int) == l
                    &&& forall|j: int| 0 <= j < i ==> (#[trigger] cur[l.len() + j]).0 == self.services@[j].start
                    &&& stats.started == count_started(cur.subrange(l.len() as int, l.len() + i))
                    &&& stats.skipped == count_skipped(cur.subrange(l.len() as int, l.len() + i))
                    &&& stats.failed == count_failed(cur.subrange(l.len() as int, l.len() + i))
                }),
            decreases self.services.len() - i,
        {
            let ghost before = starter.spec_log();
            let res = starter.start(self.services[i].start);
            proof {
                if l0 is Some {
                    let l = l0.unwrap();
                    let cur = starter.spec_log().unwrap();
                    let b = before.unwrap();
                    assert(cur == b.push((self.services@[i as int].start, res)));
                    assert(cur.subrange(0, l.len() as int) =~= b.subrange(0, l.len() as int));
                    assert(cur.subrange(l.len() as int, l.len() + i + 1).drop_last() =~= b.subrange(l.len() as int, l.len() + i));
                    assert(cur.subrange(l.len() as int, l.len() + i + 1).last() == (self.services@[i as int].start, res));
                    assert forall|j: int| 0 <= j < i + 1 implies (#[trigger] cur[l.len() + j]).0 == self.services@[j].start by {
                        if j < i {
                            assert(cur[l.len() + j] == b[l.len() + j]);
                        }
                    }
                }
            }
            stats = stats.record(res);
            i += 1;
        }
        stats
    }
}

} // verus!
