//! The interrupt table: which external lines have a handler, and the
//! counters of handled, unhandled and out-of-range interrupts.

use vstd::prelude::*;
use crate::driver::manager::{DriverManager, IrqDispatch, states_irq, takes};
use crate::slots::{count_some, count_filled};

verus! {

pub const MAX_EXTERNAL_IRQS: usize = 64;

#[derive(Debug, Clone, Copy)]
pub struct IrqStats {
    pub configured_count: usize,
    pub registered_handlers: usize,
    pub handled: u32,
    pub unhandled: u32,
    pub out_of_range: u32,
    pub last_irq: u32,
    pub last_unhandled_irq: u32,
}

/// The table: how many lines are in use, and the handler of each line
/// (named by a handle).
pub struct IrqState {
    count: usize,
    table: Vec<Option<usize>>,
    handled: u32,
    unhandled: u32,
    out_of_range: u32,
    last_irq: u32,
    last_unhandled_irq: u32,
}

/// The handlers registered on interrupt lines, named by handles.
pub trait IrqHandlers {
    /// The handlers called so far, in order, for a table that keeps such a
    /// record; `None` for one that does not.
    open spec fn spec_called(&self) -> Option<Seq<usize>> {
        None
    }

    /// Run the handler `handler`; a table that keeps a record adds it.
    fn call(&mut self, handler: usize)
        ensures
            old(self).spec_called() matches Some(l) ==> final(self).spec_called() == Some(l.push(handler)),
            old(self).spec_called() is None ==> final(self).spec_called() is None,
    ;
}

impl IrqState {
    pub closed spec fn spec_count(self) -> usize {
        self.count
    }

    pub closed spec fn spec_table(self) -> Seq<Option<usize>> {
        self.table@
    }

    pub closed spec fn spec_stats(self) -> IrqStats {
        IrqStats {
            configured_count: self.count,
            registered_handlers: count_some(self.table@.subrange(0, self.count as int)) as usize,
            handled: self.handled,
            unhandled: self.unhandled,
            out_of_range: self.out_of_range,
            last_irq: self.last_irq,
            last_unhandled_irq: self.last_unhandled_irq,
        }
    }

    pub closed spec fn wf(self) -> bool {
        self.table.len() == MAX_EXTERNAL_IRQS && self.count <= MAX_EXTERNAL_IRQS
    }

    pub fn new() -> (r: Self)
        ensures
            r.wf(),
            r.spec_count() == 0,
    {
        IrqState {
            count: 0,
            table: crate::slots::empty_slots(MAX_EXTERNAL_IRQS),
            handled: 0,
            unhandled: 0,
            out_of_range: 0,
            last_irq: u32::MAX,
            last_unhandled_irq: u32::MAX,
        }
    }
}

/// Configure `count` lines (at most [`MAX_EXTERNAL_IRQS`]) with no handlers,
/// and clear the counters.
pub fn init(st: &mut IrqState, count: usize)
    requires
        old(st).wf(),
    ensures
        final(st).wf(),
        final(st).spec_count() == if count < MAX_EXTERNAL_IRQS { count } else { MAX_EXTERNAL_IRQS },
        forall|i: int| 0 <= i < MAX_EXTERNAL_IRQS ==> (#[trigger] final(st).spec_table()[i]) is None,
        final(st).spec_stats().handled == 0,
        final(st).spec_stats().unhandled == 0,
        final(st).spec_stats().out_of_range == 0,
        final(st).spec_stats().last_irq == u32::MAX,
        final(st).spec_stats().last_unhandled_irq == u32::MAX,
{
    st.count = if count < MAX_EXTERNAL_IRQS { count } else { MAX_EXTERNAL_IRQS };
    st.table = crate::slots::empty_slots(MAX_EXTERNAL_IRQS);
    st.handled = 0;
    st.unhandled = 0;
    st.out_of_range = 0;
    st.last_irq = u32::MAX;
    st.last_unhandled_irq = u32::MAX;
}

/// Set the handler of line `irqn`; refused for a line past the count.
pub fn add_irq_handler(st: &mut IrqState, irqn: usize, handler: usize) -> (r: bool)
    requires
        old(st).wf(),
    ensures
        final(st).wf(),
        final(st).spec_count() == old(st).spec_count(),
        r == (irqn < old(st).spec_count()),
        r ==> final(st).spec_table() == old(st).spec_table().update(irqn as int, Some(handler)),
        !r ==> final(st).spec_table() == old(st).spec_table(),
        final(st).spec_stats().handled == old(st).spec_stats().handled,
        final(st).spec_stats().unhandled == old(st).spec_stats().unhandled,
        final(st).spec_stats().out_of_range == old(st).spec_stats().out_of_range,
        final(st).spec_stats().last_irq == old(st).spec_stats().last_irq,
        final(st).spec_stats().last_unhandled_irq == old(st).spec_stats().last_unhandled_irq,
{
    if irqn < st.count {
        st.table.set(irqn, Some(handler));
        true
    } else {
        false
    }
}

/// Clear the handler of line `irqn`; refused for a line past the count.
pub fn remove_irq_handler(st: &mut IrqState, irqn: usize) -> (r: bool)
    requires
        old(st).wf(),
    ensures
        final(st).wf(),
        final(st).spec_count() == old(st).spec_count(),
        r == (irqn < old(st).spec_count()),
        r ==> final(st).spec_table() == old(st).spec_table().update(irqn as int, None),
        !r ==> final(st).spec_table() == old(st).spec_table(),
        final(st).spec_stats().handled == old(st).spec_stats().handled,
        final(st).spec_stats().unhandled == old(st).spec_stats().unhandled,
        final(st).spec_stats().out_of_range == old(st).spec_stats().out_of_range,
        final(st).spec_stats().last_irq == old(st).spec_stats().last_irq,
        final(st).spec_stats().last_unhandled_irq == old(st).spec_stats().last_unhandled_irq,
{
    if irqn < st.count {
        st.table.set(irqn, None);
        true
    } else {
        false
    }
}

/// Handle interrupt `irqn`: out of range it is counted and refused; a line
/// with a handler calls it; else the drivers are asked. Whether it was
/// handled.
pub fn handle_irq<H: IrqHandlers, D: IrqDispatch>(
    st: &mut IrqState,
    drivers: &mut DriverManager,
    irqn: usize,
    handlers: &mut H,
    dispatch: &mut D,
) -> (r: bool)
    requires
        old(st).wf(),
        old(drivers).wf(),
    ensures
        final(st).wf(),
        final(drivers).wf(),
        final(st).spec_table() == old(st).spec_table(),
        final(st).spec_count() == old(st).spec_count(),
        final(st).spec_stats().last_irq == irqn as u32,
        irqn >= old(st).spec_count() ==> !r && final(st).spec_stats().out_of_range
            == old(st).spec_stats().out_of_range.wrapping_add(1) && final(st).spec_stats().last_unhandled_irq == irqn as u32
            && *final(drivers) == *old(drivers),
        irqn < old(st).spec_count() && old(st).spec_table()[irqn as int] is Some ==> r && *final(drivers) == *old(drivers)
            && *final(dispatch) == *old(dispatch) && (old(handlers).spec_called() matches Some(l) ==> final(handlers).spec_called()
            == Some(l.push(old(st).spec_table()[irqn as int].unwrap()))),
        !(irqn < old(st).spec_count() && old(st).spec_table()[irqn as int] is Some) ==> *final(handlers) == *old(handlers),
        irqn < old(st).spec_count() && old(st).spec_table()[irqn as int] is None ==> {
            &&& final(drivers).same_tables(*old(drivers))
            &&& final(drivers).counters().irq_dispatches == old(drivers).counters().irq_dispatches.wrapping_add(1)
            &&& r ==> final(drivers).counters().irq_driver_hits == old(drivers).counters().irq_driver_hits.wrapping_add(1)
                && final(drivers).counters().irq_driver_misses == old(drivers).counters().irq_driver_misses
            &&& !r ==> final(drivers).counters().irq_driver_misses == old(drivers).counters().irq_driver_misses.wrapping_add(1)
                && final(drivers).counters().irq_driver_hits == old(drivers).counters().irq_driver_hits
            &&& states_irq(old(dispatch), irqn as u32) ==> r == ((old(drivers).fast_owner(irqn as u32) matches Some(f)
                && takes(old(dispatch), f, irqn as u32)) || exists|k: int| 0 <= k < old(drivers).spec_drivers().len()
                && #[trigger] old(drivers).spec_drivers()[k] is Some && takes(old(dispatch), old(drivers).spec_drivers()[k].unwrap().handle,
                irqn as u32))
        },
        irqn < old(st).spec_count() ==> (r ==> final(st).spec_stats().handled == old(st).spec_stats().handled.wrapping_add(1))
            && (!r ==> final(st).spec_stats().unhandled == old(st).spec_stats().unhandled.wrapping_add(1)
                && final(st).spec_stats().last_unhandled_irq == irqn as u32),
{
    st.last_irq = irqn as u32;
    if irqn >= st.count {
        st.out_of_range = st.out_of_range.wrapping_add(1);
        st.last_unhandled_irq = irqn as u32;
        return false;
    }
    let handled = match st.table[irqn] {
        Some(h) => {
            handlers.call(h);
            true
        },
        None => drivers.dispatch_irq(irqn as u32, dispatch),
    };
    if handled {
        st.handled = st.handled.wrapping_add(1);
    } else {
        st.unhandled = st.unhandled.wrapping_add(1);
        st.last_unhandled_irq = irqn as u32;
    }
    handled
}

/// The counters, the count and how many configured lines have handlers.
pub fn stats(st: &IrqState) -> (r: IrqStats)
    requires
        st.wf(),
    ensures
        r == st.spec_stats(),
{
    let mut n: usize = 0;
    let mut i: usize = 0;
    while i < st.count
        invariant
            st.wf(),
            i <= st.count,
            n == count_some(st.table@.subrange(0, i as int)),
            n <= i,
        decreases st.count - i,
    {
        proof {
            assert(st.table@.subrange(0, i + 1).drop_last() =~= st.table@.subrange(0, i as int));
        }
        if st.table[i].is_some() {
            n += 1;
        }
        i += 1;
    }
    IrqStats {
        configured_count: st.count,
        registered_handlers: n,
        handled: st.handled,
        unhandled: st.unhandled,
        out_of_range: st.out_of_range,
        last_irq: st.last_irq,
        last_unhandled_irq: st.last_unhandled_irq,
    }
}

} // verus!
