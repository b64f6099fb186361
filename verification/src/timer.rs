//! The system tick: a tick counter and the length of a tick.

use vstd::prelude::*;

verus! {

/// The tick counter and the microseconds per tick.
pub struct Timer {
    pub tick_us: u32,
    pub ticks: u32,
}

impl Timer {
    pub fn new() -> (r: Self)
        ensures
            r.tick_us == 0,
            r.ticks == 0,
    {
        Timer { tick_us: 0, ticks: 0 }
    }
}

/// Set the tick length from the tick rate `systick_hz`.
pub fn init(t: &mut Timer, systick_hz: u32)
    requires
        systick_hz > 0,
    ensures
        final(t).tick_us == 1_000_000u32 / systick_hz,
        final(t).ticks == old(t).ticks,
{
    t.tick_us = 1_000_000 / systick_hz;
}

/// One tick passed (the counter wraps).
pub fn tick(t: &mut Timer)
    ensures
        final(t).ticks == old(t).ticks.wrapping_add(1),
        final(t).tick_us == old(t).tick_us,
{
    t.ticks = t.ticks.wrapping_add(1);
}

pub fn ticks(t: &Timer) -> (r: u32)
    ensures
        r == t.ticks,
{
    t.ticks
}

/// The time in microseconds: ticks times the tick length (never
/// overflows).
pub fn time_us(t: &Timer) -> (r: u64)
    ensures
        r == t.ticks * t.tick_us,
{
    assert((t.ticks as int) * (t.tick_us as int) <= 0xffff_ffff * 0xffff_ffff) by (nonlinear_arith)
        requires
            t.ticks <= 0xffff_ffff,
            t.tick_us <= 0xffff_ffff,
    ;
    (t.ticks as u64) * (t.tick_us as u64)
}

} // verus!
