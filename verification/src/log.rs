//! Kernel log: levels, the timestamp of a line and the bytes that reach
//! the console (a carriage return before each line feed).

use vstd::prelude::*;

verus! {

/// A sink for console bytes.
pub trait PlatformConsole {
    fn putc(&self, ch: u8);
}

/// The source of the calling CPU's id.
pub trait CpuIdProvider {
    fn cpu_id(&self) -> u32;
}

#[derive(Debug, Clone, Copy, PartialEq, Eq, Structural)]
pub enum LogLevel {
    Debug,
    Info,
    Warn,
    Error,
}

/// The timestamp of a line at tick `ticks` (milliseconds): seconds and
/// milliseconds.
pub fn timestamp(ticks: u32) -> (r: (u32, u32))
    ensures
        r.0 == ticks / 1000,
        r.1 == ticks % 1000,
        r.0 * 1000 + r.1 == ticks,
{
    (ticks / 1000, ticks % 1000)
}

/// The bytes sent to the console for `s`: each line feed preceded by a
/// carriage return.
pub open spec fn console_bytes_spec(s: Seq<u8>) -> Seq<u8>
    decreases s.len(),
{
    if s.len() == 0 {
        Seq::empty()
    } else {
        console_bytes_spec(s.drop_last()) + if s.last() == 10 { seq![13u8, 10u8] } else { seq![s.last()] }
    }
}

/// The bytes sent to the console for `s`.
pub fn console_bytes(s: &[u8]) -> (r: Vec<u8>)
    ensures
        r@ == console_bytes_spec(s@),
{
    let mut out: Vec<u8> = Vec::new();
    let mut i: usize = 0;
    while i < s.len()
        invariant
            i <= s.len(),
            out@ == console_bytes_spec(s@.subrange(0, i as int)),
        decreases s.len() - i,
    {
        proof {
            assert(s@.subrange(0, i + 1).drop_last() =~= s@.subrange(0, i as int));
        }
        let b = s[i];
        let ghost before = out@;
        if b == 10u8 {
            out.push(13u8);
        }
        out.push(b);
        proof {
            if b == 10u8 {
                assert(out@ =~= before + seq![13u8, 10u8]);
            } else {
                assert(out@ =~= before + seq![b]);
            }
        }
        i += 1;
    }
    proof {
        assert(s@.subrange(0, s@.len() as int) =~= s@);
    }
    out
}

/// Write `s` to `console`, a carriage return before each line feed.
pub fn write_console<C: PlatformConsole>(console: &C, s: &[u8]) {
    let bytes = console_bytes(s);
    let mut i: usize = 0;
    while i < bytes.len()
        invariant
            i <= bytes.len(),
        decreases bytes.len() - i,
    {
        console.putc(bytes[i]);
        i += 1;
    }
}

} // verus!
