//! Terminals: character devices with a size and a line discipline mode.

use vstd::prelude::*;
use vstd::string::StringSliceAdditionalSpecFns;
use crate::driver::{DriverErr, DriverResult};
use crate::driver::char::CharDevice;

verus! {

#[derive(Debug, Clone, Copy, PartialEq, Eq, Structural)]
pub struct TerminalSize {
    pub columns: u16,
    pub rows: u16,
}

impl TerminalSize {
    pub fn new(columns: u16, rows: u16) -> (r: Self)
        ensures
            r == (TerminalSize { columns, rows }),
    {
        TerminalSize { columns, rows }
    }
}

#[derive(Debug, Clone, Copy, PartialEq, Eq, Structural)]
pub enum TerminalMode {
    Raw,
    Cooked,
}

pub trait TerminalDevice: CharDevice {
    fn size(&self) -> TerminalSize {
        TerminalSize::new(80, 25)
    }

    fn mode(&self) -> TerminalMode {
        TerminalMode::Raw
    }

    fn set_mode(&self, mode: TerminalMode) -> DriverResult<()> {
        Err(DriverErr::NotSupported)
    }

    /// Write the bytes of `s` while the device takes them: always
    /// succeeds, with how many of the first bytes were written.
    fn write_str(&self, s: &str) -> (r: DriverResult<usize>)
        ensures
            r is Ok,
            r->Ok_0 <= s.spec_bytes().len(),
    {
        self.write_buffer(s.as_bytes())
    }

    /// `s`, then a carriage return and a line feed; counts what was
    /// written: always succeeds, with at most two bytes more than `s` has.
    fn write_line(&self, s: &str) -> (r: DriverResult<usize>)
        ensures
            r is Ok,
            r->Ok_0 <= s.spec_bytes().len() + 2,
    {
        let mut written = self.write_str(s)?;
        if self.write_byte(13u8).is_ok() {
            written = written.wrapping_add(1);
        }
        if self.write_byte(10u8).is_ok() {
            written = written.wrapping_add(1);
        }
        Ok(written)
    }

    /// Send the escape sequence that clears the screen and homes the
    /// cursor; counts what was written.
    fn clear_screen(&self) -> (r: DriverResult<usize>)
        ensures
            r is Ok,
            r->Ok_0 <= 7,
    {
        proof {
            reveal_strlit("\x1b[2J\x1b[H");
            vstd::string::is_ascii_spec_bytes("\x1b[2J\x1b[H");
        }
        self.write_str("\x1b[2J\x1b[H")
    }
}

} // verus!
