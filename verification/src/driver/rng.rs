//! Hardware random number generators.

use vstd::prelude::*;
use crate::driver::{Driver, DriverErr, DriverResult};
use crate::fs::exfat::{le32, le_u32};

verus! {

pub trait RngDevice: Driver {
    /// Fill `buf` with random bytes; returns how many were written.
    fn fill_bytes(&self, buf: &mut [u8]) -> DriverResult<usize>;

    /// Four random bytes, little-endian; a hardware fault when fewer came.
    fn read_u32(&self) -> DriverResult<u32> {
        let mut buf: [u8; 4] = [0u8; 4];
        let filled = self.fill_bytes(&mut buf);
        u32_from_fill(filled, &buf)
    }
}

/// What [`RngDevice::read_u32`] gives when filling its four-byte buffer
/// returned `filled` and left `buf`: the fill's error, a hardware fault
/// when fewer or more than four bytes came, else the little-endian word.
pub fn u32_from_fill(filled: DriverResult<usize>, buf: &[u8]) -> (r: DriverResult<u32>)
    requires
        buf.len() == 4,
    ensures
        r == match filled {
            Err(e) => Err(e),
            Ok(n) => if n == 4 {
                Ok(le32(buf@, 0))
            } else {
                Err(DriverErr::HardwareFault)
            },
        },
{
    let n = filled?;
    if n == 4 {
        Ok(le_u32(buf, 0))
    } else {
        Err(DriverErr::HardwareFault)
    }
}

} // verus!
