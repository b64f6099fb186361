//! Block storage: fixed-size blocks read and written by index.

use vstd::prelude::*;
use crate::driver::{Driver, DriverResult};

verus! {

/// Fixed-block-size random-access storage (SD card, disk, flash).
pub trait BlockDevice: Driver {
    /// Block size in bytes.
    fn block_size(&self) -> usize {
        512
    }

    /// Number of blocks.
    fn block_count(&self) -> usize;

    /// Read block `block_id` into `buf`.
    fn read_block(&self, block_id: usize, buf: &mut [u8]) -> DriverResult<()>;

    /// Write `buf` to block `block_id`.
    fn write_block(&self, block_id: usize, buf: &[u8]) -> DriverResult<()>;
}

} // verus!
