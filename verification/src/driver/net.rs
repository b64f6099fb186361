//! Network interfaces that send and receive Ethernet frames.

use vstd::prelude::*;
use crate::driver::{Driver, DriverResult};

verus! {

pub trait NetDevice: Driver {
    /// The MAC address of the interface.
    fn mac_address(&self) -> [u8; 6];

    /// A received frame is waiting.
    fn has_rx_data(&self) -> bool;

    /// Send the frame `buf`.
    fn transmit(&self, buf: &[u8]) -> DriverResult<()>;

    /// Receive a frame into `buf`; returns its length.
    fn receive(&self, buf: &mut [u8]) -> DriverResult<usize>;
}

} // verus!
