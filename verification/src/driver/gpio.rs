//! General-purpose I/O pins and their controllers.

use vstd::prelude::*;
use crate::driver::{Driver, DriverErr, DriverResult};

verus! {

#[derive(Debug, Clone, Copy, PartialEq, Eq, Structural)]
pub enum PinMode {
    Input,
    InputPullUp,
    InputPullDown,
    OutputPushPull,
    OutputOpenDrain,
    Alternate(u8),
    Analog,
}

#[derive(Debug, Clone, Copy, PartialEq, Eq, Structural)]
pub enum PinLevel {
    Low,
    High,
}

impl PinLevel {
    pub fn is_high(self) -> (r: bool)
        ensures
            r == (self == PinLevel::High),
    {
        match self {
            PinLevel::High => true,
            PinLevel::Low => false,
        }
    }

    pub fn from_bool(value: bool) -> (r: Self)
        ensures
            r == if value { PinLevel::High } else { PinLevel::Low },
    {
        if value {
            PinLevel::High
        } else {
            PinLevel::Low
        }
    }

    /// The other level.
    pub fn toggled(self) -> (r: Self)
        ensures
            r != self,
    {
        match self {
            PinLevel::Low => PinLevel::High,
            PinLevel::High => PinLevel::Low,
        }
    }
}

#[derive(Debug, Clone, Copy, PartialEq, Eq, Structural)]
pub enum GpioIrqTrigger {
    RisingEdge,
    FallingEdge,
    BothEdges,
    LowLevel,
    HighLevel,
}

#[derive(Debug, Clone, Copy, PartialEq, Eq, Structural)]
pub struct GpioPin {
    pub bank: u8,
    pub index: u8,
}

impl GpioPin {
    pub fn new(bank: u8, index: u8) -> (r: Self)
        ensures
            r == (GpioPin { bank, index }),
    {
        GpioPin { bank, index }
    }
}

pub trait GpioController: Driver {
    /// How many pins the controller has, for a controller that states
    /// it; `None` for one that does not.
    open spec fn spec_pin_count(&self) -> Option<usize> {
        None
    }

    fn pin_count(&self) -> (r: usize)
        ensures
            self.spec_pin_count() matches Some(n) ==> r == n,
    ;

    fn configure_pin(&self, pin: u8, mode: PinMode) -> DriverResult<()>;

    fn read_pin(&self, pin: u8) -> DriverResult<PinLevel>;

    fn write_pin(&self, pin: u8, level: PinLevel) -> DriverResult<()>;

    /// Drive the pin to the level it is not at; returns the new level.
    fn toggle_pin(&self, pin: u8) -> DriverResult<PinLevel> {
        let next = self.read_pin(pin)?.toggled();
        self.write_pin(pin, next)?;
        Ok(next)
    }

    fn configure_irq(&self, pin: u8, trigger: GpioIrqTrigger) -> DriverResult<()> {
        Err(DriverErr::NotSupported)
    }

    fn clear_irq(&self, pin: u8) -> DriverResult<()> {
        Err(DriverErr::NotSupported)
    }
}

/// A pin is valid on a controller of `pin_count` pins when it is below
/// that count.
pub fn pin_in_range(pin: u8, pin_count: usize) -> (r: DriverResult<()>)
    ensures
        r is Ok <==> (pin as int) < pin_count,
        r is Err ==> r->Err_0 == DriverErr::InvalidConfig,
{
    if (pin as usize) < pin_count {
        Ok(())
    } else {
        Err(DriverErr::InvalidConfig)
    }
}

/// Whether `pin` exists on `controller`.
pub fn validate_pin<C: GpioController>(controller: &C, pin: u8) -> (r: DriverResult<()>)
    ensures
        controller.spec_pin_count() matches Some(n) ==> (r is Ok <==> (pin as int) < n),
        r is Err ==> r->Err_0 == DriverErr::InvalidConfig,
{
    pin_in_range(pin, controller.pin_count())
}

} // verus!
