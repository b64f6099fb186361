//! Drivers: the error and resource types shared by all drivers, the device
//! traits that drivers implement, and the registry that holds them.

pub mod block;
pub mod char;
pub mod framebuffer;
pub mod gpio;
pub mod manager;
pub mod net;
pub mod pool;
pub mod rng;
pub mod terminal;

pub use pool::StaticDriverPool;

use vstd::prelude::*;

verus! {

#[derive(Debug, Clone, Copy, PartialEq, Eq, Structural)]
pub enum DriverErr {
    InitFailed,
    Timeout,
    InvalidConfig,
    HardwareFault,
    Busy,
    NotSupported,
    RegistryFull,
    NotFound,
    Custom,
}

impl DriverErr {
    /// The error's code.
    pub fn code(self) -> (r: u8)
        ensures
            r == match self {
                DriverErr::InitFailed => 0u8,
                DriverErr::Timeout => 1,
                DriverErr::InvalidConfig => 2,
                DriverErr::HardwareFault => 3,
                DriverErr::Busy => 4,
                DriverErr::NotSupported => 5,
                DriverErr::RegistryFull => 6,
                DriverErr::NotFound => 7,
                DriverErr::Custom => 255,
            },
    {
        match self {
            DriverErr::InitFailed => 0,
            DriverErr::Timeout => 1,
            DriverErr::InvalidConfig => 2,
            DriverErr::HardwareFault => 3,
            DriverErr::Busy => 4,
            DriverErr::NotSupported => 5,
            DriverErr::RegistryFull => 6,
            DriverErr::NotFound => 7,
            DriverErr::Custom => 255,
        }
    }
}

pub type DriverResult<T> = Result<T, DriverErr>;

/// Where a device sits: its MMIO window and its interrupt line.
#[derive(Debug, Clone, Copy, PartialEq, Eq, Structural)]
pub struct DeviceResource {
    pub base_addr: usize,
    pub size: usize,
    pub irq: u32,
}

impl DeviceResource {
    pub fn new(base_addr: usize, size: usize, irq: u32) -> (r: Self)
        ensures
            r == (DeviceResource { base_addr, size, irq }),
    {
        DeviceResource { base_addr, size, irq }
    }

    /// A resource whose window size is not known.
    pub fn without_size(base_addr: usize, irq: u32) -> (r: Self)
        ensures
            r == (DeviceResource { base_addr, size: 0, irq }),
    {
        Self::new(base_addr, 0, irq)
    }
}

/// The configuration of a device.
pub trait DeviceConfig {
    /// The resource that this configuration describes, for a
    /// configuration that states it; `None` for one that does not, of
    /// which the methods below promise nothing.
    open spec fn spec_resource(&self) -> Option<DeviceResource> {
        None
    }

    fn resource(&self) -> (r: DeviceResource)
        ensures
            self.spec_resource() matches Some(res) ==> r == res,
    ;

    fn base_address(&self) -> (r: usize)
        ensures
            self.spec_resource() matches Some(res) ==> r == res.base_addr,
    ;

    fn mmio_size(&self) -> (r: usize)
        ensures
            self.spec_resource() matches Some(res) ==> r == res.size,
    {
        self.resource().size
    }

    fn irq_number(&self) -> (r: u32)
        ensures
            self.spec_resource() matches Some(res) ==> r == res.irq,
    {
        self.resource().irq
    }
}

/// A configuration made of a resource only.
#[derive(Debug, Clone, Copy, PartialEq, Eq, Structural)]
pub struct GenericDeviceConfig {
    pub base_addr: usize,
    pub size: usize,
    pub irq_num: u32,
}

impl GenericDeviceConfig {
    pub fn new(base_addr: usize, irq_num: u32) -> (r: Self)
        ensures
            r == (GenericDeviceConfig { base_addr, size: 0, irq_num }),
    {
        Self::from_resource(DeviceResource::without_size(base_addr, irq_num))
    }

    pub fn with_mmio(base_addr: usize, size: usize, irq_num: u32) -> (r: Self)
        ensures
            r == (GenericDeviceConfig { base_addr, size, irq_num }),
    {
        Self::from_resource(DeviceResource::new(base_addr, size, irq_num))
    }

    pub fn from_resource(resource: DeviceResource) -> (r: Self)
        ensures
            r == (GenericDeviceConfig { base_addr: resource.base_addr, size: resource.size, irq_num: resource.irq }),
    {
        GenericDeviceConfig { base_addr: resource.base_addr, size: resource.size, irq_num: resource.irq }
    }
}

impl DeviceConfig for GenericDeviceConfig {
    open spec fn spec_resource(&self) -> Option<DeviceResource> {
        Some(DeviceResource { base_addr: self.base_addr, size: self.size, irq: self.irq_num })
    }

    fn resource(&self) -> (r: DeviceResource)
        ensures
            self.spec_resource() matches Some(res) ==> r == res,
    {
        DeviceResource::new(self.base_addr, self.size, self.irq_num)
    }

    fn base_address(&self) -> (r: usize)
        ensures
            self.spec_resource() matches Some(res) ==> r == res.base_addr,
    {
        self.base_addr
    }
}

#[derive(Debug, Clone, Copy, PartialEq, Eq, Structural)]
pub enum DeviceState {
    Uninitialized,
    Ready,
    Busy,
    Error,
    Suspended,
}

impl DeviceState {
    pub fn is_ready(&self) -> (r: bool)
        ensures
            r == (*self == DeviceState::Ready),
    {
        match self {
            DeviceState::Ready => true,
            _ => false,
        }
    }

    pub fn is_error(&self) -> (r: bool)
        ensures
            r == (*self == DeviceState::Error),
    {
        match self {
            DeviceState::Error => true,
            _ => false,
        }
    }
}

/// A device driver.
pub trait Driver {
    type Config: DeviceConfig;
    type Error: Copy;

    fn get_config(&self) -> Self::Config;

    fn name(&self) -> &'static str;

    fn init(&self) -> DriverResult<()>;

    fn handle_irq(&self, irq_id: u32) -> bool;

    fn check_health(&self) -> DriverResult<()> {
        Ok(())
    }

    fn power_on(&self) -> DriverResult<()> {
        Ok(())
    }

    fn power_off(&self) -> DriverResult<()> {
        Ok(())
    }

    fn state(&self) -> DeviceState {
        DeviceState::Ready
    }
}

/// A maker of drivers for the devices of the device tree that carry one of
/// its `compatible` strings; drivers are named by handles of the registry.
pub trait DriverFactory {
    fn compatible(&self) -> Vec<&'static str>;

    fn probe(&mut self, resource: DeviceResource) -> Option<manager::DriverRecord>;
}

/// The classes of a device, one bit each.
#[derive(Debug, Clone, Copy, PartialEq, Eq, Structural)]
pub struct DeviceClass(pub u8);

pub const CLASS_BLOCK: u8 = 1;
pub const CLASS_CHAR: u8 = 2;
pub const CLASS_TERMINAL: u8 = 4;
pub const CLASS_GPIO: u8 = 8;
pub const CLASS_FRAMEBUFFER: u8 = 16;
pub const CLASS_NET: u8 = 32;
pub const CLASS_RNG: u8 = 64;

impl DeviceClass {
    pub open spec fn has(self, bit: u8) -> bool {
        self.0 & bit != 0
    }

    pub fn empty() -> (r: Self)
        ensures
            r.0 == 0,
    {
        DeviceClass(0)
    }

    /// Whether every bit of `other` is set.
    pub fn contains(&self, other: DeviceClass) -> (r: bool)
        ensures
            r == (self.0 & other.0 == other.0),
    {
        self.0 & other.0 == other.0
    }

    /// The class with the bits of both.
    pub fn union(self, other: DeviceClass) -> (r: DeviceClass)
        ensures
            r.0 == self.0 | other.0,
    {
        DeviceClass(self.0 | other.0)
    }

    /// The class of a driver that offers the given device interfaces.
    pub fn from_caps(block: bool, chr: bool, term: bool, gpio: bool, fb: bool, net: bool, rng: bool) -> (r: DeviceClass)
        ensures
            r.has(CLASS_BLOCK) == block,
            r.has(CLASS_CHAR) == chr,
            r.has(CLASS_TERMINAL) == term,
            r.has(CLASS_GPIO) == gpio,
            r.has(CLASS_FRAMEBUFFER) == fb,
            r.has(CLASS_NET) == net,
            r.has(CLASS_RNG) == rng,
            r.0 < 128,
    {
        let b0: u8 = if block { 1 } else { 0 };
        let b1: u8 = if chr { 2 } else { 0 };
        let b2: u8 = if term { 4 } else { 0 };
        let b3: u8 = if gpio { 8 } else { 0 };
        let b4: u8 = if fb { 16 } else { 0 };
        let b5: u8 = if net { 32 } else { 0 };
        let b6: u8 = if rng { 64 } else { 0 };
        let v: u8 = b0 + b1 + b2 + b3 + b4 + b5 + b6;
        assert(v & 1 != 0 <==> b0 != 0) by (bit_vector)
            requires v == b0 + b1 + b2 + b3 + b4 + b5 + b6, b0 == 0 || b0 == 1, b1 == 0 || b1 == 2, b2 == 0 || b2 == 4,
                b3 == 0 || b3 == 8, b4 == 0 || b4 == 16, b5 == 0 || b5 == 32, b6 == 0 || b6 == 64;
        assert(v & 2 != 0 <==> b1 != 0) by (bit_vector)
            requires v == b0 + b1 + b2 + b3 + b4 + b5 + b6, b0 == 0 || b0 == 1, b1 == 0 || b1 == 2, b2 == 0 || b2 == 4,
                b3 == 0 || b3 == 8, b4 == 0 || b4 == 16, b5 == 0 || b5 == 32, b6 == 0 || b6 == 64;
        assert(v & 4 != 0 <==> b2 != 0) by (bit_vector)
            requires v == b0 + b1 + b2 + b3 + b4 + b5 + b6, b0 == 0 || b0 == 1, b1 == 0 || b1 == 2, b2 == 0 || b2 == 4,
                b3 == 0 || b3 == 8, b4 == 0 || b4 == 16, b5 == 0 || b5 == 32, b6 == 0 || b6 == 64;
        assert(v & 8 != 0 <==> b3 != 0) by (bit_vector)
            requires v == b0 + b1 + b2 + b3 + b4 + b5 + b6, b0 == 0 || b0 == 1, b1 == 0 || b1 == 2, b2 == 0 || b2 == 4,
                b3 == 0 || b3 == 8, b4 == 0 || b4 == 16, b5 == 0 || b5 == 32, b6 == 0 || b6 == 64;
        assert(v & 16 != 0 <==> b4 != 0) by (bit_vector)
            requires v == b0 + b1 + b2 + b3 + b4 + b5 + b6, b0 == 0 || b0 == 1, b1 == 0 || b1 == 2, b2 == 0 || b2 == 4,
                b3 == 0 || b3 == 8, b4 == 0 || b4 == 16, b5 == 0 || b5 == 32, b6 == 0 || b6 == 64;
        assert(v & 32 != 0 <==> b5 != 0) by (bit_vector)
            requires v == b0 + b1 + b2 + b3 + b4 + b5 + b6, b0 == 0 || b0 == 1, b1 == 0 || b1 == 2, b2 == 0 || b2 == 4,
                b3 == 0 || b3 == 8, b4 == 0 || b4 == 16, b5 == 0 || b5 == 32, b6 == 0 || b6 == 64;
        assert(v & 64 != 0 <==> b6 != 0) by (bit_vector)
            requires v == b0 + b1 + b2 + b3 + b4 + b5 + b6, b0 == 0 || b0 == 1, b1 == 0 || b1 == 2, b2 == 0 || b2 == 4,
                b3 == 0 || b3 == 8, b4 == 0 || b4 == 16, b5 == 0 || b5 == 32, b6 == 0 || b6 == 64;
        DeviceClass(v)
    }

    /// The name of the first class that the driver has, in the order
    /// block, char, terminal, gpio, framebuffer, net, rng ("other" if none).
    pub fn class_name(&self) -> (r: &'static str)
        ensures
            r@ == if self.has(CLASS_BLOCK) { "block"@ } else if self.has(CLASS_CHAR) { "char"@ }
                else if self.has(CLASS_TERMINAL) { "terminal"@ } else if self.has(CLASS_GPIO) { "gpio"@ }
                else if self.has(CLASS_FRAMEBUFFER) { "framebuffer"@ } else if self.has(CLASS_NET) { "net"@ }
                else if self.has(CLASS_RNG) { "rng"@ } else { "other"@ },
    {
        if self.0 & CLASS_BLOCK != 0 {
            "block"
        } else if self.0 & CLASS_CHAR != 0 {
            "char"
        } else if self.0 & CLASS_TERMINAL != 0 {
            "terminal"
        } else if self.0 & CLASS_GPIO != 0 {
            "gpio"
        } else if self.0 & CLASS_FRAMEBUFFER != 0 {
            "framebuffer"
        } else if self.0 & CLASS_NET != 0 {
            "net"
        } else if self.0 & CLASS_RNG != 0 {
            "rng"
        } else {
            "other"
        }
    }
}

} // verus!
