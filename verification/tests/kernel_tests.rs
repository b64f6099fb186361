use std::cell::RefCell;

use openion::arch::{disable_irq, enable_irq, in_critical_section};
use openion::driver::char::{
    has_rx_poll_fn, pop_from_rx_buf, push_to_rx_buf, set_rx_poll_fn, RxBuffer, RxPoll, RxPort, BUF_SIZE,
};
use openion::driver::gpio::{pin_in_range, validate_pin, GpioController, GpioIrqTrigger, GpioPin, PinLevel, PinMode};
use openion::driver::{Driver, DriverResult, GenericDeviceConfig};
use openion::driver::manager::{DriverManager, IrqDispatch};
use openion::driver::pool::StaticDriverPool;
use openion::driver::rng::u32_from_fill;
use openion::driver::DriverErr;
use openion::irq::{add_irq_handler, handle_irq, init as irq_init, remove_irq_handler, stats as irq_stats, IrqHandlers, IrqState};
use openion::log::{console_bytes, timestamp, write_console, PlatformConsole};
use openion::net::posix::{
    dec_digits_exec, udp_socket_supported, AddressFamily, FdTable, Ipv4Addr, PosixError, Protocol, SocketType,
};
use openion::platform::{
    dtb_addr, get_config, schedule_next_timer_tick, set_config, set_dtb_addr, set_next_timer_tick,
    set_smp_status_provider, smp_status, PlatformConfig, PlatformState, SmpStatus, SmpStatusProvider, TimerHook,
};
use openion::process::elf::{copy_segments, load_elf, validate_elf, ElfSegment};
use openion::process::init::{InitError, InitManager, InitService, InitStats, ServiceStarter, INIT_SERVICE_CAP};
use openion::sched::percpu::PerCpuTable;
use openion::syscall::{
    console_write_value, dispatch, driver_err, err, terminal_write_value, user_slice_ok, SyscallArgs, SyscallHost,
    EAGAIN, EBADF, EFAULT, EIO, ENOENT, ENOSYS, NR_EXIT, NR_READ, NR_WRITE, NR_YIELD,
};
use openion::timer::{init as timer_init, tick, ticks, time_us, Timer};

// ---------------------------------------------------------------- ELF

fn put16(b: &mut [u8], off: usize, v: u16) {
    b[off..off + 2].copy_from_slice(&v.to_le_bytes());
}

fn put32(b: &mut [u8], off: usize, v: u32) {
    b[off..off + 4].copy_from_slice(&v.to_le_bytes());
}

fn put64(b: &mut [u8], off: usize, v: u64) {
    b[off..off + 8].copy_from_slice(&v.to_le_bytes());
}

/// An executable with one note header and two `PT_LOAD` segments.
fn sample_elf() -> Vec<u8> {
    let mut b = vec![0u8; 64 + 3 * 56 + 32];
    b[0..4].copy_from_slice(&[0x7f, b'E', b'L', b'F']);
    b[4] = 2;
    b[5] = 1;
    put16(&mut b, 16, 2);
    put64(&mut b, 24, 0x8020_0000);
    put64(&mut b, 32, 64);
    put16(&mut b, 54, 56);
    put16(&mut b, 56, 3);
    let ph = |i: usize| 64 + i * 56;
    // a note header, skipped
    put32(&mut b, ph(0), 4);
    // a text segment
    put32(&mut b, ph(1), 1);
    put64(&mut b, ph(1) + 8, 232);
    put64(&mut b, ph(1) + 24, 0x8020_0000);
    put64(&mut b, ph(1) + 32, 16);
    put64(&mut b, ph(1) + 40, 16);
    // a bss-like segment
    put32(&mut b, ph(2), 1);
    put64(&mut b, ph(2) + 8, 248);
    put64(&mut b, ph(2) + 24, 0x8020_1000);
    put64(&mut b, ph(2) + 32, 16);
    put64(&mut b, ph(2) + 40, 0x100);
    b
}

#[test]
fn elf_header_checks() {
    assert_eq!(validate_elf(&[0u8; 10]), Err("Too small for ELF header"));
    let mut b = sample_elf();
    assert_eq!(validate_elf(&b), Ok(()));
    b[1] = b'X';
    assert_eq!(validate_elf(&b), Err("Bad ELF magic"));
    let mut c = sample_elf();
    c[4] = 1;
    assert_eq!(validate_elf(&c), Err("Not ELF64"));
    let mut d = sample_elf();
    d[5] = 2;
    assert_eq!(validate_elf(&d), Err("Not little-endian"));
    let mut e = sample_elf();
    put16(&mut e, 16, 3);
    assert_eq!(load_elf(&e).unwrap_err(), "Not an executable ELF");
}

#[test]
fn elf_load_plan() {
    let (res, segs) = load_elf(&sample_elf()).unwrap();
    assert_eq!(res.entry_point, 0x8020_0000);
    assert_eq!(res.load_base, 0x8020_0000);
    assert_eq!(res.load_size, 0x1100);
    assert_eq!(
        segs,
        vec![
            ElfSegment { file_offset: 232, mem_addr: 0x8020_0000, file_size: 16, mem_size: 16 },
            ElfSegment { file_offset: 248, mem_addr: 0x8020_1000, file_size: 16, mem_size: 0x100 },
        ]
    );
}

#[test]
fn elf_load_errors() {
    let mut b = sample_elf();
    put64(&mut b, 64 + 56 + 32, 1000);
    assert_eq!(load_elf(&b).unwrap_err(), "Segment data out of bounds");
    let mut c = sample_elf();
    put16(&mut c, 56, 9);
    assert_eq!(load_elf(&c).unwrap_err(), "Program header out of bounds");
    let mut d = sample_elf();
    put32(&mut d, 64 + 56, 0);
    put32(&mut d, 64 + 112, 0);
    assert_eq!(load_elf(&d).unwrap_err(), "No LOAD segments found");
}

// ---------------------------------------------------------------- init

struct Starter;

impl ServiceStarter for Starter {
    fn start(&mut self, start: usize) -> Result<(), InitError> {
        match start {
            0 => Ok(()),
            1 => Err(InitError::Disabled),
            _ => Err(InitError::StartFailed),
        }
    }
}

#[test]
fn init_services_run_in_order() {
    let mut m = InitManager::new();
    assert_eq!(m.register(InitService::new("a", true, 0)), Ok(()));
    assert_eq!(m.register(InitService::new("b", false, 1)), Ok(()));
    assert_eq!(m.register(InitService::new("c", false, 2)), Ok(()));
    let st = m.run(&mut Starter);
    assert_eq!((st.registered, st.started, st.skipped, st.failed), (3, 1, 1, 1));
    for i in 3..INIT_SERVICE_CAP {
        assert_eq!(m.register(InitService::new("x", false, i)), Ok(()));
    }
    assert_eq!(m.register(InitService::new("y", false, 0)), Err(InitError::NoSlots));
}

#[test]
fn init_stats_record_each_outcome() {
    let s = InitStats { registered: 3, started: 0, skipped: 0, failed: 0 };
    let s = s.record(Ok(()));
    let s = s.record(Err(InitError::Disabled));
    let s = s.record(Err(InitError::NoSlots));
    assert_eq!(s, InitStats { registered: 3, started: 1, skipped: 1, failed: 1 });
}

// ---------------------------------------------------------------- syscalls

struct Host {
    terminal: Option<Result<usize, DriverErr>>,
    console: bool,
    input: Vec<u8>,
    memory: Vec<(usize, u8)>,
    exited: bool,
    yielded: bool,
}

impl Host {
    fn new() -> Self {
        Host { terminal: None, console: true, input: Vec::new(), memory: Vec::new(), exited: false, yielded: false }
    }
}

impl SyscallHost for Host {
    fn terminal_write(&mut self, _ptr: usize, _len: usize) -> Option<Result<usize, DriverErr>> {
        self.terminal
    }
    fn console_write(&mut self, _ptr: usize, _len: usize) -> bool {
        self.console
    }
    fn read_byte(&mut self) -> Option<u8> {
        if self.input.is_empty() {
            None
        } else {
            Some(self.input.remove(0))
        }
    }
    fn store_byte(&mut self, addr: usize, byte: u8) {
        self.memory.push((addr, byte));
    }
    fn terminate_current(&mut self) {
        self.exited = true;
    }
    fn schedule(&mut self) {
        self.yielded = true;
    }
}

fn call(h: &mut Host, nr: usize, a0: usize, a1: usize, a2: usize) -> (isize, bool) {
    let r = dispatch(h, SyscallArgs::new(nr, [a0, a1, a2, 0, 0, 0]));
    (r.value, r.schedule)
}

#[test]
fn syscall_write() {
    let mut h = Host::new();
    assert_eq!(call(&mut h, NR_WRITE, 1, 0x1000, 5), (5, false));
    assert_eq!(call(&mut h, NR_WRITE, 0, 0x1000, 5), (-EBADF, false));
    assert_eq!(call(&mut h, NR_WRITE, 1, 0, 5), (-EFAULT, false));
    assert_eq!(call(&mut h, NR_WRITE, 1, usize::MAX, 5), (-EFAULT, false));
    h.console = false;
    assert_eq!(call(&mut h, NR_WRITE, 2, 0x1000, 5), (-EIO, false));
    h.terminal = Some(Ok(3));
    assert_eq!(call(&mut h, NR_WRITE, 1, 0x1000, 5), (3, false));
    h.terminal = Some(Err(DriverErr::Busy));
    assert_eq!(call(&mut h, NR_WRITE, 1, 0x1000, 5), (-EAGAIN, false));
}

#[test]
fn syscall_read() {
    let mut h = Host::new();
    assert_eq!(call(&mut h, NR_READ, 0, 0x2000, 4), (-EAGAIN, false));
    h.input = b"hi".to_vec();
    assert_eq!(call(&mut h, NR_READ, 0, 0x2000, 4), (2, false));
    assert_eq!(h.memory, vec![(0x2000, b'h'), (0x2001, b'i')]);
    assert_eq!(call(&mut h, NR_READ, 0, 0x2000, 0), (0, false));
    assert_eq!(call(&mut h, NR_READ, 1, 0x2000, 4), (-EBADF, false));
    assert_eq!(call(&mut h, NR_READ, 0, 0, 4), (-EFAULT, false));
}

#[test]
fn syscall_exit_yield_unknown() {
    let mut h = Host::new();
    assert_eq!(call(&mut h, NR_EXIT, 0, 0, 0), (0, true));
    assert!(h.exited);
    assert_eq!(call(&mut h, NR_YIELD, 0, 0, 0), (0, true));
    assert!(h.yielded);
    assert_eq!(call(&mut h, 99, 0, 0, 0), (-ENOSYS, false));
}

#[test]
fn syscall_values() {
    assert_eq!(err(EIO), -5);
    assert_eq!(driver_err(DriverErr::NotFound), -ENOENT);
    assert_eq!(driver_err(DriverErr::Timeout), -EAGAIN);
    assert_eq!(terminal_write_value(Ok(7)), 7);
    assert_eq!(terminal_write_value(Ok(usize::MAX)), isize::MAX);
    assert_eq!(terminal_write_value(Err(DriverErr::HardwareFault)), -EIO);
    assert_eq!(console_write_value(true, 9), 9);
    assert_eq!(console_write_value(false, 9), -EIO);
    assert!(user_slice_ok(0, 0));
    assert!(!user_slice_ok(0, 1));
    assert!(user_slice_ok(1, 1));
}

// ---------------------------------------------------------------- sockets

#[test]
fn sockets() {
    assert_eq!(udp_socket_supported(AddressFamily::Inet, SocketType::Dgram, Protocol::Udp), Ok(()));
    assert_eq!(udp_socket_supported(AddressFamily::Inet, SocketType::Dgram, Protocol::Any), Ok(()));
    assert_eq!(
        udp_socket_supported(AddressFamily::Inet, SocketType::Stream, Protocol::Tcp),
        Err(PosixError::EAFNOSUPPORT)
    );
    assert_eq!(
        udp_socket_supported(AddressFamily::Inet6, SocketType::Dgram, Protocol::Udp),
        Err(PosixError::EAFNOSUPPORT)
    );
    let mut t: FdTable<u32> = FdTable::new();
    assert_eq!(t.allocate_fd(10), Ok(0));
    assert_eq!(t.allocate_fd(11), Ok(1));
    assert_eq!(t.get_handle(1), Ok(11));
    t.free_fd(0);
    assert_eq!(t.get_handle(0), Err(PosixError::EBADF));
    assert_eq!(t.get_handle(77), Err(PosixError::EBADF));
    assert_eq!(t.allocate_fd(12), Ok(0));
    assert_eq!(t.allocate_fd(13), Ok(2));
    assert_eq!(t.allocate_fd(14), Ok(3));
    assert_eq!(t.allocate_fd(15), Err(PosixError::ENOMEM));
    assert_eq!(Ipv4Addr([192, 168, 0, 17]).to_text(), b"192.168.0.17".to_vec());
    assert_eq!(dec_digits_exec(0), b"0".to_vec());
    assert_eq!(dec_digits_exec(4_294_967_295), b"4294967295".to_vec());
}

// ---------------------------------------------------------------- rx ring

struct Source(Vec<u8>);

impl RxPoll for Source {
    fn poll(&mut self) -> Option<u8> {
        if self.0.is_empty() {
            None
        } else {
            Some(self.0.remove(0))
        }
    }
}

#[test]
fn rx_ring_is_first_in_first_out() {
    let mut r = RxBuffer::new();
    assert_eq!(r.pop(), None);
    for b in 0..(BUF_SIZE - 1) {
        assert!(r.push(b as u8));
    }
    assert!(!r.push(0xff));
    for b in 0..(BUF_SIZE - 1) {
        assert_eq!(r.pop(), Some(b as u8));
    }
    assert_eq!(r.pop(), None);
    // wrap around
    assert!(r.push(1));
    assert!(r.push(2));
    assert_eq!(r.pop(), Some(1));
    assert_eq!(r.pop(), Some(2));
}

#[test]
fn rx_port_polls_when_empty() {
    let mut p = RxPort::new();
    assert!(!has_rx_poll_fn(&p));
    set_rx_poll_fn(&mut p);
    assert!(has_rx_poll_fn(&p));
    assert!(push_to_rx_buf(&mut p, b'a'));
    let mut src = Source(b"z".to_vec());
    assert_eq!(pop_from_rx_buf(&mut p, &mut src), Some(b'a'));
    assert_eq!(pop_from_rx_buf(&mut p, &mut src), Some(b'z'));
    assert_eq!(pop_from_rx_buf(&mut p, &mut src), None);
}

// ---------------------------------------------------------------- irq

struct Calls(Vec<usize>);

impl IrqHandlers for Calls {
    fn call(&mut self, handler: usize) {
        self.0.push(handler);
    }
}

struct NoDriver;

impl IrqDispatch for NoDriver {
    fn handle_irq(&mut self, _handle: usize, _irq: u32) -> bool {
        false
    }
}

#[test]
fn interrupt_lines() {
    let mut st = IrqState::new();
    irq_init(&mut st, 8);
    let mut drivers = DriverManager::new();
    assert!(add_irq_handler(&mut st, 3, 42));
    assert!(!add_irq_handler(&mut st, 8, 1));
    let mut calls = Calls(Vec::new());
    assert!(handle_irq(&mut st, &mut drivers, 3, &mut calls, &mut NoDriver));
    assert_eq!(calls.0, vec![42]);
    assert!(!handle_irq(&mut st, &mut drivers, 4, &mut calls, &mut NoDriver));
    assert!(!handle_irq(&mut st, &mut drivers, 20, &mut calls, &mut NoDriver));
    let s = irq_stats(&st);
    assert_eq!(s.configured_count, 8);
    assert_eq!(s.registered_handlers, 1);
    assert_eq!(s.handled, 1);
    assert_eq!(s.unhandled, 1);
    assert_eq!(s.out_of_range, 1);
    assert_eq!(s.last_irq, 20);
    assert_eq!(s.last_unhandled_irq, 20);
    assert!(remove_irq_handler(&mut st, 3));
    assert!(!remove_irq_handler(&mut st, 9));
    assert_eq!(irq_stats(&st).registered_handlers, 0);
}

// ---------------------------------------------------------------- timer, arch, log

#[test]
fn timer_counts_ticks() {
    let mut t = Timer::new();
    timer_init(&mut t, 1000);
    tick(&mut t);
    tick(&mut t);
    assert_eq!(ticks(&t), 2);
    assert_eq!(time_us(&t), 2000);
    t.ticks = u32::MAX;
    tick(&mut t);
    assert_eq!(ticks(&t), 0);
}

#[test]
fn irq_masking_nests() {
    let mut t = PerCpuTable::new(false, 1);
    assert!(!in_critical_section(&t, 0));
    assert!(disable_irq(&mut t, 0));
    assert!(!disable_irq(&mut t, 0));
    assert!(in_critical_section(&t, 0));
    assert!(!enable_irq(&mut t, 0, true));
    assert!(enable_irq(&mut t, 0, true));
    assert!(!in_critical_section(&t, 0));
    assert!(disable_irq(&mut t, 0));
    assert!(!enable_irq(&mut t, 0, false));
}

struct Console(RefCell<Vec<u8>>);

impl PlatformConsole for Console {
    fn putc(&self, ch: u8) {
        self.0.borrow_mut().push(ch);
    }
}

#[test]
fn console_output() {
    assert_eq!(timestamp(12_345), (12, 345));
    assert_eq!(console_bytes(b"a\nb\n"), b"a\r\nb\r\n".to_vec());
    let c = Console(RefCell::new(Vec::new()));
    write_console(&c, b"x\ny");
    assert_eq!(c.0.into_inner(), b"x\r\ny".to_vec());
}

// ---------------------------------------------------------------- platform

struct TwoCpus;

impl SmpStatusProvider for TwoCpus {
    fn status(&self) -> SmpStatus {
        SmpStatus { possible_cpus: 2, online_cpus: 2, ..SmpStatus::single_cpu() }
    }
}

struct Hook(u32);

impl TimerHook for Hook {
    fn fire(&mut self) {
        self.0 += 1;
    }
}

#[test]
fn platform_settings() {
    let mut st = PlatformState::new();
    let cfg = PlatformConfig {
        cpu_freq_hz: 1,
        systick_hz: 100,
        external_irq_count: 4,
        memory_base: 0,
        memory_size: 0,
        kernel_end: 0,
    };
    set_config(&mut st, cfg);
    set_config(&mut st, PlatformConfig { systick_hz: 5, ..cfg });
    assert_eq!(get_config(&st).systick_hz, 100);
    assert_eq!(smp_status(&st, &TwoCpus), SmpStatus::single_cpu());
    set_smp_status_provider(&mut st);
    assert_eq!(smp_status(&st, &TwoCpus).online_cpus, 2);
    let mut h = Hook(0);
    assert!(!schedule_next_timer_tick(&st, &mut h));
    set_next_timer_tick(&mut st);
    assert!(schedule_next_timer_tick(&st, &mut h));
    assert_eq!(h.0, 1);
    set_dtb_addr(&mut st, 0x8200_0000);
    assert_eq!(dtb_addr(&st), 0x8200_0000);
}

// ---------------------------------------------------------------- gpio, pool

#[test]
fn gpio_and_pool() {
    assert_eq!(pin_in_range(3, 4), Ok(()));
    assert_eq!(pin_in_range(4, 4), Err(DriverErr::InvalidConfig));
    assert!(PinLevel::High.is_high());
    assert_eq!(PinLevel::from_bool(false), PinLevel::Low);
    assert_eq!(PinLevel::Low.toggled(), PinLevel::High);
    assert_eq!(GpioPin::new(1, 2), GpioPin { bank: 1, index: 2 });
    let mut p: StaticDriverPool<&str, 2> = StaticDriverPool::new();
    assert_eq!(p.allocate("a"), Some(0));
    assert_eq!(p.allocate("b"), Some(1));
    assert_eq!(p.allocate("c"), None);
    assert_eq!(p.get(1), Some(&"b"));
    assert_eq!(p.get(2), None);
}

#[test]
fn random_word_from_four_filled_bytes() {
    let b = [1u8, 2, 3, 4];
    assert_eq!(u32_from_fill(Ok(4), &b), Ok(0x0403_0201));
    assert_eq!(u32_from_fill(Ok(3), &b), Err(DriverErr::HardwareFault));
    assert_eq!(u32_from_fill(Err(DriverErr::Timeout), &b), Err(DriverErr::Timeout));
}

/// A bank of pins kept in memory.
struct MemGpio {
    levels: RefCell<Vec<PinLevel>>,
}

impl Driver for MemGpio {
    type Config = GenericDeviceConfig;
    type Error = DriverErr;

    fn get_config(&self) -> GenericDeviceConfig {
        GenericDeviceConfig::new(0x4000, 0)
    }

    fn name(&self) -> &'static str {
        "memgpio"
    }

    fn init(&self) -> DriverResult<()> {
        Ok(())
    }

    fn handle_irq(&self, _irq_id: u32) -> bool {
        false
    }
}

impl GpioController for MemGpio {
    fn pin_count(&self) -> usize {
        self.levels.borrow().len()
    }

    fn configure_pin(&self, _pin: u8, _mode: PinMode) -> DriverResult<()> {
        Ok(())
    }

    fn read_pin(&self, pin: u8) -> DriverResult<PinLevel> {
        self.levels.borrow().get(pin as usize).copied().ok_or(DriverErr::InvalidConfig)
    }

    fn write_pin(&self, pin: u8, level: PinLevel) -> DriverResult<()> {
        match self.levels.borrow_mut().get_mut(pin as usize) {
            Some(l) => {
                *l = level;
                Ok(())
            }
            None => Err(DriverErr::InvalidConfig),
        }
    }
}

#[test]
fn gpio_pins_are_checked_and_toggled() {
    let g = MemGpio { levels: RefCell::new(vec![PinLevel::Low; 4]) };
    assert_eq!(validate_pin(&g, 3), Ok(()));
    assert_eq!(validate_pin(&g, 4), Err(DriverErr::InvalidConfig));
    assert_eq!(g.toggle_pin(2), Ok(PinLevel::High));
    assert_eq!(g.read_pin(2), Ok(PinLevel::High));
    assert_eq!(g.toggle_pin(9), Err(DriverErr::InvalidConfig));
    assert_eq!(g.configure_irq(1, GpioIrqTrigger::RisingEdge), Err(DriverErr::NotSupported));
}

#[test]
fn elf_segments_are_copied_and_zeroed() {
    let mut image = sample_elf();
    for (i, b) in image[232..264].iter_mut().enumerate() {
        *b = i as u8 + 1;
    }
    let (res, segs) = load_elf(&image).unwrap();
    assert_eq!(res.load_base, 0x8020_0000);
    let mut mem = vec![0xeeu8; res.load_size];
    copy_segments(&image, &segs, res.load_base, &mut mem);
    // the text segment: its 16 file bytes
    assert_eq!(&mem[0..16], &image[232..248]);
    // untouched between the segments
    assert!(mem[16..0x1000].iter().all(|&b| b == 0xee));
    // the second segment: 16 file bytes, then zeros up to 0x100
    assert_eq!(&mem[0x1000..0x1010], &image[248..264]);
    assert!(mem[0x1010..0x1100].iter().all(|&b| b == 0));
}
