use openion::driver::manager::{
    is_valid_driver_name, DriverIdentity, DriverManager, DriverRecord, IrqDispatch, ProbeHost, MAX_DRIVERS,
};
use openion::driver::{
    DeviceClass, DeviceConfig, DeviceResource, DeviceState, DriverErr, DriverResult, GenericDeviceConfig,
    CLASS_BLOCK, CLASS_CHAR, CLASS_NET, CLASS_RNG,
};
use openion::fs::{init, list_dir, resolve_path, Vfs};
use openion::{format_dev_name, register_dev_files};

fn record(handle: usize, name: &'static str, base: usize, irq: u32, class: u8) -> DriverRecord {
    DriverRecord {
        handle,
        name,
        identity: DriverIdentity::new("test", DeviceResource::new(base, 0x100, irq)),
        class: DeviceClass(class),
    }
}

#[test]
fn driver_names() {
    assert!(is_valid_driver_name(b"uart0"));
    assert!(is_valid_driver_name(b"virtio_blk"));
    assert!(!is_valid_driver_name(b""));
    assert!(!is_valid_driver_name(b"Uart"));
    assert!(!is_valid_driver_name(b"uart-0"));
}

#[test]
fn error_codes() {
    assert_eq!(DriverErr::InitFailed.code(), 0);
    assert_eq!(DriverErr::RegistryFull.code(), 6);
    assert_eq!(DriverErr::NotFound.code(), 7);
    assert_eq!(DriverErr::Custom.code(), 255);
}

#[test]
fn register_find_unregister() {
    let mut m = DriverManager::new();
    assert_eq!(m.register_driver(record(10, "uart", 0x1000, 10, CLASS_CHAR)), Ok(()));
    assert_eq!(m.register_driver(record(11, "disk", 0x2000, 11, CLASS_BLOCK)), Ok(()));
    assert_eq!(m.get_driver("uart").unwrap().handle, 10);
    assert_eq!(m.get_driver("disk").unwrap().handle, 11);
    assert!(m.get_driver("none").is_none());
    let id = DriverIdentity::new("test", DeviceResource::new(0x2000, 0x100, 11));
    assert_eq!(m.get_driver_by_identity(id).unwrap().handle, 11);
    assert_eq!(m.for_each_char_device(), vec![10]);
    assert_eq!(m.for_each_block_device(), vec![11]);
    assert!(m.for_each_net_device().is_empty());
    let all: Vec<usize> = m.for_each_driver().iter().map(|d| d.handle).collect();
    assert_eq!(all, vec![10, 11]);
    let stats = m.registry_stats();
    assert_eq!(stats.registered_drivers, 2);
    assert_eq!(stats.registered_char_devices, 1);
    assert_eq!(stats.registered_block_devices, 1);
    assert_eq!(stats.irq_fast_slots, 2);

    assert_eq!(m.unregister_driver("uart"), Ok(()));
    assert!(m.get_driver("uart").is_none());
    assert!(m.for_each_char_device().is_empty());
    assert_eq!(m.unregister_driver("uart"), Err(DriverErr::NotFound));
    assert_eq!(m.unregister_driver_by_identity(id), Ok(()));
    assert_eq!(m.unregister_driver_by_identity(id), Err(DriverErr::NotFound));
    assert!(m.for_each_driver().is_empty());
    assert_eq!(m.registry_stats().registered_drivers, 0);
    assert_eq!(m.registry_stats().irq_fast_slots, 0);
    assert_eq!(m.registry_stats().registered_block_devices, 0);
    assert_eq!(m.registry_stats().registered_char_devices, 0);
}

#[test]
fn register_refusals() {
    let mut m = DriverManager::new();
    assert_eq!(m.register_driver(record(1, "Bad", 0x1000, 1, CLASS_CHAR)), Err(DriverErr::InvalidConfig));
    assert_eq!(m.register_driver(record(1, "a", 0x1000, 1, CLASS_CHAR)), Ok(()));
    // the same class and resource again
    assert_eq!(m.register_driver(record(2, "b", 0x1000, 1, CLASS_CHAR)), Err(DriverErr::InvalidConfig));
    assert_eq!(m.registry_stats().registered_drivers, 1);
}

#[test]
fn registry_fills_up() {
    let mut m = DriverManager::new();
    for i in 0..MAX_DRIVERS {
        assert_eq!(m.register_driver(record(i, "rng", 0x1000 * (i + 1), 0, CLASS_RNG)), Ok(()));
    }
    assert_eq!(m.register_driver(record(99, "rng", 0x99000, 0, CLASS_RNG)), Err(DriverErr::RegistryFull));
    assert_eq!(m.for_each_rng_device().len(), MAX_DRIVERS);
}

#[test]
fn factories() {
    let mut m = DriverManager::new();
    assert_eq!(m.register_factory(3), Ok(()));
    assert_eq!(m.register_factory(3), Err(DriverErr::InvalidConfig));
    for f in 100..115 {
        assert_eq!(m.register_factory(f), Ok(()));
    }
    assert_eq!(m.register_factory(200), Err(DriverErr::RegistryFull));
}

struct Irqs {
    takes: Vec<usize>,
    seen: Vec<(usize, u32)>,
}

impl IrqDispatch for Irqs {
    fn handle_irq(&mut self, handle: usize, irq: u32) -> bool {
        self.seen.push((handle, irq));
        self.takes.contains(&handle)
    }
}

#[test]
fn interrupts_go_to_the_fast_path_first() {
    let mut m = DriverManager::new();
    m.register_driver(record(1, "a", 0x1000, 5, CLASS_CHAR)).unwrap();
    m.register_driver(record(2, "b", 0x2000, 6, CLASS_NET)).unwrap();
    let mut host = Irqs { takes: vec![2], seen: Vec::new() };
    assert!(m.dispatch_irq(6, &mut host));
    assert_eq!(host.seen, vec![(2, 6)]);
    let s = m.registry_stats();
    assert_eq!(s.irq_fast_hits, 1);
    assert_eq!(s.irq_driver_hits, 1);

    // line 5 belongs to driver 1, which declines; the scan finds driver 2
    host.seen.clear();
    assert!(m.dispatch_irq(5, &mut host));
    assert_eq!(host.seen, vec![(1, 5), (1, 5), (2, 5)]);
    assert_eq!(m.registry_stats().irq_fast_fallbacks, 1);

    let mut none = Irqs { takes: vec![], seen: Vec::new() };
    assert!(!m.dispatch_irq(40, &mut none));
    let s = m.registry_stats();
    assert_eq!(s.irq_dispatches, 3);
    assert_eq!(s.irq_driver_misses, 1);
}

#[test]
fn generic_config_and_states() {
    let c = GenericDeviceConfig::with_mmio(0x1000, 0x200, 7);
    assert_eq!(c.base_address(), 0x1000);
    assert_eq!(c.mmio_size(), 0x200);
    assert_eq!(c.irq_number(), 7);
    let d = GenericDeviceConfig::new(0x3000, 2);
    assert_eq!(d.mmio_size(), 0);
    assert!(DeviceState::Ready.is_ready());
    assert!(!DeviceState::Ready.is_error());
    assert!(DeviceState::Error.is_error());
}

#[test]
fn device_classes() {
    let c = DeviceClass::from_caps(true, false, false, false, false, true, false);
    assert_eq!(c.0, CLASS_BLOCK | CLASS_NET);
    assert!(c.contains(DeviceClass(CLASS_NET)));
    assert!(!c.contains(DeviceClass(CLASS_CHAR)));
    assert_eq!(c.class_name(), "block");
    assert_eq!(DeviceClass(CLASS_NET).class_name(), "net");
    assert_eq!(DeviceClass::empty().class_name(), "other");
    assert_eq!(DeviceClass(CLASS_CHAR).union(DeviceClass(CLASS_RNG)).0, CLASS_CHAR | CLASS_RNG);
}

#[test]
fn device_file_names() {
    assert_eq!(format_dev_name("blk", 0), b"blk0".to_vec());
    assert_eq!(format_dev_name("ttyS", 12), b"ttyS12".to_vec());
    assert_eq!(format_dev_name("averyverylongname", 3), b"averyverylongna".to_vec());
}

#[test]
fn dev_files_follow_the_registry() {
    let mut m = DriverManager::new();
    m.register_driver(record(1, "uart", 0x1000, 1, CLASS_CHAR)).unwrap();
    m.register_driver(record(2, "disk", 0x2000, 2, CLASS_BLOCK)).unwrap();
    m.register_driver(record(3, "disk", 0x3000, 3, CLASS_BLOCK)).unwrap();
    let mut fs = Vfs::new();
    init(&mut fs);
    register_dev_files(&mut fs, &m);
    let dev = resolve_path(&fs, "/dev").unwrap();
    let names: Vec<String> = list_dir(&fs, dev).unwrap().iter().map(|e| e.name_str().to_string()).collect();
    assert_eq!(names, vec!["blk0", "blk1", "ttyS0"]);
    // a second run keeps what is there
    register_dev_files(&mut fs, &m);
    assert_eq!(list_dir(&fs, dev).unwrap().len(), 3);
}

fn push32(v: &mut Vec<u8>, x: u32) {
    v.extend_from_slice(&x.to_be_bytes());
}

fn push_padded(v: &mut Vec<u8>, s: &[u8]) {
    v.extend_from_slice(s);
    v.push(0);
    while v.len() % 4 != 0 {
        v.push(0);
    }
}

/// A device tree with one `uart@1000` node (`ns16550a`, irq 10).
fn uart_dtb() -> Vec<u8> {
    let strings = b"compatible\0reg\0interrupts\0".to_vec();
    let mut st: Vec<u8> = Vec::new();
    push32(&mut st, 1);
    push_padded(&mut st, b"");
    push32(&mut st, 1);
    push_padded(&mut st, b"uart@1000");
    let compat = b"ns16550a\0";
    push32(&mut st, 3);
    push32(&mut st, compat.len() as u32);
    push32(&mut st, 0);
    st.extend_from_slice(compat);
    while st.len() % 4 != 0 {
        st.push(0);
    }
    push32(&mut st, 3);
    push32(&mut st, 16);
    push32(&mut st, 11);
    for x in [0u32, 0x1000, 0, 0x100] {
        push32(&mut st, x);
    }
    push32(&mut st, 3);
    push32(&mut st, 4);
    push32(&mut st, 15);
    push32(&mut st, 10);
    push32(&mut st, 2);
    push32(&mut st, 2);
    push32(&mut st, 9);
    let off_struct = 40u32;
    let off_strings = off_struct + st.len() as u32;
    let total = off_strings + strings.len() as u32;
    let mut h: Vec<u8> = Vec::new();
    for x in [0xd00dfeedu32, total, off_struct, off_strings, 0, 17, 16, 0, strings.len() as u32, st.len() as u32] {
        push32(&mut h, x);
    }
    h.extend_from_slice(&st);
    h.extend_from_slice(&strings);
    h
}

struct Probe {
    inited: Vec<usize>,
    fail_init: bool,
}

impl ProbeHost for Probe {
    fn compatible(&self, factory: usize) -> Vec<&'static str> {
        if factory == 1 {
            vec!["virtio,mmio"]
        } else {
            vec!["ns16550", "ns16550a"]
        }
    }
    fn probe(&mut self, factory: usize, resource: DeviceResource) -> Option<DriverRecord> {
        Some(DriverRecord {
            handle: factory * 100,
            name: "uart",
            identity: DriverIdentity::new("uart", resource),
            class: DeviceClass(CLASS_CHAR),
        })
    }
    fn auto_init(&mut self, handle: usize) -> DriverResult<()> {
        self.inited.push(handle);
        if self.fail_init {
            Err(DriverErr::InitFailed)
        } else {
            Ok(())
        }
    }
}

#[test]
fn probing_the_device_tree() {
    let dtb = uart_dtb();
    let mut m = DriverManager::new();
    m.register_factory(1).unwrap();
    m.register_factory(2).unwrap();
    let mut host = Probe { inited: Vec::new(), fail_init: false };
    assert_eq!(m.auto_probe_fdt(&dtb, &mut host), 1);
    assert_eq!(host.inited, vec![200]);
    let d = m.get_driver("uart").unwrap();
    assert_eq!(d.identity.base_addr, 0x1000);
    assert_eq!(d.identity.irq, 10);
    let s = m.registry_stats();
    assert_eq!(s.probe_matches, 1);
    assert_eq!(s.probe_successes, 1);
    assert_eq!(s.registered_factories, 0);

    let mut failing = DriverManager::new();
    failing.register_factory(2).unwrap();
    let mut bad = Probe { inited: Vec::new(), fail_init: true };
    assert_eq!(failing.auto_probe_fdt(&dtb, &mut bad), 0);
    assert_eq!(failing.registry_stats().probe_failures, 1);
}
