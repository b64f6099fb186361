use openion::hv::{GuestImage, HvError, HvExitKind, HvState, Hypervisor, VmState, GUEST_MEM_SIZE, MAX_VMS};

fn ready() -> Hypervisor {
    let mut hv = Hypervisor::new(true, vec![0x9000_0000, 0x9000_1000, 0x9000_2000, 0x9000_3000]);
    hv.init(true, true);
    hv
}

#[test]
fn init_states() {
    let mut hv = Hypervisor::new(true, vec![0; MAX_VMS]);
    assert_eq!(hv.stats().state, HvState::Disabled);
    assert_eq!(hv.create_vm("a"), Err(HvError::Disabled));
    hv.init(true, false);
    assert_eq!(hv.stats().state, HvState::Unsupported);
    assert!(!hv.stats().enabled);
    hv.init(false, true);
    assert_eq!(hv.stats().state, HvState::Disabled);
    hv.init(true, true);
    assert_eq!(hv.stats().state, HvState::Ready);
    assert!(hv.stats().enabled);
    assert!(hv.stats().h_extension);
    assert_eq!(HvState::Ready.as_str(), "ready");
}

#[test]
fn create_then_find() {
    let mut hv = ready();
    assert_eq!(hv.create_vm("alpha"), Ok(1));
    assert_eq!(hv.create_vm("beta"), Ok(2));
    let a = hv.find_vm("alpha").unwrap();
    assert_eq!(a.id, 1);
    assert_eq!(a.name_str(), "alpha");
    assert_eq!(a.state, VmState::Created);
    assert_eq!(a.vcpu_count, 1);
    assert!(matches!(hv.find_vm("gamma"), Err(HvError::NotFound)));
    let st = hv.stats();
    assert_eq!(st.vm_count, 2);
    assert_eq!(st.vcpu_count, 2);
}

#[test]
fn create_refusals() {
    let mut hv = ready();
    assert_eq!(hv.create_vm(""), Err(HvError::InvalidName));
    assert_eq!(hv.create_vm(&"n".repeat(25)), Err(HvError::InvalidName));
    assert_eq!(hv.create_vm(&"n".repeat(24)), Ok(1));
    assert_eq!(hv.create_vm(&"n".repeat(24)), Err(HvError::AlreadyExists));
    for name in ["b", "c", "d"] {
        assert!(hv.create_vm(name).is_ok());
    }
    assert_eq!(hv.create_vm("e"), Err(HvError::NoSpace));
    assert_eq!(HvError::NoSpace.message(), "no VM slot available");
}

#[test]
fn load_images() {
    let mut hv = ready();
    hv.create_vm("g").unwrap();
    assert_eq!(hv.load_demo("g"), Ok(()));
    let g = hv.find_vm("g").unwrap();
    assert_eq!(g.state, VmState::Ready);
    assert_eq!(g.guest_size, GUEST_MEM_SIZE);
    assert_eq!(g.entry, 0);
    assert_eq!(hv.load_demo("nope"), Err(HvError::NotFound));
    let big = vec![0u8; GUEST_MEM_SIZE + 1];
    assert_eq!(hv.load_image("g", GuestImage { entry: 0, bytes: &big }), Err(HvError::ImageTooLarge));
    let small = [1u8, 2, 3];
    assert_eq!(hv.load_image("g", GuestImage { entry: 8, bytes: &small }), Ok(()));
    assert_eq!(hv.find_vm("g").unwrap().entry, 8);
}

#[test]
fn list_and_fault() {
    let mut hv = ready();
    hv.create_vm("a").unwrap();
    hv.create_vm("b").unwrap();
    let (vms, n) = hv.list_vms();
    assert_eq!(n, 2);
    assert_eq!(vms.len(), MAX_VMS);
    assert_eq!(vms[0].as_ref().unwrap().name_str(), "a");
    assert_eq!(vms[1].as_ref().unwrap().name_str(), "b");
    assert!(vms[2].is_none());
    assert_eq!(hv.mark_vm_faulted("b", 13, 0xdead), Ok(()));
    assert_eq!(hv.find_vm("b").unwrap().state, VmState::Faulted);
    let st = hv.stats();
    assert_eq!(st.state, HvState::Faulted);
    assert_eq!(st.last_exit, HvExitKind::Fatal);
    assert_eq!(st.last_cause, 13);
    assert_eq!(st.last_stval, 0xdead);
    assert_eq!(st.exits, 1);
    assert_eq!(hv.create_vm("c"), Err(HvError::NotReady));
    assert_eq!(hv.mark_vm_faulted("zz", 0, 0), Err(HvError::NotFound));
}

#[test]
fn exits_are_counted() {
    let mut hv = ready();
    hv.record_exit(HvExitKind::Ecall, 10, 0);
    hv.record_exit(HvExitKind::PageFault, 13, 0x40);
    let st = hv.stats();
    assert_eq!(st.exits, 2);
    assert_eq!(st.last_exit, HvExitKind::PageFault);
    assert_eq!(st.last_stval, 0x40);
    hv.set_faulted(2, 3);
    assert_eq!(hv.stats().state, HvState::Faulted);
    assert_eq!(hv.stats().exits, 3);
    assert_eq!(HvExitKind::Ecall.as_str(), "ecall");
}

#[test]
fn state_numbers_round_trip() {
    for s in [HvState::Disabled, HvState::Compiled, HvState::Unsupported, HvState::Ready, HvState::Faulted] {
        assert_eq!(HvState::from_u32(s.as_u32()), s);
    }
    assert_eq!(HvState::Ready.as_u32(), 3);
    assert_eq!(HvState::from_u32(99), HvState::Disabled);
    for k in [
        HvExitKind::NoExit,
        HvExitKind::Interrupt,
        HvExitKind::Ecall,
        HvExitKind::PageFault,
        HvExitKind::IllegalInstruction,
        HvExitKind::Unsupported,
        HvExitKind::Fatal,
    ] {
        assert_eq!(HvExitKind::from_u32(k.as_u32()), k);
    }
    assert_eq!(HvExitKind::Fatal.as_u32(), 6);
    assert_eq!(HvExitKind::from_u32(7), HvExitKind::NoExit);
}
