//! The hypervisor's bookkeeping: its state, a small table of virtual
//! machines with their guest memory, and the record of guest exits.

use vstd::prelude::*;
use vstd::string::StringSliceAdditionalSpecFns;
use crate::text::{bytes_eq, copy_prefix, utf8_or_empty, utf8_text};

verus! {

pub const VM_NAME_MAX: usize = 24;
pub const MAX_VMS: usize = 4;
pub const MAX_VCPUS_PER_VM: usize = 1;
pub const GUEST_MEM_SIZE: usize = 4096;
pub const DEMO_GUEST_BASE: usize = 0;
pub const DEMO_GUEST_ENTRY: usize = 0;

/// The demo guest: `li a7, 1; li a0, 'H'; ecall`.
pub open spec fn demo_image() -> Seq<u8> {
    seq![0x93u8, 0x08u8, 0x10u8, 0x00u8, 0x13u8, 0x05u8, 0x80u8, 0x04u8, 0x73u8, 0x00u8, 0x00u8, 0x00u8]
}

/// A guest program: where it starts and its bytes.
#[derive(Clone, Copy)]
pub struct GuestImage<'a> {
    pub entry: usize,
    pub bytes: &'a [u8],
}

#[derive(Debug, Clone, Copy, PartialEq, Eq, Structural)]
pub enum HvState {
    Disabled,
    Compiled,
    Unsupported,
    Ready,
    Faulted,
}

impl HvState {
    /// The state's number, as it is stored.
    pub fn as_u32(self) -> (r: u32)
        ensures
            r == self.as_u32_spec(),
    {
        match self {
            HvState::Disabled => 0,
            HvState::Compiled => 1,
            HvState::Unsupported => 2,
            HvState::Ready => 3,
            HvState::Faulted => 4,
        }
    }

    /// The state of the number `value` (disabled for an unknown one).
    pub fn from_u32(value: u32) -> (r: Self)
        ensures
            r == if value == 1 { HvState::Compiled } else if value == 2 { HvState::Unsupported } else if value == 3 {
                HvState::Ready
            } else if value == 4 { HvState::Faulted } else { HvState::Disabled },
            value <= 4 ==> r.as_u32_spec() == value,
    {
        if value == 1 {
            HvState::Compiled
        } else if value == 2 {
            HvState::Unsupported
        } else if value == 3 {
            HvState::Ready
        } else if value == 4 {
            HvState::Faulted
        } else {
            HvState::Disabled
        }
    }

    pub open spec fn as_u32_spec(self) -> u32 {
        match self {
            HvState::Disabled => 0u32,
            HvState::Compiled => 1,
            HvState::Unsupported => 2,
            HvState::Ready => 3,
            HvState::Faulted => 4,
        }
    }

    pub fn as_str(self) -> (r: &'static str)
        ensures
            r@ == match self {
                HvState::Disabled => "disabled"@,
                HvState::Compiled => "compiled"@,
                HvState::Unsupported => "unsupported"@,
                HvState::Ready => "ready"@,
                HvState::Faulted => "faulted"@,
            },
    {
        match self {
            HvState::Disabled => "disabled",
            HvState::Compiled => "compiled",
            HvState::Unsupported => "unsupported",
            HvState::Ready => "ready",
            HvState::Faulted => "faulted",
        }
    }
}

#[derive(Debug, Clone, Copy, PartialEq, Eq, Structural)]
pub enum HvExitKind {
    NoExit,
    Interrupt,
    Ecall,
    PageFault,
    IllegalInstruction,
    Unsupported,
    Fatal,
}

impl HvExitKind {
    pub open spec fn as_u32_spec(self) -> u32 {
        match self {
            HvExitKind::NoExit => 0u32,
            HvExitKind::Interrupt => 1,
            HvExitKind::Ecall => 2,
            HvExitKind::PageFault => 3,
            HvExitKind::IllegalInstruction => 4,
            HvExitKind::Unsupported => 5,
            HvExitKind::Fatal => 6,
        }
    }

    /// The exit kind's number, as it is stored.
    pub fn as_u32(self) -> (r: u32)
        ensures
            r == self.as_u32_spec(),
    {
        match self {
            HvExitKind::NoExit => 0,
            HvExitKind::Interrupt => 1,
            HvExitKind::Ecall => 2,
            HvExitKind::PageFault => 3,
            HvExitKind::IllegalInstruction => 4,
            HvExitKind::Unsupported => 5,
            HvExitKind::Fatal => 6,
        }
    }

    /// The exit kind of the number `value` (no exit for an unknown one).
    pub fn from_u32(value: u32) -> (r: Self)
        ensures
            value <= 6 ==> r.as_u32_spec() == value,
            value > 6 ==> r == HvExitKind::NoExit,
    {
        if value == 1 {
            HvExitKind::Interrupt
        } else if value == 2 {
            HvExitKind::Ecall
        } else if value == 3 {
            HvExitKind::PageFault
        } else if value == 4 {
            HvExitKind::IllegalInstruction
        } else if value == 5 {
            HvExitKind::Unsupported
        } else if value == 6 {
            HvExitKind::Fatal
        } else {
            HvExitKind::NoExit
        }
    }

    pub fn as_str(self) -> (r: &'static str)
        ensures
            r@ == match self {
                HvExitKind::NoExit => "none"@,
                HvExitKind::Interrupt => "interrupt"@,
                HvExitKind::Ecall => "ecall"@,
                HvExitKind::PageFault => "page_fault"@,
                HvExitKind::IllegalInstruction => "illegal_instruction"@,
                HvExitKind::Unsupported => "unsupported"@,
                HvExitKind::Fatal => "fatal"@,
            },
    {
        match self {
            HvExitKind::NoExit => "none",
            HvExitKind::Interrupt => "interrupt",
            HvExitKind::Ecall => "ecall",
            HvExitKind::PageFault => "page_fault",
            HvExitKind::IllegalInstruction => "illegal_instruction",
            HvExitKind::Unsupported => "unsupported",
            HvExitKind::Fatal => "fatal",
        }
    }
}

#[derive(Debug, Clone, Copy, PartialEq, Eq, Structural)]
pub enum VmState {
    Empty,
    Created,
    Ready,
    Running,
    Stopped,
    Faulted,
}

impl VmState {
    pub fn as_str(self) -> (r: &'static str)
        ensures
            r@ == match self {
                VmState::Empty => "empty"@,
                VmState::Created => "created"@,
                VmState::Ready => "ready"@,
                VmState::Running => "running"@,
                VmState::Stopped => "stopped"@,
                VmState::Faulted => "faulted"@,
            },
    {
        match self {
            VmState::Empty => "empty",
            VmState::Created => "created",
            VmState::Ready => "ready",
            VmState::Running => "running",
            VmState::Stopped => "stopped",
            VmState::Faulted => "faulted",
        }
    }
}

#[derive(Debug, Clone, Copy, PartialEq, Eq, Structural)]
pub enum HvError {
    Disabled,
    Unsupported,
    NoSpace,
    AlreadyExists,
    NotFound,
    InvalidName,
    ImageTooLarge,
    NotReady,
}

impl HvError {
    pub fn message(self) -> (r: &'static str)
        ensures
            r@ == match self {
                HvError::Disabled => "hypervisor disabled"@,
                HvError::Unsupported => "hypervisor unsupported"@,
                HvError::NoSpace => "no VM slot available"@,
                HvError::AlreadyExists => "VM already exists"@,
                HvError::NotFound => "VM not found"@,
                HvError::InvalidName => "invalid VM name"@,
                HvError::ImageTooLarge => "guest image too large"@,
                HvError::NotReady => "VM not ready"@,
            },
    {
        match self {
            HvError::Disabled => "hypervisor disabled",
            HvError::Unsupported => "hypervisor unsupported",
            HvError::NoSpace => "no VM slot available",
            HvError::AlreadyExists => "VM already exists",
            HvError::NotFound => "VM not found",
            HvError::InvalidName => "invalid VM name",
            HvError::ImageTooLarge => "guest image too large",
            HvError::NotReady => "VM not ready",
        }
    }
}

/// A slot of the VM table.
pub struct VmInfo {
    pub id: u32,
    pub name: Vec<u8>,
    pub state: VmState,
    pub vcpu_count: u8,
    pub guest_base: usize,
    pub guest_size: usize,
    pub host_base: usize,
    pub entry: usize,
}

/// What a VM slot holds.
pub struct VmView {
    pub id: u32,
    pub name: Seq<u8>,
    pub state: VmState,
    pub vcpu_count: u8,
    pub guest_base: usize,
    pub guest_size: usize,
    pub host_base: usize,
    pub entry: usize,
}

impl View for VmInfo {
    type V = VmView;

    open spec fn view(&self) -> VmView {
        VmView {
            id: self.id,
            name: self.name@,
            state: self.state,
            vcpu_count: self.vcpu_count,
            guest_base: self.guest_base,
            guest_size: self.guest_size,
            host_base: self.host_base,
            entry: self.entry,
        }
    }
}

pub open spec fn empty_vm() -> VmView {
    VmView {
        id: 0,
        name: Seq::empty(),
        state: VmState::Empty,
        vcpu_count: 0,
        guest_base: 0,
        guest_size: 0,
        host_base: 0,
        entry: 0,
    }
}

impl VmInfo {
    fn empty() -> (r: Self)
        ensures
            r@ == empty_vm(),
    {
        VmInfo {
            id: 0,
            name: Vec::new(),
            state: VmState::Empty,
            vcpu_count: 0,
            guest_base: 0,
            guest_size: 0,
            host_base: 0,
            entry: 0,
        }
    }

    /// The name as text.
    pub fn name_str(&self) -> (r: &str)
        ensures
            r.spec_bytes() == utf8_text(self.name@),
    {
        utf8_or_empty(self.name.as_slice())
    }

    /// A copy of the slot.
    pub fn copy(&self) -> (r: Self)
        ensures
            r@ == self@,
    {
        let name = copy_prefix(self.name.as_slice(), self.name.len());
        proof {
            assert(name@ =~= self.name@);
        }
        VmInfo {
            id: self.id,
            name,
            state: self.state,
            vcpu_count: self.vcpu_count,
            guest_base: self.guest_base,
            guest_size: self.guest_size,
            host_base: self.host_base,
            entry: self.entry,
        }
    }
}

#[derive(Debug, Clone, Copy)]
pub struct HvStats {
    pub compiled: bool,
    pub enabled: bool,
    pub state: HvState,
    pub h_extension: bool,
    pub vm_count: u32,
    pub vcpu_count: u32,
    pub exits: u32,
    pub last_exit: HvExitKind,
    pub last_cause: usize,
    pub last_stval: usize,
}

/// The hypervisor.
pub struct Hypervisor {
    /// Built with guest support.
    compiled: bool,
    enabled: bool,
    state: HvState,
    h_extension: bool,
    vm_count: u32,
    vcpu_count: u32,
    exits: u32,
    last_exit: HvExitKind,
    last_cause: usize,
    last_stval: usize,
    slots: Vec<VmInfo>,
    next_id: u32,
    guest_mem: Vec<Vec<u8>>,
    host_bases: Vec<usize>,
}

/// The first VM in use from slot `k` on whose name, as text, is `name`.
pub open spec fn vm_named(slots: Seq<VmView>, name: Seq<u8>, k: int) -> Option<int>
    decreases slots.len() - k,
{
    if k >= slots.len() || k < 0 {
        None
    } else if slots[k].state != VmState::Empty && utf8_text(slots[k].name) == name {
        Some(k)
    } else {
        vm_named(slots, name, k + 1)
    }
}

/// The first free slot from `k` on.
pub open spec fn vm_free(slots: Seq<VmView>, k: int) -> Option<int>
    decreases slots.len() - k,
{
    if k >= slots.len() || k < 0 {
        None
    } else if slots[k].state == VmState::Empty {
        Some(k)
    } else {
        vm_free(slots, k + 1)
    }
}

pub proof fn lemma_vm_named(slots: Seq<VmView>, name: Seq<u8>, k: int)
    requires
        0 <= k,
    ensures
        vm_named(slots, name, k) is Some ==> {
            let i = vm_named(slots, name, k).unwrap();
            k <= i < slots.len() && slots[i].state != VmState::Empty && utf8_text(slots[i].name) == name
        },
    decreases slots.len() - k,
{
    if k < slots.len() {
        lemma_vm_named(slots, name, k + 1);
    }
}

pub proof fn lemma_vm_free(slots: Seq<VmView>, k: int)
    requires
        0 <= k,
    ensures
        vm_free(slots, k) is Some ==> {
            let i = vm_free(slots, k).unwrap();
            k <= i < slots.len() && slots[i].state == VmState::Empty
        },
    decreases slots.len() - k,
{
    if k < slots.len() {
        lemma_vm_free(slots, k + 1);
    }
}

pub open spec fn vm_views(s: Seq<VmInfo>) -> Seq<VmView> {
    s.map_values(|v: VmInfo| v@)
}

impl Hypervisor {
    pub closed spec fn spec_slots(self) -> Seq<VmView> {
        vm_views(self.slots@)
    }

    pub closed spec fn spec_state(self) -> HvState {
        self.state
    }

    pub closed spec fn spec_compiled(self) -> bool {
        self.compiled
    }

    pub closed spec fn spec_next_id(self) -> u32 {
        self.next_id
    }

    pub closed spec fn spec_stats(self) -> HvStats {
        HvStats {
            compiled: self.compiled,
            enabled: self.enabled,
            state: self.state,
            h_extension: self.h_extension,
            vm_count: self.vm_count,
            vcpu_count: self.vcpu_count,
            exits: self.exits,
            last_exit: self.last_exit,
            last_cause: self.last_cause,
            last_stval: self.last_stval,
        }
    }

    /// The guest memory of slot `k`.
    pub closed spec fn spec_guest_mem(self, k: int) -> Seq<u8> {
        self.guest_mem@[k]@
    }

    /// The VM table and guest memory are those of `other`.
    pub closed spec fn same_vms(self, other: Self) -> bool {
        &&& self.slots == other.slots
        &&& self.guest_mem == other.guest_mem
        &&& self.host_bases == other.host_bases
        &&& self.next_id == other.next_id
        &&& self.compiled == other.compiled
    }

    /// What two hypervisors with the same VMs share.
    pub proof fn lemma_same_vms(self, other: Self)
        requires
            self.same_vms(other),
        ensures
            self.spec_slots() == other.spec_slots(),
            forall|k: int| #[trigger] self.spec_guest_mem(k) == other.spec_guest_mem(k),
            self.spec_next_id() == other.spec_next_id(),
            self.spec_compiled() == other.spec_compiled(),
    {
    }

    /// A well-formed hypervisor has a slot per VM and hands out ids from
    /// 1 on.
    pub proof fn lemma_wf_ids(self)
        requires
            self.wf(),
        ensures
            self.spec_next_id() >= 1,
            self.spec_slots().len() == MAX_VMS,
    {
    }

    pub closed spec fn wf(self) -> bool {
        &&& self.slots.len() == MAX_VMS
        &&& self.guest_mem.len() == MAX_VMS
        &&& forall|k: int| 0 <= k < MAX_VMS ==> (#[trigger] self.guest_mem@[k]).len() == GUEST_MEM_SIZE
        &&& self.host_bases.len() == MAX_VMS
        &&& self.next_id >= 1
    }

    /// A disabled hypervisor with an empty VM table; `compiled` says whether
    /// it was built with guest support, and `host_bases` gives the host
    /// address of each slot's guest memory.
    pub fn new(compiled: bool, host_bases: Vec<usize>) -> (r: Self)
        requires
            host_bases.len() == MAX_VMS,
        ensures
            r.wf(),
            r.spec_state() == HvState::Disabled,
            r.spec_compiled() == compiled,
            forall|k: int| 0 <= k < MAX_VMS ==> #[trigger] r.spec_slots()[k] == empty_vm(),
    {
        let mut slots: Vec<VmInfo> = Vec::new();
        let mut mem: Vec<Vec<u8>> = Vec::new();
        let mut k: usize = 0;
        while k < MAX_VMS
            invariant
                k <= MAX_VMS,
                slots.len() == k,
                mem.len() == k,
                forall|i: int| 0 <= i < k ==> (#[trigger] slots@[i])@ == empty_vm(),
                forall|i: int| 0 <= i < k ==> (#[trigger] mem@[i]).len() == GUEST_MEM_SIZE,
            decreases MAX_VMS - k,
        {
            slots.push(VmInfo::empty());
            mem.push(vec![0u8; GUEST_MEM_SIZE]);
            k += 1;
        }
        Hypervisor {
            compiled,
            enabled: false,
            state: HvState::Disabled,
            h_extension: false,
            vm_count: 0,
            vcpu_count: 0,
            exits: 0,
            last_exit: HvExitKind::NoExit,
            last_cause: 0,
            last_stval: 0,
            slots,
            next_id: 1,
            guest_mem: mem,
            host_bases,
        }
    }

    /// Set up from the build (`compiled`) and the hardware (`h_extension`):
    /// enabled when both hold; ready, unsupported without the extension,
    /// disabled when not built.
    pub fn init(&mut self, compiled: bool, h_extension: bool)
        requires
            old(self).wf(),
        ensures
            final(self).wf(),
            final(self).spec_stats().enabled == (compiled && h_extension),
            final(self).spec_stats().h_extension == h_extension,
            final(self).spec_state() == if !compiled { HvState::Disabled } else if h_extension { HvState::Ready }
                else { HvState::Unsupported },
            final(self).spec_slots() == old(self).spec_slots(),
    {
        self.enabled = compiled && h_extension;
        self.h_extension = h_extension;
        self.state = if !compiled {
            HvState::Disabled
        } else if h_extension {
            HvState::Ready
        } else {
            HvState::Unsupported
        };
    }

    /// Why a VM cannot be created in state `st` of a hypervisor built with
    /// guest support or not.
    pub open spec fn state_error(st: HvState, compiled: bool) -> Option<HvError> {
        match st {
            HvState::Disabled => Some(HvError::Disabled),
            HvState::Unsupported => if compiled { None } else { Some(HvError::Unsupported) },
            HvState::Compiled => Some(HvError::Unsupported),
            HvState::Faulted => Some(HvError::NotReady),
            HvState::Ready => None,
        }
    }

    /// Why creating a VM named `name` fails, if it does.
    pub open spec fn create_error(self, name: Seq<u8>) -> Option<HvError> {
        if Self::state_error(self.spec_state(), self.spec_compiled()) is Some {
            Self::state_error(self.spec_state(), self.spec_compiled())
        } else if name.len() == 0 || name.len() > VM_NAME_MAX {
            Some(HvError::InvalidName)
        } else if vm_named(self.spec_slots(), name, 0) is Some {
            Some(HvError::AlreadyExists)
        } else if vm_free(self.spec_slots(), 0) is None {
            Some(HvError::NoSpace)
        } else {
            None
        }
    }

    fn find_named(&self, name: &[u8]) -> (r: Option<usize>)
        requires
            self.wf(),
        ensures
            r is Some <==> vm_named(self.spec_slots(), name@, 0) is Some,
            r is Some ==> r.unwrap() == vm_named(self.spec_slots(), name@, 0).unwrap() && r.unwrap() < MAX_VMS,
    {
        proof {
            lemma_vm_named(self.spec_slots(), name@, 0);
        }
        let mut k: usize = 0;
        while k < self.slots.len()
            invariant
                self.wf(),
                k <= self.slots.len(),
                vm_named(self.spec_slots(), name@, 0) == vm_named(self.spec_slots(), name@, k as int),
            decreases self.slots.len() - k,
        {
            let vm = &self.slots[k];
            if vm.state != VmState::Empty {
                let text = utf8_or_empty(vm.name.as_slice());
                if bytes_eq(text.as_bytes(), name) {
                    return Some(k);
                }
            }
            k += 1;
        }
        None
    }

    fn find_free(&self) -> (r: Option<usize>)
        requires
            self.wf(),
        ensures
            r is Some <==> vm_free(self.spec_slots(), 0) is Some,
            r is Some ==> r.unwrap() == vm_free(self.spec_slots(), 0).unwrap() && r.unwrap() < MAX_VMS,
    {
        proof {
            lemma_vm_free(self.spec_slots(), 0);
        }
        let mut k: usize = 0;
        while k < self.slots.len()
            invariant
                self.wf(),
                k <= self.slots.len(),
                vm_free(self.spec_slots(), 0) == vm_free(self.spec_slots(), k as int),
            decreases self.slots.len() - k,
        {
            if self.slots[k].state == VmState::Empty {
                return Some(k);
            }
            k += 1;
        }
        None
    }

    /// Create a VM named `name` in the first free slot, with the next id;
    /// refused when the hypervisor cannot run guests, the name is empty or
    /// longer than [`VM_NAME_MAX`], taken, or no slot is free.
    pub fn create_vm(&mut self, name: &str) -> (r: Result<u32, HvError>)
        requires
            old(self).wf(),
        ensures
            final(self).wf(),
            r is Ok ==> r.unwrap() >= 1,
            match old(self).create_error(name.spec_bytes()) {
                Some(e) => r == Err::<u32, HvError>(e) && *final(self) == *old(self),
                None => {
                    let k = vm_free(old(self).spec_slots(), 0).unwrap();
                    let id = old(self).spec_next_id();
                    &&& r == Ok::<u32, HvError>(id)
                    &&& final(self).spec_slots() == old(self).spec_slots().update(k, VmView {
                        id,
                        name: name.spec_bytes(),
                        state: VmState::Created,
                        vcpu_count: 1,
                        guest_base: 0,
                        guest_size: 0,
                        host_base: 0,
                        entry: 0,
                    })
                    &&& final(self).spec_next_id() == if id == u32::MAX { 1 } else { (id + 1) as u32 }
                    &&& final(self).spec_stats().vm_count == old(self).spec_stats().vm_count.wrapping_add(1)
                    &&& final(self).spec_stats().vcpu_count == old(self).spec_stats().vcpu_count.wrapping_add(1)
                    &&& final(self).spec_state() == old(self).spec_state()
                },
            },
    {
        match self.state {
            HvState::Disabled => return Err(HvError::Disabled),
            HvState::Unsupported => {
                if !self.compiled {
                    return Err(HvError::Unsupported);
                }
            },
            HvState::Compiled => return Err(HvError::Unsupported),
            HvState::Faulted => return Err(HvError::NotReady),
            HvState::Ready => {},
        }
        let b = name.as_bytes();
        if b.len() == 0 || b.len() > VM_NAME_MAX {
            return Err(HvError::InvalidName);
        }
        if self.find_named(b).is_some() {
            return Err(HvError::AlreadyExists);
        }
        let k = match self.find_free() {
            Some(k) => k,
            None => return Err(HvError::NoSpace),
        };
        let id = self.next_id;
        self.next_id = if id == u32::MAX { 1 } else { id + 1 };
        let vm = VmInfo {
            id,
            name: copy_prefix(b, VM_NAME_MAX),
            state: VmState::Created,
            vcpu_count: 1,
            guest_base: 0,
            guest_size: 0,
            host_base: 0,
            entry: 0,
        };
        let ghost before = self.slots@;
        self.slots.set(k, vm);
        proof {
            assert(vm.name@ =~= name.spec_bytes());
            assert(vm_views(self.slots@) =~= vm_views(before).update(k as int, vm@));
        }
        self.vm_count = self.vm_count.wrapping_add(1);
        self.vcpu_count = self.vcpu_count.wrapping_add(1);
        Ok(id)
    }

    /// The VM named `name`.
    pub fn find_vm(&self, name: &str) -> (r: Result<VmInfo, HvError>)
        requires
            self.wf(),
        ensures
            match vm_named(self.spec_slots(), name.spec_bytes(), 0) {
                None => r is Err && r->Err_0 == HvError::NotFound,
                Some(k) => r is Ok && r->Ok_0@ == self.spec_slots()[k],
            },
    {
        match self.find_named(name.as_bytes()) {
            Some(k) => Ok(self.slots[k].copy()),
            None => Err(HvError::NotFound),
        }
    }

    /// Load the built-in demo guest ([`demo_image`]) into the VM named
    /// `name`, as [`Hypervisor::load_image`] does.
    pub fn load_demo(&mut self, name: &str) -> (r: Result<(), HvError>)
        requires
            old(self).wf(),
        ensures
            final(self).wf(),
            match vm_named(old(self).spec_slots(), name.spec_bytes(), 0) {
                None => r == Err::<(), HvError>(HvError::NotFound) && *final(self) == *old(self),
                Some(k) => if old(self).spec_slots()[k].state == VmState::Running {
                    r == Err::<(), HvError>(HvError::NotReady) && *final(self) == *old(self)
                } else {
                    let vm = old(self).spec_slots()[k];
                    &&& r is Ok
                    &&& final(self).spec_slots()[k].state == VmState::Ready
                    &&& final(self).spec_slots()[k].entry == DEMO_GUEST_ENTRY
                    &&& final(self).spec_slots()[k].guest_base == DEMO_GUEST_BASE
                    &&& final(self).spec_slots()[k].guest_size == GUEST_MEM_SIZE
                    &&& final(self).spec_slots()[k].id == vm.id
                    &&& final(self).spec_slots()[k].name == vm.name
                    &&& forall|j: int| 0 <= j < MAX_VMS && j != k ==> #[trigger] final(self).spec_slots()[j] == old(self).spec_slots()[j]
                    &&& old(self).spec_compiled() ==> final(self).spec_guest_mem(k).subrange(0, 12) == demo_image()
                },
            },
    {
        let image: [u8; 12] = [0x93u8, 0x08u8, 0x10u8, 0x00u8, 0x13u8, 0x05u8, 0x80u8, 0x04u8, 0x73u8, 0x00u8, 0x00u8, 0x00u8];
        proof {
            assert(image@ =~= demo_image());
        }
        self.load_image(name, GuestImage { entry: DEMO_GUEST_ENTRY, bytes: image.as_slice() })
    }

    /// Load `image` into the guest memory of the VM named `name` and make
    /// it ready; refused for an image over [`GUEST_MEM_SIZE`] bytes, an
    /// unknown VM, or a running one.
    pub fn load_image(&mut self, name: &str, image: GuestImage) -> (r: Result<(), HvError>)
        requires
            old(self).wf(),
        ensures
            final(self).wf(),
            image.bytes@.len() > GUEST_MEM_SIZE ==> r == Err::<(), HvError>(HvError::ImageTooLarge) && *final(self) == *old(self),
            image.bytes@.len() <= GUEST_MEM_SIZE ==> match vm_named(old(self).spec_slots(), name.spec_bytes(), 0) {
                None => r == Err::<(), HvError>(HvError::NotFound) && *final(self) == *old(self),
                Some(k) => if old(self).spec_slots()[k].state == VmState::Running {
                    r == Err::<(), HvError>(HvError::NotReady) && *final(self) == *old(self)
                } else {
                    let vm = old(self).spec_slots()[k];
                    &&& r is Ok
                    &&& final(self).spec_slots()[k].state == VmState::Ready
                    &&& final(self).spec_slots()[k].entry == image.entry
                    &&& final(self).spec_slots()[k].guest_base == DEMO_GUEST_BASE
                    &&& final(self).spec_slots()[k].guest_size == GUEST_MEM_SIZE
                    &&& final(self).spec_slots()[k].id == vm.id
                    &&& final(self).spec_slots()[k].name == vm.name
                    &&& forall|j: int| 0 <= j < MAX_VMS && j != k ==> #[trigger] final(self).spec_slots()[j] == old(self).spec_slots()[j]
                    &&& old(self).spec_compiled() ==> final(self).spec_guest_mem(k).subrange(0, image.bytes@.len() as int) == image.bytes@
                },
            },
    {
        if image.bytes.len() > GUEST_MEM_SIZE {
            return Err(HvError::ImageTooLarge);
        }
        let k = match self.find_named(name.as_bytes()) {
            Some(k) => k,
            None => return Err(HvError::NotFound),
        };
        if self.slots[k].state == VmState::Running {
            return Err(HvError::NotReady);
        }
        let host_base = self.load_guest_memory(k, image.bytes);
        let ghost before = self.slots@;
        let mut vm = self.slots[k].copy();
        vm.guest_base = DEMO_GUEST_BASE;
        vm.guest_size = GUEST_MEM_SIZE;
        vm.host_base = host_base;
        vm.entry = image.entry;
        vm.state = VmState::Ready;
        self.slots.set(k, vm);
        proof {
            assert(vm_views(self.slots@) =~= vm_views(before).update(k as int, vm@));
        }
        Ok(())
    }

    /// With guest support, zero the guest memory of slot `k` and copy
    /// `bytes` to its start; the host address of that memory (0 without
    /// guest support).
    fn load_guest_memory(&mut self, k: usize, bytes: &[u8]) -> (r: usize)
        requires
            old(self).wf(),
            k < MAX_VMS,
            bytes@.len() <= GUEST_MEM_SIZE,
        ensures
            final(self).wf(),
            final(self).slots == old(self).slots,
            final(self).next_id == old(self).next_id,
            final(self).state == old(self).state,
            final(self).compiled == old(self).compiled,
            final(self).spec_stats() == old(self).spec_stats(),
            old(self).compiled ==> final(self).spec_guest_mem(k as int).subrange(0, bytes@.len() as int) == bytes@,
    {
        if !self.compiled {
            return 0;
        }
        let mut mem: Vec<u8> = vec![0u8; GUEST_MEM_SIZE];
        let mut i: usize = 0;
        while i < bytes.len()
            invariant
                bytes@.len() <= GUEST_MEM_SIZE,
                mem.len() == GUEST_MEM_SIZE,
                i <= bytes.len(),
                forall|j: int| 0 <= j < i ==> mem@[j] == bytes@[j],
            decreases bytes.len() - i,
        {
            mem.set(i, bytes[i]);
            i += 1;
        }
        proof {
            assert(mem@.subrange(0, bytes@.len() as int) =~= bytes@);
        }
        let ghost pre = self.guest_mem@;
        self.guest_mem.set(k, mem);
        proof {
            assert forall|j: int| 0 <= j < MAX_VMS implies (#[trigger] self.guest_mem@[j]).len() == GUEST_MEM_SIZE by {
                if j != k {
                    assert(self.guest_mem@[j] == pre[j]);
                }
            }
        }
        self.host_bases[k]
    }

    /// The VMs in use, in slot order, and how many there are.
    pub fn list_vms(&self) -> (r: (Vec<Option<VmInfo>>, usize))
        requires
            self.wf(),
        ensures
            r.0.len() == MAX_VMS,
            r.1 == in_use(self.spec_slots()).len(),
            forall|i: int| 0 <= i < MAX_VMS ==> (#[trigger] r.0@[i] is Some) == (i < in_use(self.spec_slots()).len()),
            forall|i: int| 0 <= i < in_use(self.spec_slots()).len() ==> (#[trigger] r.0@[i]).unwrap()@
                == in_use(self.spec_slots())[i],
    {
        let mut res: Vec<Option<VmInfo>> = Vec::new();
        let ghost mut live: Seq<VmView> = Seq::empty();
        let mut k: usize = 0;
        while k < self.slots.len()
            invariant
                self.wf(),
                k <= self.slots.len(),
                live == in_use(self.spec_slots().subrange(0, k as int)),
                res.len() == live.len(),
                live.len() <= k,
                forall|j: int| 0 <= j < res.len() ==> (#[trigger] res@[j]) is Some && res@[j].unwrap()@ == live[j],
            decreases self.slots.len() - k,
        {
            proof {
                assert(self.spec_slots().subrange(0, k + 1).drop_last() =~= self.spec_slots().subrange(0, k as int));
            }
            if self.slots[k].state != VmState::Empty {
                let c = self.slots[k].copy();
                res.push(Some(c));
                proof {
                    live = live + seq![c@];
                }
            }
            k += 1;
        }
        proof {
            assert(self.spec_slots().subrange(0, self.spec_slots().len() as int) =~= self.spec_slots());
        }
        let count = res.len();
        while res.len() < MAX_VMS
            invariant
                count <= res.len() <= MAX_VMS,
                count == live.len(),
                live == in_use(self.spec_slots()),
                forall|j: int| 0 <= j < count ==> (#[trigger] res@[j]) is Some && res@[j].unwrap()@ == live[j],
                forall|j: int| count <= j < res.len() ==> (#[trigger] res@[j]) is None,
            decreases MAX_VMS - res.len(),
        {
            res.push(None);
        }
        (res, count)
    }

    /// Mark the VM named `name` faulted, and the hypervisor with it.
    pub fn mark_vm_faulted(&mut self, name: &str, cause: usize, stval: usize) -> (r: Result<(), HvError>)
        requires
            old(self).wf(),
        ensures
            final(self).wf(),
            match vm_named(old(self).spec_slots(), name.spec_bytes(), 0) {
                None => r == Err::<(), HvError>(HvError::NotFound) && *final(self) == *old(self),
                Some(k) => {
                    &&& r is Ok
                    &&& final(self).spec_slots() == old(self).spec_slots().update(k, VmView {
                        state: VmState::Faulted,
                        ..old(self).spec_slots()[k]
                    })
                    &&& final(self).spec_state() == HvState::Faulted
                    &&& final(self).spec_stats().exits == old(self).spec_stats().exits.wrapping_add(1)
                    &&& final(self).spec_stats().last_exit == HvExitKind::Fatal
                    &&& final(self).spec_stats().last_cause == cause
                    &&& final(self).spec_stats().last_stval == stval
                },
            },
    {
        let k = match self.find_named(name.as_bytes()) {
            Some(k) => k,
            None => return Err(HvError::NotFound),
        };
        let ghost before = self.slots@;
        let mut vm = self.slots[k].copy();
        vm.state = VmState::Faulted;
        self.slots.set(k, vm);
        proof {
            assert(vm_views(self.slots@) =~= vm_views(before).update(k as int, vm@));
        }
        self.set_faulted(cause, stval);
        Ok(())
    }

    /// Count a guest exit and remember its kind, cause and trap value.
    pub fn record_exit(&mut self, kind: HvExitKind, cause: usize, stval: usize)
        ensures
            final(self).spec_stats() == (HvStats {
                exits: old(self).spec_stats().exits.wrapping_add(1),
                last_exit: kind,
                last_cause: cause,
                last_stval: stval,
                ..old(self).spec_stats()
            }),
            final(self).same_vms(*old(self)),
    {
        self.exits = self.exits.wrapping_add(1);
        self.last_exit = kind;
        self.last_cause = cause;
        self.last_stval = stval;
    }

    /// The hypervisor faulted: record a fatal exit.
    pub fn set_faulted(&mut self, cause: usize, stval: usize)
        ensures
            final(self).spec_stats() == (HvStats {
                state: HvState::Faulted,
                exits: old(self).spec_stats().exits.wrapping_add(1),
                last_exit: HvExitKind::Fatal,
                last_cause: cause,
                last_stval: stval,
                ..old(self).spec_stats()
            }),
            final(self).same_vms(*old(self)),
    {
        self.state = HvState::Faulted;
        self.record_exit(HvExitKind::Fatal, cause, stval);
    }

    pub fn stats(&self) -> (r: HvStats)
        ensures
            r == self.spec_stats(),
    {
        HvStats {
            compiled: self.compiled,
            enabled: self.enabled,
            state: self.state,
            h_extension: self.h_extension,
            vm_count: self.vm_count,
            vcpu_count: self.vcpu_count,
            exits: self.exits,
            last_exit: self.last_exit,
            last_cause: self.last_cause,
            last_stval: self.last_stval,
        }
    }
}

/// The slots in use, in order.
pub open spec fn in_use(s: Seq<VmView>) -> Seq<VmView>
    decreases s.len(),
{
    if s.len() == 0 {
        Seq::empty()
    } else {
        in_use(s.drop_last()) + if s.last().state != VmState::Empty { seq![s.last()] } else { Seq::empty() }
    }
}

/// A VM just created is found under its name, with the id it was given.
pub proof fn lemma_create_then_find(before: Hypervisor, after: Hypervisor, name: Seq<u8>, id: u32)
    requires
        before.wf(),
        before.create_error(name) is None,
        after.spec_slots() == before.spec_slots().update(vm_free(before.spec_slots(), 0).unwrap(), VmView {
            id,
            name,
            state: VmState::Created,
            vcpu_count: 1,
            guest_base: 0,
            guest_size: 0,
            host_base: 0,
            entry: 0,
        }),
        vstd::utf8::valid_utf8(name),
    ensures
        vm_named(after.spec_slots(), name, 0) is Some,
        after.spec_slots()[vm_named(after.spec_slots(), name, 0).unwrap()].id == id,
{
    let k = vm_free(before.spec_slots(), 0).unwrap();
    lemma_vm_free(before.spec_slots(), 0);
    assert(utf8_text(name) == name);
    lemma_find_created(before.spec_slots(), after.spec_slots(), name, k, 0);
}

proof fn lemma_find_created(s: Seq<VmView>, t: Seq<VmView>, name: Seq<u8>, k: int, j: int)
    requires
        0 <= j <= k < s.len(),
        t.len() == s.len(),
        t[k].state == VmState::Created,
        utf8_text(t[k].name) == name,
        forall|i: int| 0 <= i < s.len() && i != k ==> #[trigger] t[i] == s[i],
        vm_named(s, name, j) is None,
    ensures
        vm_named(t, name, j) == Some(k),
    decreases k - j,
{
    if j < k {
        lemma_find_created(s, t, name, k, j + 1);
    }
}

} // verus!
