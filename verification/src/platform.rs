//! What the platform tells the kernel: its configuration, its SMP status,
//! its timer hook and the address of its device tree.

use vstd::prelude::*;

verus! {

#[derive(Debug, Clone, Copy, PartialEq, Eq, Structural)]
pub struct SmpStatus {
    pub enabled: bool,
    pub possible_cpus: usize,
    pub online_cpus: usize,
    pub active_cpus: usize,
    pub parked_cpus: usize,
    pub boot_cpu: u32,
    pub current_cpu: u32,
    pub online_mask: usize,
    pub active_mask: usize,
    pub parked_mask: usize,
    pub start_attempts: usize,
    pub start_failures: usize,
}

pub open spec fn single_cpu_status() -> SmpStatus {
    SmpStatus {
        enabled: false,
        possible_cpus: 1,
        online_cpus: 1,
        active_cpus: 1,
        parked_cpus: 0,
        boot_cpu: 0,
        current_cpu: 0,
        online_mask: 1,
        active_mask: 1,
        parked_mask: 0,
        start_attempts: 0,
        start_failures: 0,
    }
}

impl SmpStatus {
    /// A single CPU, online and active.
    pub fn single_cpu() -> (r: Self)
        ensures
            r == single_cpu_status(),
    {
        SmpStatus {
            enabled: false,
            possible_cpus: 1,
            online_cpus: 1,
            active_cpus: 1,
            parked_cpus: 0,
            boot_cpu: 0,
            current_cpu: 0,
            online_mask: 1,
            active_mask: 1,
            parked_mask: 0,
            start_attempts: 0,
            start_failures: 0,
        }
    }
}

#[derive(Debug, Clone, Copy, PartialEq, Eq, Structural)]
pub struct PlatformConfig {
    pub cpu_freq_hz: u32,
    pub systick_hz: u32,
    pub external_irq_count: usize,
    pub memory_base: usize,
    pub memory_size: usize,
    pub kernel_end: usize,
}

/// A board support package.
pub trait Platform {
    fn config() -> PlatformConfig;

    fn early_init();

    fn smp_status() -> SmpStatus {
        SmpStatus::single_cpu()
    }

    fn init_console() {
    }

    fn register_driver_factories() {
    }

    fn init_irqs() {
    }

    fn init_memory() {
    }

    fn init_timer() {
    }
}

/// The source of the SMP status, when the platform sets one.
pub trait SmpStatusProvider {
    /// The status that the provider reports, for one that states it;
    /// `None` for one that does not.
    open spec fn spec_status(&self) -> Option<SmpStatus> {
        None
    }

    fn status(&self) -> (r: SmpStatus)
        ensures
            self.spec_status() matches Some(x) ==> r == x,
    ;
}

/// The timer hook, when the platform sets one.
pub trait TimerHook {
    /// How many times the hook has fired, for a hook that counts; `None`
    /// for one that does not.
    open spec fn spec_fired(&self) -> Option<nat> {
        None
    }

    /// Arm the next tick; a counting hook counts the call.
    fn fire(&mut self)
        ensures
            old(self).spec_fired() matches Some(n) ==> final(self).spec_fired() == Some(n + 1),
            old(self).spec_fired() is None ==> final(self).spec_fired() is None,
    ;
}

/// What the platform has set: each item is set once, the first setting
/// stays.
pub struct PlatformState {
    pub config: Option<PlatformConfig>,
    pub has_smp_provider: bool,
    pub has_timer_hook: bool,
    pub dtb_addr: usize,
}

impl PlatformState {
    pub fn new() -> (r: Self)
        ensures
            r.config is None,
            !r.has_smp_provider,
            !r.has_timer_hook,
            r.dtb_addr == 0,
    {
        PlatformState { config: None, has_smp_provider: false, has_timer_hook: false, dtb_addr: 0 }
    }
}

/// Set the configuration, unless it is set already.
pub fn set_config(st: &mut PlatformState, cfg: PlatformConfig)
    ensures
        final(st).config == if old(st).config is Some { old(st).config } else { Some(cfg) },
        final(st).has_smp_provider == old(st).has_smp_provider,
        final(st).has_timer_hook == old(st).has_timer_hook,
        final(st).dtb_addr == old(st).dtb_addr,
{
    if st.config.is_none() {
        st.config = Some(cfg);
    }
}

/// The configuration (which must be set).
pub fn get_config(st: &PlatformState) -> (r: PlatformConfig)
    requires
        st.config is Some,
    ensures
        r == st.config.unwrap(),
{
    st.config.unwrap()
}

/// Record that the SMP status provider is set.
pub fn set_smp_status_provider(st: &mut PlatformState)
    ensures
        final(st).has_smp_provider,
        final(st).config == old(st).config,
        final(st).has_timer_hook == old(st).has_timer_hook,
        final(st).dtb_addr == old(st).dtb_addr,
{
    st.has_smp_provider = true;
}

/// The SMP status: the provider's, or a single CPU without one.
pub fn smp_status<P: SmpStatusProvider>(st: &PlatformState, provider: &P) -> (r: SmpStatus)
    ensures
        !st.has_smp_provider ==> r == single_cpu_status(),
        st.has_smp_provider ==> (provider.spec_status() matches Some(x) ==> r == x),
{
    if st.has_smp_provider {
        provider.status()
    } else {
        SmpStatus::single_cpu()
    }
}

/// Record that the timer hook is set.
pub fn set_next_timer_tick(st: &mut PlatformState)
    ensures
        final(st).has_timer_hook,
        final(st).config == old(st).config,
        final(st).has_smp_provider == old(st).has_smp_provider,
        final(st).dtb_addr == old(st).dtb_addr,
{
    st.has_timer_hook = true;
}

/// Arm the next timer tick through the hook, when one is set; whether it
/// was called.
pub fn schedule_next_timer_tick<H: TimerHook>(st: &PlatformState, hook: &mut H) -> (r: bool)
    ensures
        r == st.has_timer_hook,
        !r ==> *final(hook) == *old(hook),
        r ==> (old(hook).spec_fired() matches Some(n) ==> final(hook).spec_fired() == Some(n + 1)),
{
    if st.has_timer_hook {
        hook.fire();
        true
    } else {
        false
    }
}

pub fn set_dtb_addr(st: &mut PlatformState, addr: usize)
    ensures
        final(st).dtb_addr == addr,
        final(st).config == old(st).config,
        final(st).has_smp_provider == old(st).has_smp_provider,
        final(st).has_timer_hook == old(st).has_timer_hook,
{
    st.dtb_addr = addr;
}

pub fn dtb_addr(st: &PlatformState) -> (r: usize)
    ensures
        r == st.dtb_addr,
{
    st.dtb_addr
}

} // verus!
