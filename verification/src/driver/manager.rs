//! The driver registry: the registered drivers (each named by a handle),
//! their class buckets, the interrupt fast path, the driver factories and
//! the counters of registration, probing and interrupt dispatch.

use vstd::prelude::*;
use vstd::string::StringSliceAdditionalSpecFns;
use crate::driver::{DeviceClass, DeviceResource, DriverErr, DriverResult};
use crate::fdt::{FdtNodeView, fdt_nodes, node_views, nul_items, reg_spec, walk_nodes};
use crate::slots::{count_filled, count_some, empty_slots, lemma_count_some_bound, find_none, first_none, lemma_count_some_fill, lemma_first_none, put_free,
    put_first_free, clear_holding, clear_first};
use crate::text::bytes_eq;

verus! {

pub const MAX_DRIVERS: usize = 32;
pub const MAX_FACTORIES: usize = 16;
pub const DRIVER_SNAPSHOT_CAP: usize = MAX_DRIVERS;
pub const MAX_EXTERNAL_IRQS: usize = 64;
/// The number of device classes, one bucket each.
pub const CLASS_COUNT: usize = 7;

/// What tells two driver instances apart: their class name and resource.
#[derive(Debug, Clone, Copy)]
pub struct DriverIdentity {
    pub class: &'static str,
    pub base_addr: usize,
    pub irq: u32,
}

impl DriverIdentity {
    pub fn new(class: &'static str, resource: DeviceResource) -> (r: Self)
        ensures
            r.class == class,
            r.base_addr == resource.base_addr,
            r.irq == resource.irq,
    {
        DriverIdentity { class, base_addr: resource.base_addr, irq: resource.irq }
    }
}

/// The same identity.
pub open spec fn same_identity(a: DriverIdentity, b: DriverIdentity) -> bool {
    a.class.spec_bytes() == b.class.spec_bytes() && a.base_addr == b.base_addr && a.irq == b.irq
}

fn identity_eq(a: &DriverIdentity, b: &DriverIdentity) -> (r: bool)
    ensures
        r == same_identity(*a, *b),
{
    bytes_eq(a.class.as_bytes(), b.class.as_bytes()) && a.base_addr == b.base_addr && a.irq == b.irq
}

/// A registered driver: the handle that names the instance, its name, its
/// identity and its classes.
#[derive(Debug, Clone, Copy)]
pub struct DriverRecord {
    pub handle: usize,
    pub name: &'static str,
    pub identity: DriverIdentity,
    pub class: DeviceClass,
}

#[derive(Debug, Clone, Copy)]
pub struct DriverRegistryStats {
    pub registered_drivers: usize,
    pub registered_factories: usize,
    pub registered_block_devices: usize,
    pub registered_char_devices: usize,
    pub registered_terminal_devices: usize,
    pub registered_gpio_controllers: usize,
    pub registered_framebuffer_devices: usize,
    pub registered_net_devices: usize,
    pub registered_rng_devices: usize,
    pub probe_matches: u32,
    pub probe_successes: u32,
    pub probe_failures: u32,
    pub irq_dispatches: u32,
    pub irq_driver_hits: u32,
    pub irq_driver_misses: u32,
    pub irq_fast_slots: usize,
    pub irq_fast_hits: u32,
    pub irq_fast_fallbacks: u32,
    pub irq_fast_conflicts: u32,
}

/// A valid driver name: non-empty, of lower-case letters, digits and `_`.
pub open spec fn valid_name(name: Seq<u8>) -> bool {
    name.len() > 0 && forall|i: int| 0 <= i < name.len() ==> #[trigger] name_byte_ok(name[i])
}

pub open spec fn name_byte_ok(b: u8) -> bool {
    (97 <= b <= 122) || (48 <= b <= 57) || b == 95
}

/// Whether `name` is a valid driver name.
pub fn is_valid_driver_name(name: &[u8]) -> (r: bool)
    ensures
        r == valid_name(name@),
{
    if name.len() == 0 {
        return false;
    }
    let mut i: usize = 0;
    while i < name.len()
        invariant
            i <= name.len(),
            forall|k: int| 0 <= k < i ==> #[trigger] name_byte_ok(name@[k]),
        decreases name.len() - i,
    {
        let b = name[i];
        if !((97u8 <= b && b <= 122u8) || (48u8 <= b && b <= 57u8) || b == 95u8) {
            proof {
                assert(!name_byte_ok(name@[i as int]));
            }
            return false;
        }
        i += 1;
    }
    true
}

/// The class bit of bucket `b`.
pub open spec fn bucket_bit(b: int) -> u8 {
    if b == 0 { 1 } else if b == 1 { 2 } else if b == 2 { 4 } else if b == 3 { 8 } else if b == 4 { 16 }
    else if b == 5 { 32 } else { 64 }
}

fn bucket_bit_exec(b: usize) -> (r: u8)
    requires
        b < CLASS_COUNT,
    ensures
        r == bucket_bit(b as int),
{
    if b == 0 { 1 } else if b == 1 { 2 } else if b == 2 { 4 } else if b == 3 { 8 } else if b == 4 { 16 }
    else if b == 5 { 32 } else { 64 }
}

/// A driver of class `class` goes into bucket `b`.
pub open spec fn needs_bucket(class: DeviceClass, b: int) -> bool {
    class.0 & bucket_bit(b) != 0
}

/// How many drivers of `ds` belong to class bucket `b`.
pub open spec fn count_class(ds: Seq<Option<DriverRecord>>, b: int) -> nat
    decreases ds.len(),
{
    if ds.len() == 0 {
        0
    } else {
        count_class(ds.drop_last(), b) + if ds.last() is Some && needs_bucket(ds.last().unwrap().class, b) {
            1nat
        } else {
            0nat
        }
    }
}

proof fn lemma_count_class_bound(ds: Seq<Option<DriverRecord>>, b: int)
    ensures
        count_class(ds, b) <= ds.len(),
    decreases ds.len(),
{
    if ds.len() > 0 {
        lemma_count_class_bound(ds.drop_last(), b);
    }
}

/// Putting `x` into slot `j` changes the count of class `b` by what leaves
/// and what comes in.
proof fn lemma_count_class_update(ds: Seq<Option<DriverRecord>>, j: int, x: Option<DriverRecord>, b: int)
    requires
        0 <= j < ds.len(),
    ensures
        count_class(ds.update(j, x), b) + (if ds[j] is Some && needs_bucket(ds[j].unwrap().class, b) { 1int } else { 0int })
            == count_class(ds, b) + (if x is Some && needs_bucket(x.unwrap().class, b) { 1int } else { 0int }),
    decreases ds.len(),
{
    let t = ds.update(j, x);
    if j == ds.len() - 1 {
        assert(t.drop_last() =~= ds.drop_last());
    } else {
        assert(t.drop_last() =~= ds.drop_last().update(j, x));
        lemma_count_class_update(ds.drop_last(), j, x, b);
    }
}

/// Putting `x` into slot `j` changes the count of filled slots by what
/// leaves and what comes in.
proof fn lemma_count_some_update(ds: Seq<Option<DriverRecord>>, j: int, x: Option<DriverRecord>)
    requires
        0 <= j < ds.len(),
    ensures
        count_some(ds.update(j, x)) + (if ds[j] is Some { 1int } else { 0int }) == count_some(ds) + (if x is Some { 1int } else { 0int }),
    decreases ds.len(),
{
    let t = ds.update(j, x);
    if j == ds.len() - 1 {
        assert(t.drop_last() =~= ds.drop_last());
    } else {
        assert(t.drop_last() =~= ds.drop_last().update(j, x));
        lemma_count_some_update(ds.drop_last(), j, x);
    }
}

pub open spec fn rec_handle(o: Option<DriverRecord>) -> Option<usize> {
    match o {
        Some(r) => Some(r.handle),
        None => None,
    }
}

/// The first registered driver from slot `k` on with identity `id`.
pub open spec fn first_with_identity(ds: Seq<Option<DriverRecord>>, id: DriverIdentity, k: int) -> Option<int>
    decreases ds.len() - k,
{
    if k >= ds.len() || k < 0 {
        None
    } else if ds[k] is Some && same_identity(ds[k].unwrap().identity, id) {
        Some(k)
    } else {
        first_with_identity(ds, id, k + 1)
    }
}

/// The first registered driver from slot `k` on named `name`.
pub open spec fn first_named(ds: Seq<Option<DriverRecord>>, name: Seq<u8>, k: int) -> Option<int>
    decreases ds.len() - k,
{
    if k >= ds.len() || k < 0 {
        None
    } else if ds[k] is Some && ds[k].unwrap().name.spec_bytes() == name {
        Some(k)
    } else {
        first_named(ds, name, k + 1)
    }
}

pub proof fn lemma_first_with_identity(ds: Seq<Option<DriverRecord>>, id: DriverIdentity, k: int)
    requires
        0 <= k,
    ensures
        first_with_identity(ds, id, k) is Some ==> {
            let i = first_with_identity(ds, id, k).unwrap();
            k <= i < ds.len() && ds[i] is Some && same_identity(ds[i].unwrap().identity, id)
        },
    decreases ds.len() - k,
{
    if k < ds.len() {
        lemma_first_with_identity(ds, id, k + 1);
    }
}

/// A driver just registered is the one found under its identity, and
/// removing it from its slot gives back the driver table as it was.
pub proof fn lemma_register_then_find(ds: Seq<Option<DriverRecord>>, rec: DriverRecord)
    requires
        first_with_identity(ds, rec.identity, 0) is None,
        first_none(ds, 0) is Some,
    ensures
        ({
            let k = first_none(ds, 0).unwrap();
            let after = ds.update(k, Some(rec));
            &&& first_with_identity(after, rec.identity, 0) == Some(k)
            &&& after.update(k, None) == ds
        }),
{
    let k = first_none(ds, 0).unwrap();
    let after = ds.update(k, Some(rec));
    lemma_first_none(ds, 0);
    lemma_no_identity(ds, rec.identity, 0);
    lemma_identity_reaches(after, rec.identity, 0, k);
    assert(after.update(k, None) =~= ds);
}

proof fn lemma_no_identity(ds: Seq<Option<DriverRecord>>, id: DriverIdentity, k: int)
    requires
        0 <= k,
        first_with_identity(ds, id, k) is None,
    ensures
        forall|i: int| k <= i < ds.len() ==> !((#[trigger] ds[i]) is Some && same_identity(ds[i].unwrap().identity, id)),
    decreases ds.len() - k,
{
    if k < ds.len() {
        lemma_no_identity(ds, id, k + 1);
    }
}

proof fn lemma_identity_reaches(ds: Seq<Option<DriverRecord>>, id: DriverIdentity, j: int, k: int)
    requires
        0 <= j <= k < ds.len(),
        ds[k] is Some && same_identity(ds[k].unwrap().identity, id),
        forall|i: int| 0 <= i < k ==> !((#[trigger] ds[i]) is Some && same_identity(ds[i].unwrap().identity, id)),
    ensures
        first_with_identity(ds, id, j) == Some(k),
    decreases k - j,
{
    if j < k {
        lemma_identity_reaches(ds, id, j + 1, k);
    }
}

pub proof fn lemma_first_named(ds: Seq<Option<DriverRecord>>, name: Seq<u8>, k: int)
    requires
        0 <= k,
    ensures
        first_named(ds, name, k) is Some ==> {
            let i = first_named(ds, name, k).unwrap();
            k <= i < ds.len() && ds[i] is Some && ds[i].unwrap().name.spec_bytes() == name
        },
    decreases ds.len() - k,
{
    if k < ds.len() {
        lemma_first_named(ds, name, k + 1);
    }
}

/// Registering a driver whose name no registered driver has, then
/// unregistering by that name, gives back the table as it was: the new
/// driver is the first of that name.
pub proof fn lemma_register_then_unregister(ds: Seq<Option<DriverRecord>>, rec: DriverRecord)
    requires
        first_named(ds, rec.name.spec_bytes(), 0) is None,
        first_none(ds, 0) is Some,
    ensures
        ({
            let k = first_none(ds, 0).unwrap();
            let after = ds.update(k, Some(rec));
            &&& first_named(after, rec.name.spec_bytes(), 0) == Some(k)
            &&& after.update(k, None) == ds
        }),
{
    let k = first_none(ds, 0).unwrap();
    let after = ds.update(k, Some(rec));
    lemma_first_none(ds, 0);
    lemma_named_reaches(ds, after, rec.name.spec_bytes(), 0, k);
    assert(after.update(k, None) =~= ds);
}

proof fn lemma_named_reaches(ds: Seq<Option<DriverRecord>>, after: Seq<Option<DriverRecord>>, name: Seq<u8>, j: int, k: int)
    requires
        0 <= j <= k < ds.len(),
        after.len() == ds.len(),
        forall|i: int| 0 <= i < ds.len() && i != k ==> #[trigger] after[i] == ds[i],
        after[k] is Some && after[k].unwrap().name.spec_bytes() == name,
        first_named(ds, name, j) is None,
    ensures
        first_named(after, name, j) == Some(k),
    decreases k - j,
{
    if j < k {
        assert(after[j] == ds[j]);
        lemma_named_reaches(ds, after, name, j + 1, k);
    }
}

/// The registry.
pub struct DriverManager {
    drivers: Vec<Option<DriverRecord>>,
    buckets: Vec<Vec<Option<usize>>>,
    factories: Vec<Option<usize>>,
    irq_drivers: Vec<Option<usize>>,
    class_counts: Vec<u32>,
    registered_drivers: u32,
    registered_factories: u32,
    probe_matches: u32,
    probe_successes: u32,
    probe_failures: u32,
    irq_dispatches: u32,
    irq_driver_hits: u32,
    irq_driver_misses: u32,
    irq_fast_hits: u32,
    irq_fast_fallbacks: u32,
    irq_fast_conflicts: u32,
}

/// The counters of the registry.
pub struct RegistryCounters {
    pub registered_drivers: u32,
    pub class_counts: Seq<u32>,
    pub probe_matches: u32,
    pub probe_successes: u32,
    pub probe_failures: u32,
    pub irq_dispatches: u32,
    pub irq_driver_hits: u32,
    pub irq_driver_misses: u32,
    pub irq_fast_hits: u32,
    pub irq_fast_fallbacks: u32,
    pub irq_fast_conflicts: u32,
}

impl DriverManager {
    pub closed spec fn spec_drivers(self) -> Seq<Option<DriverRecord>> {
        self.drivers@
    }

    pub closed spec fn spec_bucket(self, b: int) -> Seq<Option<usize>> {
        self.buckets@[b]@
    }

    pub closed spec fn spec_factories(self) -> Seq<Option<usize>> {
        self.factories@
    }

    pub closed spec fn spec_irq_drivers(self) -> Seq<Option<usize>> {
        self.irq_drivers@
    }

    pub closed spec fn counters(self) -> RegistryCounters {
        RegistryCounters {
            registered_drivers: self.registered_drivers,
            class_counts: self.class_counts@,
            probe_matches: self.probe_matches,
            probe_successes: self.probe_successes,
            probe_failures: self.probe_failures,
            irq_dispatches: self.irq_dispatches,
            irq_driver_hits: self.irq_driver_hits,
            irq_driver_misses: self.irq_driver_misses,
            irq_fast_hits: self.irq_fast_hits,
            irq_fast_fallbacks: self.irq_fast_fallbacks,
            irq_fast_conflicts: self.irq_fast_conflicts,
        }
    }

    pub closed spec fn spec_registered_factories(self) -> u32 {
        self.registered_factories
    }

    pub closed spec fn wf(self) -> bool {
        &&& self.drivers.len() == MAX_DRIVERS
        &&& self.buckets.len() == CLASS_COUNT
        &&& forall|b: int| 0 <= b < CLASS_COUNT ==> (#[trigger] self.buckets@[b]).len() == MAX_DRIVERS
        &&& self.factories.len() == MAX_FACTORIES
        &&& self.irq_drivers.len() == MAX_EXTERNAL_IRQS
        &&& self.class_counts.len() == CLASS_COUNT
    }

    /// The driver slots, buckets, factories and fast path are those of
    /// `other`.
    pub closed spec fn same_tables(self, other: Self) -> bool {
        &&& self.drivers@ == other.drivers@
        &&& self.buckets@ == other.buckets@
        &&& self.factories@ == other.factories@
        &&& self.irq_drivers@ == other.irq_drivers@
    }

    /// What two registries with the same tables share.
    pub proof fn lemma_same_tables(self, other: Self)
        requires
            self.same_tables(other),
        ensures
            self.spec_drivers() == other.spec_drivers(),
            forall|b: int| #[trigger] self.spec_bucket(b) == other.spec_bucket(b),
            self.spec_factories() == other.spec_factories(),
            self.spec_irq_drivers() == other.spec_irq_drivers(),
    {
    }


    /// An empty registry.
    pub fn new() -> (r: Self)
        ensures
            r.wf(),
            forall|i: int| 0 <= i < MAX_DRIVERS ==> #[trigger] r.spec_drivers()[i] is None,
            forall|i: int| 0 <= i < MAX_FACTORIES ==> #[trigger] r.spec_factories()[i] is None,
            r.counts_match(),
    {
        let mut buckets: Vec<Vec<Option<usize>>> = Vec::new();
        let mut b: usize = 0;
        while b < CLASS_COUNT
            invariant
                b <= CLASS_COUNT,
                buckets.len() == b,
                forall|i: int| 0 <= i < b ==> (#[trigger] buckets@[i]).len() == MAX_DRIVERS,
            decreases CLASS_COUNT - b,
        {
            buckets.push(empty_slots(MAX_DRIVERS));
            b += 1;
        }
        let drivers: Vec<Option<DriverRecord>> = empty_slots(MAX_DRIVERS);
        let class_counts: Vec<u32> = vec![0u32, 0u32, 0u32, 0u32, 0u32, 0u32, 0u32];
        proof {
            assert forall|b: int| 0 <= b < CLASS_COUNT implies #[trigger] class_counts@[b] == count_class(drivers@, b) by {
                lemma_counts_empty(drivers@, b);
            }
            lemma_counts_empty(drivers@, 0);
        }
        DriverManager {
            drivers,
            buckets,
            factories: empty_slots(MAX_FACTORIES),
            irq_drivers: empty_slots(MAX_EXTERNAL_IRQS),
            class_counts,
            registered_drivers: 0,
            registered_factories: 0,
            probe_matches: 0,
            probe_successes: 0,
            probe_failures: 0,
            irq_dispatches: 0,
            irq_driver_hits: 0,
            irq_driver_misses: 0,
            irq_fast_hits: 0,
            irq_fast_fallbacks: 0,
            irq_fast_conflicts: 0,
        }
    }

    /// Why registering `rec` is refused, if it is.
    pub open spec fn register_error(self, rec: DriverRecord) -> Option<DriverErr> {
        if !valid_name(rec.name.spec_bytes()) {
            Some(DriverErr::InvalidConfig)
        } else if first_with_identity(self.spec_drivers(), rec.identity, 0) is Some {
            Some(DriverErr::InvalidConfig)
        } else if first_none(self.spec_drivers(), 0) is None {
            Some(DriverErr::RegistryFull)
        } else if exists|b: int| 0 <= b < CLASS_COUNT && needs_bucket(rec.class, b)
            && first_none(#[trigger] self.spec_bucket(b), 0) is None {
            Some(DriverErr::RegistryFull)
        } else {
            None
        }
    }

    /// The fast-path table after a driver with handle `h` and interrupt
    /// `irq` is registered: the slot of `irq` takes it when it is free.
    pub open spec fn fast_after_register(t: Seq<Option<usize>>, irq: u32, h: usize) -> Seq<Option<usize>> {
        if irq == 0 || irq >= MAX_EXTERNAL_IRQS || t[irq as int] is Some {
            t
        } else {
            t.update(irq as int, Some(h))
        }
    }

    /// A registration of `h` at `irq` meets another driver on that line.
    pub open spec fn fast_conflict(t: Seq<Option<usize>>, irq: u32, h: usize) -> bool {
        irq != 0 && irq < MAX_EXTERNAL_IRQS && t[irq as int] is Some && t[irq as int] != Some(h)
    }

    /// The fast-path table after the driver with handle `h` and interrupt
    /// `irq` leaves.
    pub open spec fn fast_after_unregister(t: Seq<Option<usize>>, irq: u32, h: usize) -> Seq<Option<usize>> {
        if irq == 0 || irq >= MAX_EXTERNAL_IRQS || t[irq as int] != Some(h) {
            t
        } else {
            t.update(irq as int, None)
        }
    }

    /// Register a driver: a valid name, an identity not registered yet, a
    /// free slot, and room in each bucket of its classes; it goes into the
    /// first free slot and the first free slot of each of those buckets,
    /// and takes the fast path of its interrupt when that is free.
    pub fn register_driver(&mut self, rec: DriverRecord) -> (r: DriverResult<()>)
        requires
            old(self).wf(),
        ensures
            final(self).wf(),
            old(self).counts_match() ==> final(self).counts_match(),
            match old(self).register_error(rec) {
                Some(e) => r == Err::<(), DriverErr>(e) && *final(self) == *old(self),
                None => {
                    &&& r is Ok
                    &&& final(self).spec_drivers() == old(self).spec_drivers().update(
                        first_none(old(self).spec_drivers(), 0).unwrap(), Some(rec))
                    &&& forall|b: int| 0 <= b < CLASS_COUNT ==> #[trigger] final(self).spec_bucket(b)
                        == if needs_bucket(rec.class, b) { put_first_free(old(self).spec_bucket(b), rec.handle) }
                        else { old(self).spec_bucket(b) }
                    &&& final(self).spec_irq_drivers() == Self::fast_after_register(
                        old(self).spec_irq_drivers(), rec.identity.irq, rec.handle)
                    &&& final(self).spec_factories() == old(self).spec_factories()
                    &&& final(self).counters().registered_drivers == old(self).counters().registered_drivers.wrapping_add(1)
                    &&& final(self).counters().probe_successes == old(self).counters().probe_successes
                    &&& final(self).counters().irq_fast_conflicts == if Self::fast_conflict(old(self).spec_irq_drivers(),
                        rec.identity.irq, rec.handle) { old(self).counters().irq_fast_conflicts.wrapping_add(1) }
                        else { old(self).counters().irq_fast_conflicts }
                    &&& forall|b: int| 0 <= b < CLASS_COUNT ==> #[trigger] final(self).counters().class_counts[b]
                        == if needs_bucket(rec.class, b) { old(self).counters().class_counts[b].wrapping_add(1) }
                        else { old(self).counters().class_counts[b] }
                },
            },
    {
        if !is_valid_driver_name(rec.name.as_bytes()) {
            return Err(DriverErr::InvalidConfig);
        }
        let mut i: usize = 0;
        let mut first_empty: Option<usize> = None;
        proof {
            lemma_first_with_identity(self.drivers@, rec.identity, 0);
            lemma_first_none(self.drivers@, 0);
        }
        while i < self.drivers.len()
            invariant
                self.wf(),
                i <= self.drivers.len(),
                first_with_identity(self.drivers@, rec.identity, 0) == first_with_identity(self.drivers@, rec.identity, i as int),
                first_empty is None ==> first_none(self.drivers@, 0) == first_none(self.drivers@, i as int),
                first_empty is Some ==> first_none(self.drivers@, 0) == Some(first_empty.unwrap() as int),
            decreases self.drivers.len() - i,
        {
            match &self.drivers[i] {
                Some(existing) => {
                    if identity_eq(&existing.identity, &rec.identity) {
                        return Err(DriverErr::InvalidConfig);
                    }
                },
                None => {
                    if first_empty.is_none() {
                        first_empty = Some(i);
                    }
                },
            }
            i += 1;
        }
        let idx = match first_empty {
            Some(k) => k,
            None => return Err(DriverErr::RegistryFull),
        };
        let mut b: usize = 0;
        while b < CLASS_COUNT
            invariant
                self.wf(),
                *self == *old(self),
                valid_name(rec.name.spec_bytes()),
                first_with_identity(old(self).spec_drivers(), rec.identity, 0) is None,
                first_none(old(self).spec_drivers(), 0) == Some(idx as int),
                b <= CLASS_COUNT,
                forall|j: int| 0 <= j < b ==> !(needs_bucket(rec.class, j) && first_none(#[trigger] old(self).spec_bucket(j), 0) is None),
            decreases CLASS_COUNT - b,
        {
            let bit = bucket_bit_exec(b);
            if rec.class.0 & bit != 0 && find_none(&self.buckets[b]).is_none() {
                proof {
                    assert(needs_bucket(rec.class, b as int) && first_none(old(self).spec_bucket(b as int), 0) is None);
                }
                return Err(DriverErr::RegistryFull);
            }
            b += 1;
        }
        let ghost old_self = *self;
        proof {
            assert(old_self.register_error(rec) is None);
        }
        self.drivers.set(idx, Some(rec));
        let mut b: usize = 0;
        while b < CLASS_COUNT
            invariant
                self.wf(),
                old_self.wf(),
                idx < MAX_DRIVERS,
                b <= CLASS_COUNT,
                self.drivers@ == old_self.drivers@.update(idx as int, Some(rec)),
                self.irq_drivers@ == old_self.irq_drivers@,
                self.factories@ == old_self.factories@,
                self.class_counts@.len() == CLASS_COUNT,
                self.registered_drivers == old_self.registered_drivers,
                self.probe_successes == old_self.probe_successes,
                self.irq_fast_conflicts == old_self.irq_fast_conflicts,
                forall|j: int| 0 <= j < b ==> (#[trigger] self.buckets@[j])@
                    == if needs_bucket(rec.class, j) { put_first_free(old_self.buckets@[j]@, rec.handle) } else { old_self.buckets@[j]@ },
                forall|j: int| b <= j < CLASS_COUNT ==> (#[trigger] self.buckets@[j])@ == old_self.buckets@[j]@,
                forall|j: int| 0 <= j < b ==> #[trigger] self.class_counts@[j]
                    == if needs_bucket(rec.class, j) { old_self.class_counts@[j].wrapping_add(1) } else { old_self.class_counts@[j] },
                forall|j: int| b <= j < CLASS_COUNT ==> #[trigger] self.class_counts@[j] == old_self.class_counts@[j],
            decreases CLASS_COUNT - b,
        {
            let bit = bucket_bit_exec(b);
            if rec.class.0 & bit != 0 {
                let ghost pre = self.buckets@;
                let mut bucket = self.buckets.remove(b);
                let ghost orig = bucket@;
                put_free(&mut bucket, rec.handle);
                self.buckets.insert(b, bucket);
                proof {
                    assert(self.buckets@ =~= pre.update(b as int, bucket));
                    assert(orig == pre[b as int]@);
                    assert(bucket@.len() == orig.len());
                    assert forall|j: int| 0 <= j < CLASS_COUNT implies (#[trigger] self.buckets@[j]).len() == MAX_DRIVERS by {
                        if j != b {
                            assert(self.buckets@[j] == pre[j]);
                        }
                    }

                }
                let c = self.class_counts[b].wrapping_add(1);
                self.class_counts.set(b, c);
            }
            b += 1;
        }
        self.registered_drivers = self.registered_drivers.wrapping_add(1);
        self.register_irq_fast_path(rec.identity.irq, rec.handle);
        proof {
            if old(self).counts_match() {
                lemma_counts_fill(*old(self), *self, idx as int, rec);
            }
        }
        Ok(())
    }

    fn register_irq_fast_path(&mut self, irq: u32, h: usize)
        requires
            old(self).wf(),
        ensures
            final(self).wf(),
            final(self).spec_irq_drivers() == Self::fast_after_register(old(self).spec_irq_drivers(), irq, h),
            final(self).irq_fast_conflicts == if Self::fast_conflict(old(self).spec_irq_drivers(), irq, h) {
                old(self).irq_fast_conflicts.wrapping_add(1) } else { old(self).irq_fast_conflicts },
            final(self).drivers == old(self).drivers,
            final(self).buckets == old(self).buckets,
            final(self).factories == old(self).factories,
            final(self).class_counts == old(self).class_counts,
            final(self).registered_drivers == old(self).registered_drivers,
            final(self).probe_successes == old(self).probe_successes,
    {
        if irq == 0 || irq as usize >= MAX_EXTERNAL_IRQS {
            return;
        }
        let i = irq as usize;
        match self.irq_drivers[i] {
            None => {
                self.irq_drivers.set(i, Some(h));
            },
            Some(existing) => {
                if existing != h {
                    self.irq_fast_conflicts = self.irq_fast_conflicts.wrapping_add(1);
                }
            },
        }
    }

    fn unregister_irq_fast_path(&mut self, irq: u32, h: usize)
        requires
            old(self).wf(),
        ensures
            final(self).wf(),
            final(self).spec_irq_drivers() == Self::fast_after_unregister(old(self).spec_irq_drivers(), irq, h),
            final(self).drivers == old(self).drivers,
            final(self).buckets == old(self).buckets,
            final(self).factories == old(self).factories,
            final(self).class_counts == old(self).class_counts,
            final(self).registered_drivers == old(self).registered_drivers,
            final(self).irq_fast_conflicts == old(self).irq_fast_conflicts,
    {
        if irq == 0 || irq as usize >= MAX_EXTERNAL_IRQS {
            return;
        }
        let i = irq as usize;
        if self.irq_drivers[i] == Some(h) {
            self.irq_drivers.set(i, None);
        }
    }

    /// Take the driver in slot `idx` out of the registry: its slot, its
    /// fast path, its bucket entries and its counts.
    fn remove_at(&mut self, idx: usize)
        requires
            old(self).wf(),
            idx < MAX_DRIVERS,
            old(self).spec_drivers()[idx as int] is Some,
        ensures
            final(self).wf(),
            old(self).counts_match() ==> final(self).counts_match(),
            ({
                let rec = old(self).spec_drivers()[idx as int].unwrap();
                &&& final(self).spec_drivers() == old(self).spec_drivers().update(idx as int, None)
                &&& final(self).spec_irq_drivers() == Self::fast_after_unregister(old(self).spec_irq_drivers(), rec.identity.irq, rec.handle)
                &&& forall|b: int| 0 <= b < CLASS_COUNT ==> #[trigger] final(self).spec_bucket(b) == clear_first(old(self).spec_bucket(b), rec.handle)
                &&& final(self).spec_factories() == old(self).spec_factories()
                &&& final(self).counters().registered_drivers == old(self).counters().registered_drivers.wrapping_sub(1)
                &&& forall|b: int| 0 <= b < CLASS_COUNT ==> #[trigger] final(self).counters().class_counts[b]
                    == if needs_bucket(rec.class, b) { old(self).counters().class_counts[b].wrapping_sub(1) }
                    else { old(self).counters().class_counts[b] }
            }),
    {
        let rec = self.drivers[idx].unwrap();
        self.drivers.set(idx, None);
        self.unregister_irq_fast_path(rec.identity.irq, rec.handle);
        let ghost mid = *self;
        let mut b: usize = 0;
        while b < CLASS_COUNT
            invariant
                self.wf(),
                mid.wf(),
                b <= CLASS_COUNT,
                self.drivers == mid.drivers,
                self.irq_drivers == mid.irq_drivers,
                self.factories == mid.factories,
                self.registered_drivers == mid.registered_drivers,
                forall|j: int| 0 <= j < b ==> (#[trigger] self.buckets@[j])@ == clear_first(mid.buckets@[j]@, rec.handle),
                forall|j: int| b <= j < CLASS_COUNT ==> (#[trigger] self.buckets@[j])@ == mid.buckets@[j]@,
                forall|j: int| 0 <= j < b ==> #[trigger] self.class_counts@[j]
                    == if needs_bucket(rec.class, j) { mid.class_counts@[j].wrapping_sub(1) } else { mid.class_counts@[j] },
                forall|j: int| b <= j < CLASS_COUNT ==> #[trigger] self.class_counts@[j] == mid.class_counts@[j],
            decreases CLASS_COUNT - b,
        {
            let ghost pre = self.buckets@;
            let mut bucket = self.buckets.remove(b);
            let ghost orig = bucket@;
            clear_holding(&mut bucket, rec.handle);
            self.buckets.insert(b, bucket);
            proof {
                assert(self.buckets@ =~= pre.update(b as int, bucket));
                assert(orig == pre[b as int]@);
                assert(bucket@.len() == orig.len());
                assert forall|j: int| 0 <= j < CLASS_COUNT implies (#[trigger] self.buckets@[j]).len() == MAX_DRIVERS by {
                    if j != b {
                        assert(self.buckets@[j] == pre[j]);
                    }
                }

            }
            let bit = bucket_bit_exec(b);
            if rec.class.0 & bit != 0 {
                let c = self.class_counts[b].wrapping_sub(1);
                self.class_counts.set(b, c);
            }
            b += 1;
        }
        self.registered_drivers = self.registered_drivers.wrapping_sub(1);
        proof {
            if old(self).counts_match() {
                lemma_counts_clear(*old(self), *self, idx as int);
            }
        }
    }

    /// Unregister the first driver named `name`.
    pub fn unregister_driver(&mut self, name: &str) -> (r: DriverResult<()>)
        requires
            old(self).wf(),
        ensures
            final(self).wf(),
            old(self).counts_match() ==> final(self).counts_match(),
            match first_named(old(self).spec_drivers(), name.spec_bytes(), 0) {
                None => r == Err::<(), DriverErr>(DriverErr::NotFound) && *final(self) == *old(self),
                Some(k) => r is Ok && final(self).spec_drivers() == old(self).spec_drivers().update(k, None)
                    && forall|b: int| 0 <= b < CLASS_COUNT ==> #[trigger] final(self).spec_bucket(b)
                        == clear_first(old(self).spec_bucket(b), old(self).spec_drivers()[k].unwrap().handle)
                    && final(self).counters().registered_drivers == old(self).counters().registered_drivers.wrapping_sub(1)
                    && forall|b: int| 0 <= b < CLASS_COUNT ==> #[trigger] final(self).counters().class_counts[b]
                        == if needs_bucket(old(self).spec_drivers()[k].unwrap().class, b) {
                            old(self).counters().class_counts[b].wrapping_sub(1)
                        } else {
                            old(self).counters().class_counts[b]
                        },
            },
    {
        match self.find_named(name.as_bytes()) {
            Some(k) => {
                self.remove_at(k);
                Ok(())
            },
            None => Err(DriverErr::NotFound),
        }
    }

    /// Unregister the first driver with identity `identity`.
    pub fn unregister_driver_by_identity(&mut self, identity: DriverIdentity) -> (r: DriverResult<()>)
        requires
            old(self).wf(),
        ensures
            final(self).wf(),
            old(self).counts_match() ==> final(self).counts_match(),
            match first_with_identity(old(self).spec_drivers(), identity, 0) {
                None => r == Err::<(), DriverErr>(DriverErr::NotFound) && *final(self) == *old(self),
                Some(k) => r is Ok && final(self).spec_drivers() == old(self).spec_drivers().update(k, None)
                    && forall|b: int| 0 <= b < CLASS_COUNT ==> #[trigger] final(self).spec_bucket(b)
                        == clear_first(old(self).spec_bucket(b), old(self).spec_drivers()[k].unwrap().handle)
                    && final(self).counters().registered_drivers == old(self).counters().registered_drivers.wrapping_sub(1)
                    && forall|b: int| 0 <= b < CLASS_COUNT ==> #[trigger] final(self).counters().class_counts[b]
                        == if needs_bucket(old(self).spec_drivers()[k].unwrap().class, b) {
                            old(self).counters().class_counts[b].wrapping_sub(1)
                        } else {
                            old(self).counters().class_counts[b]
                        },
            },
    {
        match self.find_identity(&identity) {
            Some(k) => {
                self.remove_at(k);
                Ok(())
            },
            None => Err(DriverErr::NotFound),
        }
    }

    fn find_named(&self, name: &[u8]) -> (r: Option<usize>)
        requires
            self.wf(),
        ensures
            r is Some <==> first_named(self.spec_drivers(), name@, 0) is Some,
            r is Some ==> r.unwrap() == first_named(self.spec_drivers(), name@, 0).unwrap() && r.unwrap() < MAX_DRIVERS
                && self.spec_drivers()[r.unwrap() as int] is Some,
    {
        proof {
            lemma_first_named(self.drivers@, name@, 0);
        }
        let mut i: usize = 0;
        while i < self.drivers.len()
            invariant
                self.wf(),
                i <= self.drivers.len(),
                first_named(self.drivers@, name@, 0) == first_named(self.drivers@, name@, i as int),
            decreases self.drivers.len() - i,
        {
            if let Some(d) = &self.drivers[i] {
                if bytes_eq(d.name.as_bytes(), name) {
                    return Some(i);
                }
            }
            i += 1;
        }
        None
    }

    fn find_identity(&self, id: &DriverIdentity) -> (r: Option<usize>)
        requires
            self.wf(),
        ensures
            r is Some <==> first_with_identity(self.spec_drivers(), *id, 0) is Some,
            r is Some ==> r.unwrap() == first_with_identity(self.spec_drivers(), *id, 0).unwrap() && r.unwrap() < MAX_DRIVERS
                && self.spec_drivers()[r.unwrap() as int] is Some,
    {
        proof {
            lemma_first_with_identity(self.drivers@, *id, 0);
        }
        let mut i: usize = 0;
        while i < self.drivers.len()
            invariant
                self.wf(),
                i <= self.drivers.len(),
                first_with_identity(self.drivers@, *id, 0) == first_with_identity(self.drivers@, *id, i as int),
            decreases self.drivers.len() - i,
        {
            if let Some(d) = &self.drivers[i] {
                if identity_eq(&d.identity, id) {
                    return Some(i);
                }
            }
            i += 1;
        }
        None
    }

    /// The first driver named `name`.
    pub fn get_driver(&self, name: &str) -> (r: Option<DriverRecord>)
        requires
            self.wf(),
        ensures
            match first_named(self.spec_drivers(), name.spec_bytes(), 0) {
                None => r is None,
                Some(k) => r == self.spec_drivers()[k],
            },
    {
        match self.find_named(name.as_bytes()) {
            Some(k) => self.drivers[k],
            None => None,
        }
    }

    /// The first driver with identity `identity`.
    pub fn get_driver_by_identity(&self, identity: DriverIdentity) -> (r: Option<DriverRecord>)
        requires
            self.wf(),
        ensures
            match first_with_identity(self.spec_drivers(), identity, 0) {
                None => r is None,
                Some(k) => r == self.spec_drivers()[k],
            },
    {
        match self.find_identity(&identity) {
            Some(k) => self.drivers[k],
            None => None,
        }
    }

    /// The driver slots, in order.
    pub fn drivers_snapshot(&self) -> (r: Vec<Option<DriverRecord>>)
        requires
            self.wf(),
        ensures
            r@ == self.spec_drivers(),
    {
        let mut out: Vec<Option<DriverRecord>> = Vec::new();
        let mut i: usize = 0;
        while i < self.drivers.len()
            invariant
                i <= self.drivers.len(),
                out@ == self.drivers@.subrange(0, i as int),
            decreases self.drivers.len() - i,
        {
            out.push(self.drivers[i]);
            i += 1;
            proof {
                assert(out@ =~= self.drivers@.subrange(0, i as int));
            }
        }
        proof {
            assert(self.drivers@.subrange(0, self.drivers@.len() as int) =~= self.drivers@);
        }
        out
    }

    /// The registered drivers, in slot order.
    pub fn for_each_driver(&self) -> (r: Vec<DriverRecord>)
        requires
            self.wf(),
        ensures
            r@ == present(self.spec_drivers()),
    {
        let mut out: Vec<DriverRecord> = Vec::new();
        let mut i: usize = 0;
        while i < self.drivers.len()
            invariant
                i <= self.drivers.len(),
                out@ == present(self.drivers@.subrange(0, i as int)),
            decreases self.drivers.len() - i,
        {
            proof {
                assert(self.drivers@.subrange(0, i + 1).drop_last() =~= self.drivers@.subrange(0, i as int));
            }
            if let Some(d) = self.drivers[i] {
                out.push(d);
            }
            i += 1;
        }
        proof {
            assert(self.drivers@.subrange(0, self.drivers@.len() as int) =~= self.drivers@);
        }
        out
    }

    /// The handles in bucket `b`, in slot order.
    fn bucket_handles(&self, b: usize) -> (r: Vec<usize>)
        requires
            self.wf(),
            b < CLASS_COUNT,
        ensures
            r@ == present(self.spec_bucket(b as int)),
    {
        let bucket = &self.buckets[b];
        let mut out: Vec<usize> = Vec::new();
        let mut i: usize = 0;
        while i < bucket.len()
            invariant
                i <= bucket.len(),
                out@ == present(bucket@.subrange(0, i as int)),
            decreases bucket.len() - i,
        {
            proof {
                assert(bucket@.subrange(0, i + 1).drop_last() =~= bucket@.subrange(0, i as int));
            }
            if let Some(h) = bucket[i] {
                out.push(h);
            }
            i += 1;
        }
        proof {
            assert(bucket@.subrange(0, bucket@.len() as int) =~= bucket@);
        }
        out
    }

    /// The block devices, in registration slot order.
    pub fn for_each_block_device(&self) -> (r: Vec<usize>)
        requires
            self.wf(),
        ensures
            r@ == present(self.spec_bucket(0)),
    {
        self.bucket_handles(0)
    }

    pub fn for_each_char_device(&self) -> (r: Vec<usize>)
        requires
            self.wf(),
        ensures
            r@ == present(self.spec_bucket(1)),
    {
        self.bucket_handles(1)
    }

    pub fn for_each_terminal_device(&self) -> (r: Vec<usize>)
        requires
            self.wf(),
        ensures
            r@ == present(self.spec_bucket(2)),
    {
        self.bucket_handles(2)
    }

    pub fn for_each_gpio_controller(&self) -> (r: Vec<usize>)
        requires
            self.wf(),
        ensures
            r@ == present(self.spec_bucket(3)),
    {
        self.bucket_handles(3)
    }

    pub fn for_each_framebuffer_device(&self) -> (r: Vec<usize>)
        requires
            self.wf(),
        ensures
            r@ == present(self.spec_bucket(4)),
    {
        self.bucket_handles(4)
    }

    pub fn for_each_net_device(&self) -> (r: Vec<usize>)
        requires
            self.wf(),
        ensures
            r@ == present(self.spec_bucket(5)),
    {
        self.bucket_handles(5)
    }

    pub fn for_each_rng_device(&self) -> (r: Vec<usize>)
        requires
            self.wf(),
        ensures
            r@ == present(self.spec_bucket(6)),
    {
        self.bucket_handles(6)
    }

    /// The counters, and how many fast-path slots are taken.
    /// The driver count and the class counts are those of the drivers the
    /// registry holds, as they are from `new` on through registrations and
    /// unregistrations.
    pub open spec fn counts_match(self) -> bool {
        &&& self.counters().registered_drivers == count_some(self.spec_drivers())
        &&& self.counters().class_counts.len() == CLASS_COUNT
        &&& forall|b: int| 0 <= b < CLASS_COUNT ==> #[trigger] self.counters().class_counts[b] == count_class(self.spec_drivers(), b)
    }

    pub fn registry_stats(&self) -> (r: DriverRegistryStats)
        requires
            self.wf(),
        ensures
            self.counts_match() ==> r.registered_drivers == count_some(self.spec_drivers())
                && r.registered_block_devices == count_class(self.spec_drivers(), 0)
                && r.registered_char_devices == count_class(self.spec_drivers(), 1)
                && r.registered_terminal_devices == count_class(self.spec_drivers(), 2)
                && r.registered_gpio_controllers == count_class(self.spec_drivers(), 3)
                && r.registered_framebuffer_devices == count_class(self.spec_drivers(), 4)
                && r.registered_net_devices == count_class(self.spec_drivers(), 5)
                && r.registered_rng_devices == count_class(self.spec_drivers(), 6),
            r.registered_drivers == self.counters().registered_drivers,
            r.registered_factories == self.spec_registered_factories(),
            r.registered_block_devices == self.counters().class_counts[0],
            r.registered_char_devices == self.counters().class_counts[1],
            r.registered_terminal_devices == self.counters().class_counts[2],
            r.registered_gpio_controllers == self.counters().class_counts[3],
            r.registered_framebuffer_devices == self.counters().class_counts[4],
            r.registered_net_devices == self.counters().class_counts[5],
            r.registered_rng_devices == self.counters().class_counts[6],
            r.probe_matches == self.counters().probe_matches,
            r.probe_successes == self.counters().probe_successes,
            r.probe_failures == self.counters().probe_failures,
            r.irq_dispatches == self.counters().irq_dispatches,
            r.irq_driver_hits == self.counters().irq_driver_hits,
            r.irq_driver_misses == self.counters().irq_driver_misses,
            r.irq_fast_slots == count_some(self.spec_irq_drivers()),
            r.irq_fast_slots <= MAX_EXTERNAL_IRQS,
            r.irq_fast_hits == self.counters().irq_fast_hits,
            r.irq_fast_fallbacks == self.counters().irq_fast_fallbacks,
            r.irq_fast_conflicts == self.counters().irq_fast_conflicts,
    {
        proof {
            lemma_count_some_bound(self.irq_drivers@);
        }
        DriverRegistryStats {
            registered_drivers: self.registered_drivers as usize,
            registered_factories: self.registered_factories as usize,
            registered_block_devices: self.class_counts[0] as usize,
            registered_char_devices: self.class_counts[1] as usize,
            registered_terminal_devices: self.class_counts[2] as usize,
            registered_gpio_controllers: self.class_counts[3] as usize,
            registered_framebuffer_devices: self.class_counts[4] as usize,
            registered_net_devices: self.class_counts[5] as usize,
            registered_rng_devices: self.class_counts[6] as usize,
            probe_matches: self.probe_matches,
            probe_successes: self.probe_successes,
            probe_failures: self.probe_failures,
            irq_dispatches: self.irq_dispatches,
            irq_driver_hits: self.irq_driver_hits,
            irq_driver_misses: self.irq_driver_misses,
            irq_fast_slots: count_filled(&self.irq_drivers),
            irq_fast_hits: self.irq_fast_hits,
            irq_fast_fallbacks: self.irq_fast_fallbacks,
            irq_fast_conflicts: self.irq_fast_conflicts,
        }
    }

    /// Register the factory with handle `f`: not twice, and while a slot is
    /// free.
    pub fn register_factory(&mut self, f: usize) -> (r: DriverResult<()>)
        requires
            old(self).wf(),
        ensures
            final(self).wf(),
            final(self).spec_drivers() == old(self).spec_drivers(),
            final(self).spec_registered_factories() == old(self).spec_registered_factories(),
            final(self).counters() == old(self).counters(),
            old(self).spec_factories().contains(Some(f)) ==> r == Err::<(), DriverErr>(DriverErr::InvalidConfig)
                && final(self).spec_factories() == old(self).spec_factories(),
            !old(self).spec_factories().contains(Some(f)) && first_none(old(self).spec_factories(), 0) is None
                ==> r == Err::<(), DriverErr>(DriverErr::RegistryFull) && final(self).spec_factories() == old(self).spec_factories(),
            !old(self).spec_factories().contains(Some(f)) && first_none(old(self).spec_factories(), 0) is Some
                ==> r is Ok && final(self).spec_factories() == put_first_free(old(self).spec_factories(), f),
    {
        let mut i: usize = 0;
        while i < self.factories.len()
            invariant
                self.wf(),
                i <= self.factories.len(),
                forall|k: int| 0 <= k < i ==> self.factories@[k] != Some(f),
            decreases self.factories.len() - i,
        {
            if self.factories[i] == Some(f) {
                proof {
                    assert(self.factories@[i as int] == Some(f));
                }
                return Err(DriverErr::InvalidConfig);
            }
            i += 1;
        }
        proof {
            lemma_first_none(self.factories@, 0);
        }
        if find_none(&self.factories).is_none() {
            return Err(DriverErr::RegistryFull);
        }
        put_free(&mut self.factories, f);
        Ok(())
    }

    /// The driver on the fast path of interrupt `irq`, if any.
    pub open spec fn fast_owner(self, irq: u32) -> Option<usize> {
        if (irq as int) < MAX_EXTERNAL_IRQS { self.spec_irq_drivers()[irq as int] } else { None }
    }

    /// Hand an interrupt to the drivers: first to the driver on the fast
    /// path of `irq_id`, then to every registered driver in slot order,
    /// until one takes it. Whether one did.
    pub fn dispatch_irq<H: IrqDispatch>(&mut self, irq_id: u32, host: &mut H) -> (r: bool)
        requires
            old(self).wf(),
        ensures
            final(self).wf(),
            final(self).same_tables(*old(self)),
            final(self).counters().irq_dispatches == old(self).counters().irq_dispatches.wrapping_add(1),
            r ==> final(self).counters().irq_driver_hits == old(self).counters().irq_driver_hits.wrapping_add(1)
                && final(self).counters().irq_driver_misses == old(self).counters().irq_driver_misses,
            !r ==> final(self).counters().irq_driver_misses == old(self).counters().irq_driver_misses.wrapping_add(1)
                && final(self).counters().irq_driver_hits == old(self).counters().irq_driver_hits,
            states_irq(old(host), irq_id) ==> r == ((old(self).fast_owner(irq_id) matches Some(f) && takes(old(host), f, irq_id))
                || exists|k: int| 0 <= k < old(self).spec_drivers().len() && #[trigger] old(self).spec_drivers()[k] is Some
                && takes(old(host), old(self).spec_drivers()[k].unwrap().handle, irq_id)),
    {
        self.irq_dispatches = self.irq_dispatches.wrapping_add(1);
        let fast = if (irq_id as usize) < MAX_EXTERNAL_IRQS { self.irq_drivers[irq_id as usize] } else { None };
        proof {
            assert(fast == old(self).fast_owner(irq_id));
        }
        if let Some(h) = fast {
            if host.handle_irq(h, irq_id) {
                self.irq_fast_hits = self.irq_fast_hits.wrapping_add(1);
                self.irq_driver_hits = self.irq_driver_hits.wrapping_add(1);
                return true;
            }
            self.irq_fast_fallbacks = self.irq_fast_fallbacks.wrapping_add(1);
        }
        let snapshot = self.drivers_snapshot();
        let mut i: usize = 0;
        while i < snapshot.len()
            invariant
                i <= snapshot.len(),
                self.wf(),
                self.same_tables(*old(self)),
                self.irq_dispatches == old(self).irq_dispatches.wrapping_add(1),
                self.irq_driver_hits == old(self).irq_driver_hits,
                self.irq_driver_misses == old(self).irq_driver_misses,
                self.registered_drivers == old(self).registered_drivers,
                self.class_counts == old(self).class_counts,
                snapshot@ == old(self).spec_drivers(),
                forall|h: usize, q: u32| #[trigger] host.spec_takes(h, q) == old(host).spec_takes(h, q),
                states_irq(old(host), irq_id) ==> !(old(self).fast_owner(irq_id) matches Some(f) && takes(old(host), f, irq_id)),
                states_irq(old(host), irq_id) ==> forall|k: int| 0 <= k < i ==> !(#[trigger] snapshot@[k] is Some
                    && takes(old(host), snapshot@[k].unwrap().handle, irq_id)),
            decreases snapshot.len() - i,
        {
            if let Some(d) = snapshot[i] {
                if host.handle_irq(d.handle, irq_id) {
                    self.irq_driver_hits = self.irq_driver_hits.wrapping_add(1);
                    return true;
                }
            }
            i += 1;
        }
        self.irq_driver_misses = self.irq_driver_misses.wrapping_add(1);
        false
    }

    /// Probe the device tree `dtb`: for each node with a `reg` window, the
    /// factories are tried in slot order, each with its compatible strings
    /// in order; a match is probed, and a driver that it gives is
    /// registered and initialised. The first success ends the node.
    /// Returns how many drivers were brought up.
    pub fn auto_probe_fdt<P: ProbeHost>(&mut self, dtb: &[u8], host: &mut P) -> (r: usize)
        requires
            old(self).wf(),
        ensures
            final(self).wf(),
            r <= fdt_nodes(dtb@).len(),
            final(self).spec_factories() == old(self).spec_factories(),
            only_filled(old(self).spec_drivers(), final(self).spec_drivers()),
            count_some(old(self).spec_drivers()) + r <= count_some(final(self).spec_drivers()),
            final(self).counters().probe_successes as int == (old(self).counters().probe_successes as int + r)
                % 0x1_0000_0000,
            (forall|k: int| 0 <= k < old(self).spec_factories().len() ==> #[trigger] old(self).spec_factories()[k] is None)
                ==> r == 0 && *final(self) == *old(self),
            old(host).spec_inits() is Some ==> ({
                let i0 = old(host).spec_inits().unwrap();
                let il = final(host).spec_inits().unwrap();
                &&& final(host).spec_inits() is Some
                &&& i0.len() <= il.len()
                &&& il.subrange(0, i0.len() as int) == i0
                &&& r == inits_ok(il.subrange(i0.len() as int, il.len() as int))
                &&& forall|i: int| i0.len() <= i < il.len() ==> registered_handle(final(self).spec_drivers(), (#[trigger] il[i]).0)
            }),
            probe_record(old(host)) ==> ({
                let l0 = old(host).spec_probes().unwrap();
                let l = final(host).spec_probes().unwrap();
                let nv = fdt_nodes(dtb@);
                &&& final(host).spec_probes() is Some
                &&& l0.len() <= l.len()
                &&& l.subrange(0, l0.len() as int) == l0
                &&& forall|i: int| l0.len() <= i < l.len() ==> probe_fits(old(host), nv, old(self).spec_factories(), #[trigger] l[i])
                &&& forall|j: int| 0 <= j < nv.len() && probe_due(old(host), old(self).spec_factories(), #[trigger] nv[j])
                    ==> probed_at(l, l0.len() as int, node_resource(nv[j]).unwrap())
            }),
    {
        let nodes = walk_nodes(dtb);
        let mut count: usize = 0;
        let mut n: usize = 0;
        let ghost factories = self.factories@;
        let ghost drivers0 = self.drivers@;
        let ghost rec = probe_record(old(host));
        let ghost irec = old(host).spec_inits() is Some;
        let ghost i0 = old(host).spec_inits().unwrap();
        let ghost l0 = old(host).spec_probes().unwrap();
        let ghost nv = fdt_nodes(dtb@);
        proof {
            assert(nodes@.len() == fdt_nodes(dtb@).len());
            if rec {
                assert(host.spec_probes().unwrap().subrange(0, l0.len() as int) =~= l0);
            }
            if irec {
                assert(host.spec_inits().unwrap().subrange(0, i0.len() as int) =~= i0);
                assert(host.spec_inits().unwrap().subrange(i0.len() as int, i0.len() as int) =~= Seq::<(usize, DriverResult<()>)>::empty());
            }
        }
        while n < nodes.len()
            invariant
                self.wf(),
                n <= nodes.len(),
                count <= n,
                nodes@.len() == fdt_nodes(dtb@).len(),
                self.factories@ == factories,
                drivers0 == old(self).spec_drivers(),
                only_filled(drivers0, self.drivers@),
                count_some(drivers0) + count <= count_some(self.drivers@),
                self.probe_successes as int == (old(self).probe_successes as int + count) % 0x1_0000_0000,
                (forall|k: int| 0 <= k < factories.len() ==> #[trigger] factories[k] is None) ==> count == 0 && *self == *old(self),
                rec == probe_record(old(host)),
                factories == old(self).spec_factories(),
                l0 == old(host).spec_probes().unwrap(),
                nv == fdt_nodes(dtb@),
                node_views(nodes@) == nv,
                forall|f: usize| #[trigger] host.spec_compatible(f) == old(host).spec_compatible(f),
                irec == (old(host).spec_inits() is Some),
                i0 == old(host).spec_inits().unwrap(),
                irec ==> host.spec_inits() is Some,
                irec ==> i0.len() <= host.spec_inits().unwrap().len(),
                irec ==> host.spec_inits().unwrap().subrange(0, i0.len() as int) == i0,
                irec ==> forall|i: int| i0.len() <= i < host.spec_inits().unwrap().len() ==> registered_handle(self.drivers@,
                    (#[trigger] host.spec_inits().unwrap()[i]).0),
                irec ==> count == inits_ok(host.spec_inits().unwrap().subrange(i0.len() as int, host.spec_inits().unwrap().len() as int)),
                rec ==> host.spec_probes() is Some,
                rec ==> l0.len() <= host.spec_probes().unwrap().len(),
                rec ==> host.spec_probes().unwrap().subrange(0, l0.len() as int) == l0,
                rec ==> forall|i: int| l0.len() <= i < host.spec_probes().unwrap().len() ==> probe_fits(old(host), nv, factories,
                    #[trigger] host.spec_probes().unwrap()[i]),
                rec ==> forall|j: int| 0 <= j < n && probe_due(old(host), factories, #[trigger] nv[j])
                    ==> probed_at(host.spec_probes().unwrap(), l0.len() as int, node_resource(nv[j]).unwrap()),
            decreases nodes.len() - n,
        {
            let node = nodes[n];
            proof {
                assert(node@ == nv[n as int]);
            }
            if let Some(reg) = node.first_reg() {
                let resource = DeviceResource::new(reg.base, reg.size, node.interrupt_or_zero());
                let mut probed = false;
                let ghost mut made = false;
                let mut fi: usize = 0;
                while fi < self.factories.len() && !probed
                    invariant
                        self.wf(),
                        fi <= self.factories.len(),
                        self.factories@ == factories,
                        only_filled(drivers0, self.drivers@),
                        count + (if probed { 1int } else { 0int }) + count_some(drivers0) <= count_some(self.drivers@),
                        count <= n,
                        self.probe_successes as int == (old(self).probe_successes as int + count + (if probed { 1int } else { 0int })) % 0x1_0000_0000,
                        (forall|k: int| 0 <= k < factories.len() ==> #[trigger] factories[k] is None) ==> count == 0 && !probed && *self == *old(self),
                rec == probe_record(old(host)),
                factories == old(self).spec_factories(),
                l0 == old(host).spec_probes().unwrap(),
                nv == fdt_nodes(dtb@),
                node_views(nodes@) == nv,
                forall|f: usize| #[trigger] host.spec_compatible(f) == old(host).spec_compatible(f),
                irec == (old(host).spec_inits() is Some),
                i0 == old(host).spec_inits().unwrap(),
                irec ==> host.spec_inits() is Some,
                irec ==> i0.len() <= host.spec_inits().unwrap().len(),
                irec ==> host.spec_inits().unwrap().subrange(0, i0.len() as int) == i0,
                irec ==> forall|i: int| i0.len() <= i < host.spec_inits().unwrap().len() ==> registered_handle(self.drivers@,
                    (#[trigger] host.spec_inits().unwrap()[i]).0),
                irec ==> count + (if probed { 1int } else { 0int }) == inits_ok(host.spec_inits().unwrap().subrange(i0.len() as int, host.spec_inits().unwrap().len() as int)),
                rec ==> host.spec_probes() is Some,
                rec ==> l0.len() <= host.spec_probes().unwrap().len(),
                rec ==> host.spec_probes().unwrap().subrange(0, l0.len() as int) == l0,
                rec ==> forall|i: int| l0.len() <= i < host.spec_probes().unwrap().len() ==> probe_fits(old(host), nv, factories,
                    #[trigger] host.spec_probes().unwrap()[i]),
                rec ==> forall|j: int| 0 <= j < n && probe_due(old(host), factories, #[trigger] nv[j])
                    ==> probed_at(host.spec_probes().unwrap(), l0.len() as int, node_resource(nv[j]).unwrap()),
                node@ == nv[n as int],
                n < nv.len(),
                node_resource(nv[n as int]) == Some(resource),
                probed ==> made,
                rec && made ==> probed_at(host.spec_probes().unwrap(), l0.len() as int, resource),
                        rec ==> forall|k: int| 0 <= k < fi && #[trigger] factories[k] is Some && factory_matches(old(host),
                            factories[k].unwrap(), nv[n as int]) ==> made,
                    decreases self.factories.len() - fi,
                {
                    if let Some(f) = self.factories[fi] {
                        let compat = host.compatible(f);
                        let ghost cs = old(host).spec_compatible(f).unwrap();
                        let mut ci: usize = 0;
                        while ci < compat.len() && !probed
                            invariant
                                self.wf(),
                                ci <= compat.len(),
                                self.factories@ == factories,
                                only_filled(drivers0, self.drivers@),
                                count + (if probed { 1int } else { 0int }) + count_some(drivers0) <= count_some(self.drivers@),
                                count <= n,
                                self.probe_successes as int == (old(self).probe_successes as int + count + (if probed { 1int } else { 0int })) % 0x1_0000_0000,
                                fi < factories.len(),
                                factories[fi as int] is Some,
                                factories[fi as int] == Some(f),
                rec == probe_record(old(host)),
                factories == old(self).spec_factories(),
                l0 == old(host).spec_probes().unwrap(),
                nv == fdt_nodes(dtb@),
                node_views(nodes@) == nv,
                forall|f: usize| #[trigger] host.spec_compatible(f) == old(host).spec_compatible(f),
                irec == (old(host).spec_inits() is Some),
                i0 == old(host).spec_inits().unwrap(),
                irec ==> host.spec_inits() is Some,
                irec ==> i0.len() <= host.spec_inits().unwrap().len(),
                irec ==> host.spec_inits().unwrap().subrange(0, i0.len() as int) == i0,
                irec ==> forall|i: int| i0.len() <= i < host.spec_inits().unwrap().len() ==> registered_handle(self.drivers@,
                    (#[trigger] host.spec_inits().unwrap()[i]).0),
                irec ==> count + (if probed { 1int } else { 0int }) == inits_ok(host.spec_inits().unwrap().subrange(i0.len() as int, host.spec_inits().unwrap().len() as int)),
                rec ==> host.spec_probes() is Some,
                rec ==> l0.len() <= host.spec_probes().unwrap().len(),
                rec ==> host.spec_probes().unwrap().subrange(0, l0.len() as int) == l0,
                rec ==> forall|i: int| l0.len() <= i < host.spec_probes().unwrap().len() ==> probe_fits(old(host), nv, factories,
                    #[trigger] host.spec_probes().unwrap()[i]),
                rec ==> forall|j: int| 0 <= j < n && probe_due(old(host), factories, #[trigger] nv[j])
                    ==> probed_at(host.spec_probes().unwrap(), l0.len() as int, node_resource(nv[j]).unwrap()),
                node@ == nv[n as int],
                n < nv.len(),
                node_resource(nv[n as int]) == Some(resource),
                probed ==> made,
                rec && made ==> probed_at(host.spec_probes().unwrap(), l0.len() as int, resource),
                                rec ==> forall|k: int| 0 <= k < fi && #[trigger] factories[k] is Some && factory_matches(old(host),
                                    factories[k].unwrap(), nv[n as int]) ==> made,
                                rec ==> cs == old(host).spec_compatible(f).unwrap() && compat@.len() == cs.len()
                                    && forall|i: int| 0 <= i < cs.len() ==> (#[trigger] compat@[i]).spec_bytes() == cs[i],
                                rec ==> forall|i: int| 0 <= i < ci && (nv[n as int].compatible matches Some(c) && nul_items(c).contains(
                                    #[trigger] cs[i])) ==> made,
                            decreases compat.len() - ci,
                        {
                            if node.compatible_matches(compat[ci]) {
                                self.probe_matches = self.probe_matches.wrapping_add(1);
                                let ghost log_before = host.spec_probes();
                                let ghost host_before = *host;
                                let res = host.probe(f, resource);
                                proof {
                                    made = true;
                                    if rec {
                                        let lb = log_before.unwrap();
                                        let la = host.spec_probes().unwrap();
                                        assert(la == lb.push((f, resource)));
                                        assert(la.subrange(0, l0.len() as int) =~= lb.subrange(0, l0.len() as int));
                                        assert(factories[fi as int] == Some(f));
                                        assert(factory_matches(old(host), f, nv[n as int])) by {
                                            assert(compat@[ci as int].spec_bytes() == cs[ci as int]);
                                        }
                                        assert(probe_fits(old(host), nv, factories, (f, resource)));
                                        assert forall|i: int| l0.len() <= i < la.len() implies probe_fits(old(host), nv, factories,
                                            #[trigger] la[i]) by {
                                            if i < lb.len() {
                                                assert(la[i] == lb[i]);
                                            }
                                        }
                                        assert forall|j: int| 0 <= j < n && probe_due(old(host), factories, #[trigger] nv[j])
                                            implies probed_at(la, l0.len() as int, node_resource(nv[j]).unwrap()) by {
                                            assert(probed_at(lb, l0.len() as int, node_resource(nv[j]).unwrap()));
                                            let w = choose|w: int| l0.len() <= w < lb.len() && (#[trigger] lb[w]).1 == node_resource(nv[j]).unwrap();
                                            assert(la[w] == lb[w]);
                                        }
                                        assert(la[la.len() - 1].1 == resource);
                                        assert(probed_at(la, l0.len() as int, resource));
                                    }
                                }
                                match res {
                                    Some(rec) => {
                                        let ghost prev = self.drivers@;
                                        proof {
                                            lemma_first_none(prev, 0);
                                        }
                                        let ghost inits_before = host.spec_inits();
                                        match self.register_driver(rec) {
                                            Ok(()) => {
                                                proof {
                                                    lemma_count_some_fill(prev, first_none(prev, 0).unwrap(), rec);
                                                    if irec {
                                                        let il = inits_before.unwrap();
                                                        assert forall|i: int| i0.len() <= i < il.len() implies registered_handle(self.drivers@,
                                                            (#[trigger] il[i]).0) by {
                                                            lemma_registered_fill(prev, first_none(prev, 0).unwrap(), rec, il[i].0);
                                                        }
                                                    }
                                                }
                                                let ghost before_init = *host;
                                                let ghost ib = host.spec_inits();
                                                let init_r = host.auto_init(rec.handle);
                                                proof {
                                                    if irec {
                                                        let b = ib.unwrap();
                                                        let a = host.spec_inits().unwrap();
                                                        assert(a == b.push((rec.handle, init_r)));
                                                        assert(a.subrange(0, i0.len() as int) =~= b.subrange(0, i0.len() as int));
                                                        assert(a.subrange(i0.len() as int, a.len() as int).drop_last() =~= b.subrange(i0.len() as int, b.len() as int));
                                                        assert(registered_handle(self.drivers@, rec.handle)) by {
                                                            let j = first_none(prev, 0).unwrap();
                                                            assert(self.drivers@[j] == Some(rec));
                                                        }
                                                        assert forall|i: int| i0.len() <= i < a.len() implies registered_handle(self.drivers@,
                                                            (#[trigger] a[i]).0) by {
                                                            if i < b.len() {
                                                                assert(a[i] == b[i]);
                                                            }
                                                        }
                                                    }
                                                }
                                                match init_r {
                                                    Ok(()) => {
                                                        proof {
                                                            lemma_wrapping_step(self.probe_successes, old(self).probe_successes as int + count);
                                                        }
                                                        self.probe_successes = self.probe_successes.wrapping_add(1);
                                                        probed = true;
                                                    },
                                                    Err(_) => {
                                                        self.probe_failures = self.probe_failures.wrapping_add(1);
                                                    },
                                                }
                                            },
                                            Err(_) => {
                                                self.probe_failures = self.probe_failures.wrapping_add(1);
                                            },
                                        }
                                    },
                                    None => {
                                        self.probe_failures = self.probe_failures.wrapping_add(1);
                                    },
                                }
                            }
                            ci += 1;
                        }
                        proof {
                            if rec && factory_matches(old(host), f, nv[n as int]) && !probed {
                                let c = nv[n as int].compatible.unwrap();
                                let i = choose|i: int| 0 <= i < cs.len() && nul_items(c).contains(#[trigger] cs[i]);
                                assert(made);
                            }
                        }
                    }
                    fi += 1;
                }
                proof {
                    if rec && probe_due(old(host), factories, nv[n as int]) && !probed {
                        let k = choose|k: int| 0 <= k < factories.len() && #[trigger] factories[k] is Some && factory_matches(old(host),
                            factories[k].unwrap(), nv[n as int]);
                        assert(made);
                    }
                }
                if probed {
                    count += 1;
                }
            }
            proof {
                if rec {
                    assert forall|j: int| 0 <= j < n + 1 && probe_due(old(host), factories, #[trigger] nv[j])
                        implies probed_at(host.spec_probes().unwrap(), l0.len() as int, node_resource(nv[j]).unwrap()) by {
                        if j == n {
                            assert(node_resource(nv[n as int]) is Some);
                        }
                    }
                }
            }
            n += 1;
        }
        count
    }
}

/// One more step of a 32-bit counter that counts `n` modulo 2^32.
proof fn lemma_wrapping_step(x: u32, n: int)
    requires
        n >= 0,
        x as int == n % 0x1_0000_0000,
    ensures
        x.wrapping_add(1) as int == (n + 1) % 0x1_0000_0000,
{
    vstd::arithmetic::div_mod::lemma_fundamental_div_mod(n, 0x1_0000_0000);
    let q = n / 0x1_0000_0000;
    if x == u32::MAX {
        vstd::arithmetic::div_mod::lemma_fundamental_div_mod_converse(n + 1, 0x1_0000_0000, q + 1, 0);
    } else {
        vstd::arithmetic::div_mod::lemma_fundamental_div_mod_converse(n + 1, 0x1_0000_0000, q, x + 1);
    }
}

/// Filling empty slot `k` with `rec` and counting it keeps the counts
/// matching.
proof fn lemma_counts_fill(before: DriverManager, after: DriverManager, k: int, rec: DriverRecord)
    requires
        before.counts_match(),
        0 <= k < before.spec_drivers().len(),
        before.spec_drivers().len() <= MAX_DRIVERS,
        before.spec_drivers()[k] is None,
        after.spec_drivers() == before.spec_drivers().update(k, Some(rec)),
        after.counters().registered_drivers == before.counters().registered_drivers.wrapping_add(1),
        after.counters().class_counts.len() == CLASS_COUNT,
        forall|b: int| 0 <= b < CLASS_COUNT ==> #[trigger] after.counters().class_counts[b]
            == if needs_bucket(rec.class, b) { before.counters().class_counts[b].wrapping_add(1) }
            else { before.counters().class_counts[b] },
    ensures
        after.counts_match(),
{
    let ds = before.spec_drivers();
    lemma_count_some_update(ds, k, Some(rec));
    lemma_count_some_bound(ds);
    assert forall|b: int| 0 <= b < CLASS_COUNT implies #[trigger] after.counters().class_counts[b] == count_class(after.spec_drivers(), b) by {
        lemma_count_class_update(ds, k, Some(rec), b);
        lemma_count_class_bound(ds, b);
    }
}

/// Emptying filled slot `k` and uncounting its driver keeps the counts
/// matching.
proof fn lemma_counts_clear(before: DriverManager, after: DriverManager, k: int)
    requires
        before.counts_match(),
        0 <= k < before.spec_drivers().len(),
        before.spec_drivers()[k] is Some,
        after.spec_drivers() == before.spec_drivers().update(k, None),
        after.counters().registered_drivers == before.counters().registered_drivers.wrapping_sub(1),
        after.counters().class_counts.len() == CLASS_COUNT,
        forall|b: int| 0 <= b < CLASS_COUNT ==> #[trigger] after.counters().class_counts[b]
            == if needs_bucket(before.spec_drivers()[k].unwrap().class, b) { before.counters().class_counts[b].wrapping_sub(1) }
            else { before.counters().class_counts[b] },
    ensures
        after.counts_match(),
{
    let ds = before.spec_drivers();
    lemma_count_some_update(ds, k, None);
    assert forall|b: int| 0 <= b < CLASS_COUNT implies #[trigger] after.counters().class_counts[b] == count_class(after.spec_drivers(), b) by {
        lemma_count_class_update(ds, k, None, b);
    }
}

/// A table of empty slots counts nothing.
proof fn lemma_counts_empty(ds: Seq<Option<DriverRecord>>, b: int)
    requires
        forall|i: int| 0 <= i < ds.len() ==> #[trigger] ds[i] is None,
    ensures
        count_some(ds) == 0,
        count_class(ds, b) == 0,
    decreases ds.len(),
{
    if ds.len() > 0 {
        lemma_counts_empty(ds.drop_last(), b);
    }
}

/// `new` is `old` with some empty slots filled.
pub open spec fn only_filled(old: Seq<Option<DriverRecord>>, new: Seq<Option<DriverRecord>>) -> bool {
    &&& new.len() == old.len()
    &&& forall|k: int| 0 <= k < old.len() ==> #[trigger] new[k] == old[k] || (old[k] is None && new[k] is Some)
}

/// The items that slots hold, in slot order.
pub open spec fn present<A>(s: Seq<Option<A>>) -> Seq<A>
    decreases s.len(),
{
    if s.len() == 0 {
        Seq::empty()
    } else {
        present(s.drop_last()) + if s.last() is Some { seq![s.last().unwrap()] } else { Seq::empty() }
    }
}

/// A slot that holds `x` puts `x` among the items present.
proof fn lemma_present_contains<A>(s: Seq<Option<A>>, k: int, x: A)
    requires
        0 <= k < s.len(),
        s[k] == Some(x),
    ensures
        present(s).contains(x),
    decreases s.len(),
{
    if k == s.len() - 1 {
        assert(present(s)[present(s).len() - 1] == x);
    } else {
        lemma_present_contains(s.drop_last(), k, x);
        let i = choose|i: int| 0 <= i < present(s.drop_last()).len() && present(s.drop_last())[i] == x;
        assert(present(s)[i] == x);
    }
}

/// After a registration, the class lists that the new driver belongs to
/// name its handle: each bucket of its classes had a free slot, and the
/// handle went into the first.
pub proof fn lemma_register_then_listed(bucket: Seq<Option<usize>>, h: usize)
    requires
        first_none(bucket, 0) is Some,
    ensures
        present(put_first_free(bucket, h)).contains(h),
{
    lemma_first_none(bucket, 0);
    let k = first_none(bucket, 0).unwrap();
    lemma_present_contains(bucket.update(k, Some(h)), k, h);
}

/// The drivers that interrupts are handed to, named by their handles.
pub trait IrqDispatch {
    /// Whether driver `handle` takes interrupt `irq`, for a host that
    /// states it; `None` for one that does not.
    open spec fn spec_takes(&self, handle: usize, irq: u32) -> Option<bool> {
        None
    }

    /// Let the driver `handle` handle interrupt `irq`; whether it did. A
    /// host that states which driver takes what answers accordingly, and
    /// keeps stating the same.
    fn handle_irq(&mut self, handle: usize, irq: u32) -> (r: bool)
        ensures
            old(self).spec_takes(handle, irq) matches Some(b) ==> r == b,
            forall|h: usize, i: u32| #[trigger] final(self).spec_takes(h, i) == old(self).spec_takes(h, i),
    ;
}

/// `host` states, for every driver, whether it takes interrupt `irq`.
pub open spec fn states_irq<H: IrqDispatch>(host: &H, irq: u32) -> bool {
    forall|h: usize| (#[trigger] host.spec_takes(h, irq)) is Some
}

/// Driver `h` takes interrupt `irq` on `host`.
pub open spec fn takes<H: IrqDispatch>(host: &H, h: usize, irq: u32) -> bool {
    host.spec_takes(h, irq) == Some(true)
}

/// The factories and drivers that probing works with, named by handles.
pub trait ProbeHost {
    /// The compatible strings of factory `factory`, for a host that states
    /// them; `None` for one that does not.
    open spec fn spec_compatible(&self, factory: usize) -> Option<Seq<Seq<u8>>> {
        None
    }

    /// The probes asked so far, each with its factory and resource, for a
    /// host that keeps such a record; `None` for one that does not.
    open spec fn spec_probes(&self) -> Option<Seq<(usize, DeviceResource)>> {
        None
    }

    /// The drivers brought up so far, each with the result, for a host
    /// that keeps such a record; `None` for one that does not.
    open spec fn spec_inits(&self) -> Option<Seq<(usize, DriverResult<()>)>> {
        None
    }

    /// The compatible strings of factory `factory`.
    fn compatible(&self, factory: usize) -> (r: Vec<&'static str>)
        ensures
            self.spec_compatible(factory) matches Some(cs) ==> r@.len() == cs.len() && forall|i: int|
                0 <= i < cs.len() ==> (#[trigger] r@[i]).spec_bytes() == cs[i],
    ;

    /// Ask factory `factory` for a driver of the device at `resource`; a
    /// host that keeps a record adds this probe to it.
    fn probe(&mut self, factory: usize, resource: DeviceResource) -> (r: Option<DriverRecord>)
        ensures
            old(self).spec_probes() matches Some(l) ==> final(self).spec_probes() == Some(l.push((factory, resource))),
            old(self).spec_probes() is None ==> final(self).spec_probes() is None,
            forall|f: usize| #[trigger] final(self).spec_compatible(f) == old(self).spec_compatible(f),
            final(self).spec_inits() == old(self).spec_inits(),
    ;

    /// Bring up the driver `handle`.
    fn auto_init(&mut self, handle: usize) -> (r: DriverResult<()>)
        ensures
            old(self).spec_inits() matches Some(l) ==> final(self).spec_inits() == Some(l.push((handle, r))),
            old(self).spec_inits() is None ==> final(self).spec_inits() is None,
            final(self).spec_probes() == old(self).spec_probes(),
            forall|f: usize| #[trigger] final(self).spec_compatible(f) == old(self).spec_compatible(f),
    ;
}

/// The resource of the device of node `n`: its first `reg` window and its
/// interrupt (0 for none), when it has a window.
pub open spec fn node_resource(n: FdtNodeView) -> Option<DeviceResource> {
    match reg_spec(n) {
        None => None,
        Some(g) => Some(DeviceResource {
            base_addr: g.base,
            size: g.size,
            irq: match n.interrupt {
                Some(i) => i,
                None => 0,
            },
        }),
    }
}

/// One of the compatible strings that `host` states for factory `f` is
/// among those of node `n`.
pub open spec fn factory_matches<P: ProbeHost>(host: &P, f: usize, n: FdtNodeView) -> bool {
    match host.spec_compatible(f) {
        None => false,
        Some(cs) => match n.compatible {
            None => false,
            Some(c) => exists|i: int| 0 <= i < cs.len() && nul_items(c).contains(#[trigger] cs[i]),
        },
    }
}

/// `host` states the compatible strings of every factory and keeps a
/// record of its probes.
pub open spec fn probe_record<P: ProbeHost>(host: &P) -> bool {
    &&& host.spec_probes() is Some
    &&& forall|f: usize| (#[trigger] host.spec_compatible(f)) is Some
}

/// Probe `(f, res)` was for some node of `nodes` with resource `res`, by a
/// registered factory `f` that matches that node.
pub open spec fn probe_fits<P: ProbeHost>(host: &P, nodes: Seq<FdtNodeView>, factories: Seq<Option<usize>>, e: (usize, DeviceResource)) -> bool {
    &&& factories.contains(Some(e.0))
    &&& exists|j: int| 0 <= j < nodes.len() && node_resource(#[trigger] nodes[j]) == Some(e.1) && factory_matches(host, e.0, nodes[j])
}

/// Node `n` has a device window and some registered factory matches it.
pub open spec fn probe_due<P: ProbeHost>(host: &P, factories: Seq<Option<usize>>, n: FdtNodeView) -> bool {
    &&& node_resource(n) is Some
    &&& exists|k: int| 0 <= k < factories.len() && #[trigger] factories[k] is Some && factory_matches(host, factories[k].unwrap(), n)
}

/// Some slot of `ds` holds a driver with handle `h`.
pub open spec fn registered_handle(ds: Seq<Option<DriverRecord>>, h: usize) -> bool {
    exists|k: int| 0 <= k < ds.len() && #[trigger] ds[k] is Some && ds[k].unwrap().handle == h
}

/// Filling an empty slot keeps every handle registered.
proof fn lemma_registered_fill(ds: Seq<Option<DriverRecord>>, j: int, x: DriverRecord, h: usize)
    requires
        registered_handle(ds, h),
        0 <= j < ds.len(),
        ds[j] is None,
    ensures
        registered_handle(ds.update(j, Some(x)), h),
{
    let k = choose|k: int| 0 <= k < ds.len() && #[trigger] ds[k] is Some && ds[k].unwrap().handle == h;
    assert(ds.update(j, Some(x))[k] == ds[k]);
}

/// How many of the bring-ups `log` succeeded.
pub open spec fn inits_ok(log: Seq<(usize, DriverResult<()>)>) -> nat
    decreases log.len(),
{
    if log.len() == 0 { 0 } else { inits_ok(log.drop_last()) + if log.last().1 is Ok { 1nat } else { 0nat } }
}

/// Some record of `log` from `from` on probes resource `res`.
pub open spec fn probed_at(log: Seq<(usize, DeviceResource)>, from: int, res: DeviceResource) -> bool {
    exists|i: int| from <= i < log.len() && (#[trigger] log[i]).1 == res
}

} // verus!
