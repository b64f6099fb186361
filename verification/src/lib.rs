//! OpenIon kernel core: the data structures, parsers and scheduling rules of a
//! small bare-metal RTOS, each stated with a contract and proved by Verus.
//!
//! Hardware access (MMIO, context switches, interrupt masking) lives outside
//! this crate; the library holds the state that those layers drive and the
//! decisions they act upon.

pub mod arch;
pub mod bits;
pub mod driver;
pub mod fdt;
pub mod fs;
pub mod hv;
pub mod irq;
pub mod log;
pub mod mm;
pub mod net;
pub mod platform;
pub mod process;
pub mod sched;
pub mod shell;
pub mod slots;
pub mod syscall;
pub mod text;
pub mod timer;

use vstd::prelude::*;
use vstd::string::StringSliceAdditionalSpecFns;
use crate::driver::manager::DriverManager;
use crate::fs::{NodeId, Vfs, create_error, create_file, dir_full, free_slot, grew_under, lemma_added_child_grew, lemma_create_then_lookup,
    lemma_grew_keeps, lemma_grew_refl, lemma_grew_trans, lookup, lookup_spec, resolve_path};
use crate::driver::manager::present;
use crate::net::posix::{dec_digits, dec_digits_exec};

verus! {

/// The longest device file name, in bytes.
pub const DEV_NAME_MAX: usize = 15;

/// The name of device `idx` of a class named `prefix`: the prefix and the
/// decimal index, kept to [`DEV_NAME_MAX`] bytes.
pub open spec fn dev_name(prefix: Seq<u8>, idx: u32) -> Seq<u8> {
    let all = prefix + dec_digits(idx as nat);
    if all.len() <= DEV_NAME_MAX { all } else { all.subrange(0, DEV_NAME_MAX as int) }
}

/// The name of device `idx` of the class named `prefix`.
pub fn format_dev_name(prefix: &str, idx: u32) -> (r: Vec<u8>)
    ensures
        r@ == dev_name(prefix.spec_bytes(), idx),
{
    let p = prefix.as_bytes();
    let digits = dec_digits_exec(idx);
    let mut out: Vec<u8> = Vec::new();
    let mut i: usize = 0;
    let ghost all = p@ + digits@;
    while i < p.len() && out.len() < DEV_NAME_MAX
        invariant
            i <= p.len(),
            out.len() == i,
            out.len() <= DEV_NAME_MAX,
            out@ == all.subrange(0, i as int),
            all == p@ + digits@,
        decreases p.len() - i,
    {
        out.push(p[i]);
        i += 1;
        proof {
            assert(out@ =~= all.subrange(0, i as int));
        }
    }
    let mut j: usize = 0;
    while j < digits.len() && out.len() < DEV_NAME_MAX && i == p.len()
        invariant
            i <= p.len(),
            j <= digits.len(),
            out.len() <= DEV_NAME_MAX,
            out.len() == i + j,
            j > 0 ==> i == p.len(),
            out@ == all.subrange(0, (i + j) as int),
            all == p@ + digits@,
        decreases digits.len() - j,
    {
        out.push(digits[j]);
        j += 1;
        proof {
            assert(out@ =~= all.subrange(0, (i + j) as int));
        }
    }
    proof {
        if all.len() <= DEV_NAME_MAX {
            assert(out@ =~= all);
        } else {
            assert(out.len() == DEV_NAME_MAX);
        }
    }
    out
}

/// `dir` holds an entry named `name`, or can take no more.
pub open spec fn dev_present(fs: Vfs, dir: usize, name: Seq<u8>) -> bool {
    lookup_spec(fs, dir, name) is Ok || dir_full(fs, dir)
}

/// The name prefix of device class `c`: `blk`, `ttyS`, `gpio`, `eth`.
pub open spec fn class_prefix(c: int) -> Seq<u8> {
    if c == 0 {
        seq![98u8, 108u8, 107u8]
    } else if c == 1 {
        seq![116u8, 116u8, 121u8, 83u8]
    } else if c == 2 {
        seq![103u8, 112u8, 105u8, 111u8]
    } else {
        seq![101u8, 116u8, 104u8]
    }
}

/// The registry bucket of device class `c`: block, character, GPIO and
/// network devices.
pub open spec fn class_bucket(c: int) -> int {
    if c == 0 { 0 } else if c == 1 { 1 } else if c == 2 { 3 } else { 5 }
}

/// The prefix and registry bucket of device class `c`.
fn dev_class(c: usize) -> (r: (&'static str, usize))
    requires
        c < 4,
    ensures
        r.0.spec_bytes() == class_prefix(c as int),
        r.1 == class_bucket(c as int),
{
    proof {
        reveal_strlit("blk");
        reveal_strlit("ttyS");
        reveal_strlit("gpio");
        reveal_strlit("eth");
        vstd::string::is_ascii_spec_bytes("blk");
        vstd::string::is_ascii_spec_bytes("ttyS");
        vstd::string::is_ascii_spec_bytes("gpio");
        vstd::string::is_ascii_spec_bytes("eth");
        assert("blk".spec_bytes() =~= class_prefix(0));
        assert("ttyS".spec_bytes() =~= class_prefix(1));
        assert("gpio".spec_bytes() =~= class_prefix(2));
        assert("eth".spec_bytes() =~= class_prefix(3));
    }
    if c == 0 {
        ("blk", 0)
    } else if c == 1 {
        ("ttyS", 1)
    } else if c == 2 {
        ("gpio", 3)
    } else {
        ("eth", 5)
    }
}

proof fn lemma_digits_ascii(n: nat)
    ensures
        forall|i: int| 0 <= i < dec_digits(n).len() ==> #[trigger] dec_digits(n)[i] < 128,
        dec_digits(n).len() >= 1,
    decreases n,
{
    if n >= 10 {
        lemma_digits_ascii(n / 10);
    }
}

/// A device file name is non-empty, short and valid UTF-8.
proof fn lemma_dev_name_ok(c: int, k: u32)
    requires
        0 <= c < 4,
    ensures
        0 < dev_name(class_prefix(c), k).len() < crate::fs::NAME_MAX,
        vstd::utf8::valid_utf8(dev_name(class_prefix(c), k)),
{
    lemma_digits_ascii(k as nat);
    let all = class_prefix(c) + dec_digits(k as nat);
    let n = dev_name(class_prefix(c), k);
    assert forall|i: int| 0 <= i < n.len() implies #[trigger] n[i] < 128 by {
        assert(n[i] == all[i]);
        if i >= class_prefix(c).len() {
            assert(all[i] == dec_digits(k as nat)[i - class_prefix(c).len()]);
        }
    }
    crate::text::lemma_ascii_valid_utf8(n);
}

/// Make sure `dir` holds a file named `name`: afterwards it does, unless
/// `dir` is full.
fn ensure_dev_file(fs: &mut Vfs, dir: NodeId, name: &[u8])
    requires
        old(fs).wf(),
    ensures
        final(fs).wf(),
        grew_under(*old(fs), *final(fs), dir.0),
        old(fs).valid_id(dir.0) && old(fs).node(dir.0).is_dir() && 0 < name@.len() < crate::fs::NAME_MAX
            && vstd::utf8::valid_utf8(name@) ==> dev_present(*final(fs), dir.0, name@),
        lookup_spec(*old(fs), dir.0, crate::text::utf8_text(name@)) is Ok ==> *final(fs) == *old(fs),
{
    let text = crate::text::utf8_or_empty(name);
    match lookup(fs, dir, text) {
        Ok(_) => {
            proof {
                lemma_grew_refl(*fs, dir.0);
            }
        },
        Err(_) => {
            let ghost before = *fs;
            let _ = create_file(fs, dir, text);
            proof {
                if create_error(before, dir.0, text.spec_bytes()) is None {
                    let v = fs.node(before.spec_nodes().len() as usize);
                    lemma_added_child_grew(before, *fs, dir.0, text.spec_bytes(), v);
                    if before.valid_id(dir.0) && before.node(dir.0).is_dir() && 0 < name@.len() < crate::fs::NAME_MAX
                        && vstd::utf8::valid_utf8(name@) {
                        if free_slot(before.node(dir.0).spec_children(), 0) is Some {
                            lemma_create_then_lookup(before, *fs, dir.0, text.spec_bytes(), v);
                        }
                    }
                } else {
                    lemma_grew_refl(*fs, dir.0);
                }
            }
        },
    }
}

/// Create the files of `/dev` for the registered devices: `blk<n>` for
/// block devices, `ttyS<n>` for character devices, `gpio<n>` for GPIO
/// controllers and `eth<n>` for network devices, numbered in registration
/// order; files that exist are kept. Afterwards each of those names is in
/// `/dev`, unless `/dev` is full.
pub fn register_dev_files(fs: &mut Vfs, mgr: &DriverManager)
    requires
        old(fs).wf(),
        mgr.wf(),
    ensures
        final(fs).wf(),
        resolve_spec_dev(*old(fs)) is Err ==> *final(fs) == *old(fs),
        resolve_spec_dev(*old(fs)) is Ok ==> grew_under(*old(fs), *final(fs), resolve_spec_dev(*old(fs))->Ok_0),
        match resolve_spec_dev(*old(fs)) {
            Ok(d) => old(fs).node(d).is_dir() ==> forall|c: int, k: int|
                0 <= c < 4 && 0 <= k < present(mgr.spec_bucket(class_bucket(c))).len() && k <= u32::MAX
                    ==> #[trigger] dev_present(*final(fs), d, dev_name(class_prefix(c), k as u32)),
            Err(_) => true,
        },
        match resolve_spec_dev(*old(fs)) {
            Ok(d) => (forall|c: int, k: int|
                0 <= c < 4 && 0 <= k < present(mgr.spec_bucket(class_bucket(c))).len() && k <= u32::MAX
                    ==> #[trigger] lookup_spec(*old(fs), d, dev_name(class_prefix(c), k as u32)) is Ok) ==> *final(fs) == *old(fs),
            Err(_) => true,
        },
{
    let dev = match resolve_path(fs, "/dev") {
        Ok(d) => d,
        Err(_) => return,
    };
    let ghost fs0 = *fs;
    let ghost d = dev.0;
    let ghost want = fs0.valid_id(d) && fs0.node(d).is_dir();
    let ghost all_there = forall|c2: int, k2: int|
        0 <= c2 < 4 && 0 <= k2 < present(mgr.spec_bucket(class_bucket(c2))).len() && k2 <= u32::MAX
            ==> #[trigger] lookup_spec(fs0, d, dev_name(class_prefix(c2), k2 as u32)) is Ok;
    proof {
        lemma_grew_refl(*fs, dev.0);
    }
    let mut c: usize = 0;
    while c < 4
        invariant
            fs.wf(),
            fs0.wf(),
            mgr.wf(),
            c <= 4,
            d == dev.0,
            want == (fs0.valid_id(d) && fs0.node(d).is_dir()),
            grew_under(fs0, *fs, dev.0),
            want ==> forall|c2: int, k2: int|
                0 <= c2 < c && 0 <= k2 < present(mgr.spec_bucket(class_bucket(c2))).len() && k2 <= u32::MAX
                    ==> #[trigger] dev_present(*fs, d, dev_name(class_prefix(c2), k2 as u32)),
            all_there == (forall|c2: int, k2: int|
                0 <= c2 < 4 && 0 <= k2 < present(mgr.spec_bucket(class_bucket(c2))).len() && k2 <= u32::MAX
                    ==> #[trigger] lookup_spec(fs0, d, dev_name(class_prefix(c2), k2 as u32)) is Ok),
            all_there ==> *fs == fs0,
        decreases 4 - c,
    {
        let (prefix, bucket) = dev_class(c);
        let handles = if bucket == 0 {
            mgr.for_each_block_device()
        } else if bucket == 1 {
            mgr.for_each_char_device()
        } else if bucket == 3 {
            mgr.for_each_gpio_controller()
        } else {
            mgr.for_each_net_device()
        };
        let mut k: usize = 0;
        while k < handles.len() && k <= u32::MAX as usize
            invariant
                fs.wf(),
                fs0.wf(),
                k <= handles.len(),
                c < 4,
                d == dev.0,
                want == (fs0.valid_id(d) && fs0.node(d).is_dir()),
                prefix.spec_bytes() == class_prefix(c as int),
                handles@ == present(mgr.spec_bucket(class_bucket(c as int))),
                grew_under(fs0, *fs, dev.0),
                want ==> forall|c2: int, k2: int|
                    0 <= c2 < c && 0 <= k2 < present(mgr.spec_bucket(class_bucket(c2))).len() && k2 <= u32::MAX
                        ==> #[trigger] dev_present(*fs, d, dev_name(class_prefix(c2), k2 as u32)),
                want ==> forall|k2: int| 0 <= k2 < k ==> #[trigger] dev_present(*fs, d, dev_name(class_prefix(c as int), k2 as u32)),
                all_there == (forall|c2: int, k2: int|
                    0 <= c2 < 4 && 0 <= k2 < present(mgr.spec_bucket(class_bucket(c2))).len() && k2 <= u32::MAX
                        ==> #[trigger] lookup_spec(fs0, d, dev_name(class_prefix(c2), k2 as u32)) is Ok),
                all_there ==> *fs == fs0,
            decreases handles.len() - k,
        {
            let name = format_dev_name(prefix, k as u32);
            let ghost before = *fs;
            proof {
                if all_there {
                    lemma_dev_name_ok(c as int, k as u32);
                    assert(lookup_spec(fs0, d, dev_name(class_prefix(c as int), k as u32)) is Ok);
                    assert(crate::text::utf8_text(name@) == name@);
                }
            }
            ensure_dev_file(fs, dev, name.as_slice());
            proof {
                lemma_grew_trans(fs0, before, *fs, dev.0);
                if want {
                    lemma_dev_name_ok(c as int, k as u32);
                    assert(before.valid_id(d) && before.node(d).is_dir());
                    assert(name@ == dev_name(class_prefix(c as int), k as u32));
                    assert forall|c2: int, k2: int|
                        0 <= c2 < c && 0 <= k2 < present(mgr.spec_bucket(class_bucket(c2))).len() && k2 <= u32::MAX
                            implies #[trigger] dev_present(*fs, d, dev_name(class_prefix(c2), k2 as u32)) by {
                        assert(dev_present(before, d, dev_name(class_prefix(c2), k2 as u32)));
                        lemma_grew_keeps(before, *fs, d, dev_name(class_prefix(c2), k2 as u32));
                    }
                    assert forall|k2: int| 0 <= k2 < k + 1 implies #[trigger] dev_present(*fs, d, dev_name(class_prefix(c as int), k2 as u32)) by {
                        if k2 < k {
                            assert(dev_present(before, d, dev_name(class_prefix(c as int), k2 as u32)));
                            lemma_grew_keeps(before, *fs, d, dev_name(class_prefix(c as int), k2 as u32));
                        }
                    }
                }
            }
            k += 1;
        }
        proof {
            if want {
                assert forall|c2: int, k2: int|
                    0 <= c2 < c + 1 && 0 <= k2 < present(mgr.spec_bucket(class_bucket(c2))).len() && k2 <= u32::MAX
                        implies #[trigger] dev_present(*fs, d, dev_name(class_prefix(c2), k2 as u32)) by {
                    if c2 == c {
                        assert(k2 < k);
                    }
                }
            }
        }
        c += 1;
    }
}

/// What resolving `/dev` gives.
pub open spec fn resolve_spec_dev(fs: Vfs) -> Result<usize, crate::fs::FsError> {
    crate::fs::resolve_spec(fs, "/dev".spec_bytes())
}

} // verus!
