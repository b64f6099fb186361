//! The mount table: exFAT volumes of block devices attached at directories
//! of the tree, and the paths below them.

use vstd::prelude::*;
use vstd::string::StringSliceAdditionalSpecFns;
use crate::text::{bytes_eq, copy_prefix, has_prefix, last_index_of, rfind_byte, starts_with, utf8_or_empty, utf8_text};
use crate::fs::{DirEntry, FileType, NAME_MAX, NodeId, Vfs, dir_entry_views, node_file_type, resolve_bytes, resolve_spec};
use crate::fs::detect::{FsType, detect_fs, looks_exfat};
use crate::fs::exfat::{BlockDev, CHAIN_BUDGET, EntryView, ExfatFs, boot_ok, described, dir_entry_view, entry_views, path_parts, reliable};

verus! {

pub const MOUNT_SLOTS: usize = 4;
/// Source and mount paths are kept to this many bytes less one.
pub const MOUNT_PATH_MAX: usize = 64;

#[derive(Debug, Clone, Copy, PartialEq, Eq, Structural)]
pub enum MountError {
    InvalidSource,
    InvalidTarget,
    TargetBusy,
    NoBlockDevice,
    UnsupportedFs,
    IoTimeout,
    NoSpace,
}

impl MountError {
    pub fn message(self) -> (r: &'static str)
        ensures
            r@ == match self {
                MountError::InvalidSource => "invalid source device"@,
                MountError::InvalidTarget => "invalid mount target"@,
                MountError::TargetBusy => "target is already mounted"@,
                MountError::NoBlockDevice => "block device not found"@,
                MountError::UnsupportedFs => "unsupported or invalid filesystem"@,
                MountError::IoTimeout => "block device I/O timed out"@,
                MountError::NoSpace => "mount table is full"@,
            },
    {
        match self {
            MountError::InvalidSource => "invalid source device",
            MountError::InvalidTarget => "invalid mount target",
            MountError::TargetBusy => "target is already mounted",
            MountError::NoBlockDevice => "block device not found",
            MountError::UnsupportedFs => "unsupported or invalid filesystem",
            MountError::IoTimeout => "block device I/O timed out",
            MountError::NoSpace => "mount table is full",
        }
    }
}

/// A mounted volume: where it comes from, where it is attached, its
/// geometry and the index of its block device.
pub struct MountInfo {
    source: Vec<u8>,
    path: Vec<u8>,
    fs: ExfatFs,
    dev: usize,
}

/// What a mount slot holds.
pub struct MountView {
    pub source: Seq<u8>,
    pub path: Seq<u8>,
    pub dev: usize,
    /// The geometry of the mounted volume.
    pub fs: ExfatFs,
}

impl MountInfo {
    pub closed spec fn wf(self) -> bool {
        self.fs.mounted()
    }

    pub closed spec fn view(self) -> MountView {
        MountView { source: self.source@, path: self.path@, dev: self.dev, fs: self.fs }
    }
}

/// A line of the mount table as shown to users.
pub struct MountEntry {
    pub source: Vec<u8>,
    pub path: Vec<u8>,
    pub fs_type: &'static str,
}

impl MountEntry {
    pub fn source_str(&self) -> (r: &str)
        ensures
            r.spec_bytes() == utf8_text(self.source@),
    {
        utf8_or_empty(self.source.as_slice())
    }

    pub fn path_str(&self) -> (r: &str)
        ensures
            r.spec_bytes() == utf8_text(self.path@),
    {
        utf8_or_empty(self.path.as_slice())
    }
}

/// The mounted volume that serves a path, and how much of the path is its
/// mount point.
pub struct MountLookup {
    pub fs: ExfatFs,
    pub prefix_len: usize,
    pub dev: usize,
}

pub open spec fn opt_mount(o: Option<MountInfo>) -> Option<MountView> {
    match o {
        Some(m) => Some(m.view()),
        None => None,
    }
}

/// The first `n - 1` bytes of `b` (all of them when it is shorter).
pub open spec fn cut(b: Seq<u8>, n: int) -> Seq<u8> {
    if b.len() < n { b } else { b.subrange(0, n - 1) }
}

/// Some slot of `ms` is attached at the path whose text is `p`.
pub open spec fn holds_path(ms: Seq<Option<MountView>>, p: Seq<u8>) -> bool {
    exists|i: int| 0 <= i < ms.len() && (#[trigger] ms[i]) is Some && utf8_text(ms[i].unwrap().path) == p
}

/// The first slot of `ms` from `k` on attached at `p`.
pub open spec fn first_holding(ms: Seq<Option<MountView>>, p: Seq<u8>, k: int) -> Option<int>
    decreases ms.len() - k,
{
    if k >= ms.len() || k < 0 {
        None
    } else if ms[k] is Some && utf8_text(ms[k].unwrap().path) == p {
        Some(k)
    } else {
        first_holding(ms, p, k + 1)
    }
}

pub proof fn lemma_first_free(ms: Seq<Option<MountView>>, k: int)
    requires
        0 <= k,
    ensures
        first_free(ms, k) is Some ==> k <= first_free(ms, k).unwrap() < ms.len() && ms[first_free(ms, k).unwrap()] is None,
    decreases ms.len() - k,
{
    if k < ms.len() {
        lemma_first_free(ms, k + 1);
    }
}

/// The first free slot of `ms` from `k` on.
pub open spec fn first_free(ms: Seq<Option<MountView>>, k: int) -> Option<int>
    decreases ms.len() - k,
{
    if k >= ms.len() || k < 0 {
        None
    } else if ms[k] is None {
        Some(k)
    } else {
        first_free(ms, k + 1)
    }
}

pub proof fn lemma_first_holding(ms: Seq<Option<MountView>>, p: Seq<u8>, k: int)
    requires
        0 <= k,
    ensures
        first_holding(ms, p, k) is Some ==> {
            let i = first_holding(ms, p, k).unwrap();
            k <= i < ms.len() && ms[i] is Some && utf8_text(ms[i].unwrap().path) == p
        },
        first_holding(ms, p, k) is None ==> forall|i: int| k <= i < ms.len() ==> !((#[trigger] ms[i]) is Some
            && utf8_text(ms[i].unwrap().path) == p),
    decreases ms.len() - k,
{
    if k < ms.len() {
        lemma_first_holding(ms, p, k + 1);
    }
}

/// Unmounting the path just mounted undoes the mount: the new slot is the
/// first that holds the path, and clearing it gives back the table as it
/// was before.
pub proof fn lemma_mount_then_unmount(ms: Seq<Option<MountView>>, source: Seq<u8>, p: Seq<u8>, dev: usize, vol: ExfatFs)
    requires
        vstd::utf8::valid_utf8(p),
        p.len() < MOUNT_PATH_MAX,
        first_holding(ms, p, 0) is None,
        first_free(ms, 0) is Some,
    ensures
        ({
            let k = first_free(ms, 0).unwrap();
            let after = ms.update(k, Some(MountView { source: cut(source, MOUNT_PATH_MAX as int), path: cut(p, MOUNT_PATH_MAX as int), dev, fs: vol }));
            &&& holds_path(after, p)
            &&& first_holding(after, p, 0) == Some(k)
            &&& forall|i: int| 0 <= i < after.len() && i != k ==> !((#[trigger] after[i]) is Some && utf8_text(after[i].unwrap().path) == p)
            &&& after.update(k, None) == ms
        }),
{
    let k = first_free(ms, 0).unwrap();
    let after = ms.update(k, Some(MountView { source: cut(source, MOUNT_PATH_MAX as int), path: cut(p, MOUNT_PATH_MAX as int), dev, fs: vol }));
    lemma_first_free(ms, 0);
    lemma_first_holding(ms, p, 0);
    assert(cut(p, MOUNT_PATH_MAX as int) == p);
    assert(utf8_text(after[k].unwrap().path) == p);
    lemma_first_holding_reaches(after, p, 0, k);
    assert(after.update(k, None) =~= ms);
}

/// When no slot before `k` holds `p` and slot `k` does, the search from
/// `j <= k` finds `k`.
proof fn lemma_first_holding_reaches(ms: Seq<Option<MountView>>, p: Seq<u8>, j: int, k: int)
    requires
        0 <= j <= k < ms.len(),
        ms[k] is Some && utf8_text(ms[k].unwrap().path) == p,
        forall|i: int| 0 <= i < k ==> !((#[trigger] ms[i]) is Some && utf8_text(ms[i].unwrap().path) == p),
    ensures
        first_holding(ms, p, j) == Some(k),
    decreases k - j,
{
    if j < k {
        lemma_first_holding_reaches(ms, p, j + 1, k);
    }
}

fn first_holding_exec(ms: &Vec<Option<MountInfo>>, p: &[u8]) -> (r: Option<usize>)
    ensures
        match first_holding(ms@.map_values(|o: Option<MountInfo>| opt_mount(o)), p@, 0) {
            Some(i) => r == Some(i as usize),
            None => r is None,
        },
{
    let ghost v = ms@.map_values(|o: Option<MountInfo>| opt_mount(o));
    let mut k: usize = 0;
    while k < ms.len()
        invariant
            k <= ms.len(),
            v == ms@.map_values(|o: Option<MountInfo>| opt_mount(o)),
            first_holding(v, p@, 0) == first_holding(v, p@, k as int),
        decreases ms.len() - k,
    {
        if let Some(m) = &ms[k] {
            let text = utf8_or_empty(m.path.as_slice());
            if bytes_eq(text.as_bytes(), p) {
                return Some(k);
            }
        }
        k += 1;
    }
    None
}

fn first_free_exec(ms: &Vec<Option<MountInfo>>) -> (r: Option<usize>)
    ensures
        match first_free(ms@.map_values(|o: Option<MountInfo>| opt_mount(o)), 0) {
            Some(i) => r == Some(i as usize),
            None => r is None,
        },
{
    let ghost v = ms@.map_values(|o: Option<MountInfo>| opt_mount(o));
    let mut k: usize = 0;
    while k < ms.len()
        invariant
            k <= ms.len(),
            v == ms@.map_values(|o: Option<MountInfo>| opt_mount(o)),
            first_free(v, 0) == first_free(v, k as int),
        decreases ms.len() - k,
    {
        if ms[k].is_none() {
            return Some(k);
        }
        k += 1;
    }
    None
}

/// Attach the volume `efs` of device `dev` at `mount_path`, recorded with
/// the source `dev_path` (both kept to [`MOUNT_PATH_MAX`]` - 1` bytes): the
/// path must not be attached already, and a slot must be free.
pub fn register_mount(fs: &mut Vfs, dev_path: &str, mount_path: &str, efs: ExfatFs, dev: usize) -> (r: Result<(), MountError>)
    requires
        old(fs).wf(),
        efs.mounted(),
    ensures
        final(fs).wf(),
        final(fs).spec_nodes() == old(fs).spec_nodes(),
        final(fs).spec_root() == old(fs).spec_root(),
        ({
            let ms = old(fs).spec_mounts();
            if first_holding(ms, mount_path.spec_bytes(), 0) is Some {
                r == Err::<(), MountError>(MountError::TargetBusy) && final(fs).spec_mounts() == ms
            } else {
                match first_free(ms, 0) {
                    None => r == Err::<(), MountError>(MountError::NoSpace) && final(fs).spec_mounts() == ms,
                    Some(k) => r is Ok && final(fs).spec_mounts() == ms.update(k, Some(MountView {
                        source: cut(dev_path.spec_bytes(), MOUNT_PATH_MAX as int),
                        path: cut(mount_path.spec_bytes(), MOUNT_PATH_MAX as int),
                        dev,
                        fs: efs,
                    })),
                }
            }
        }),
{
    let source = copy_prefix(dev_path.as_bytes(), MOUNT_PATH_MAX - 1);
    let path = copy_prefix(mount_path.as_bytes(), MOUNT_PATH_MAX - 1);
    if first_holding_exec(&fs.mounts, mount_path.as_bytes()).is_some() {
        return Err(MountError::TargetBusy);
    }
    proof {
        lemma_first_free(fs.spec_mounts(), 0);
    }
    match first_free_exec(&fs.mounts) {
        None => Err(MountError::NoSpace),
        Some(k) => {
            let ghost old_fs = *fs;
            let info = MountInfo { source, path, fs: efs, dev };
            fs.mounts.set(k, Some(info));
            proof {
                assert(fs.spec_mounts() =~= old_fs.spec_mounts().update(k as int, Some(info.view())));
                assert(dev_path.spec_bytes().subrange(0, dev_path.spec_bytes().len() as int) =~= dev_path.spec_bytes());
                assert(mount_path.spec_bytes().subrange(0, mount_path.spec_bytes().len() as int) =~= mount_path.spec_bytes());
                assert(info.view() == MountView {
                    source: cut(dev_path.spec_bytes(), MOUNT_PATH_MAX as int),
                    path: cut(mount_path.spec_bytes(), MOUNT_PATH_MAX as int),
                    dev,
                    fs: efs,
                });
            }
            Ok(())
        },
    }
}

/// Detach the first volume attached at `path`; whether there was one.
pub fn unmount(fs: &mut Vfs, path: &str) -> (r: bool)
    requires
        old(fs).wf(),
    ensures
        final(fs).wf(),
        final(fs).spec_nodes() == old(fs).spec_nodes(),
        final(fs).spec_root() == old(fs).spec_root(),
        r == holds_path(old(fs).spec_mounts(), path.spec_bytes()),
        match first_holding(old(fs).spec_mounts(), path.spec_bytes(), 0) {
            Some(k) => final(fs).spec_mounts() == old(fs).spec_mounts().update(k, None),
            None => final(fs).spec_mounts() == old(fs).spec_mounts(),
        },
{
    let ghost ms = fs.spec_mounts();
    proof {
        lemma_first_holding(ms, path.spec_bytes(), 0);
    }
    match first_holding_exec(&fs.mounts, path.as_bytes()) {
        Some(k) => {
            let ghost old_fs = *fs;
            fs.mounts.set(k, None);
            proof {
                assert(fs.spec_mounts() =~= ms.update(k as int, None));
            }
            true
        },
        None => false,
    }
}

pub open spec fn entry_of(o: Option<MountView>) -> Option<(Seq<u8>, Seq<u8>)> {
    match o {
        Some(m) => Some((m.source, m.path)),
        None => None,
    }
}

pub open spec fn entry_view(o: Option<MountEntry>) -> Option<(Seq<u8>, Seq<u8>)> {
    match o {
        Some(e) => Some((e.source@, e.path@)),
        None => None,
    }
}

/// The mount table, slot by slot (every volume is exFAT).
pub fn mount_entries(fs: &Vfs) -> (r: Vec<Option<MountEntry>>)
    requires
        fs.wf(),
    ensures
        r.len() == MOUNT_SLOTS,
        forall|i: int| 0 <= i < MOUNT_SLOTS ==> #[trigger] entry_view(r@[i]) == entry_of(fs.spec_mounts()[i]),
        forall|i: int| 0 <= i < MOUNT_SLOTS && r@[i] is Some ==> (#[trigger] r@[i]).unwrap().fs_type@ == "exFAT"@,
{
    let mut out: Vec<Option<MountEntry>> = Vec::new();
    let mut k: usize = 0;
    while k < fs.mounts.len()
        invariant
            fs.wf(),
            k <= fs.mounts.len(),
            out.len() == k,
            forall|i: int| 0 <= i < k ==> #[trigger] entry_view(out@[i]) == entry_of(fs.spec_mounts()[i]),
            forall|i: int| 0 <= i < k && out@[i] is Some ==> (#[trigger] out@[i]).unwrap().fs_type@ == "exFAT"@,
        decreases fs.mounts.len() - k,
    {
        match &fs.mounts[k] {
            Some(m) => {
                let e = MountEntry {
                    source: copy_prefix(m.source.as_slice(), m.source.len()),
                    path: copy_prefix(m.path.as_slice(), m.path.len()),
                    fs_type: "exFAT",
                };
                proof {
                    assert(e.source@ =~= m.source@);
                    assert(e.path@ =~= m.path@);
                }
                out.push(Some(e));
            },
            None => {
                out.push(None);
            },
        }
        k += 1;
    }
    out
}

/// `path` lies at or below the mount point `mp`.
pub open spec fn under_mount(mp: Seq<u8>, path: Seq<u8>) -> bool {
    path == mp || (has_prefix(path, mp) && path.len() > mp.len() && path[mp.len() as int] == 47)
}

/// The slot with the longest non-empty mount point that `path` lies under
/// (the first of equals), scanning from `k` with the best so far.
pub open spec fn best_mount(ms: Seq<Option<MountView>>, path: Seq<u8>, k: int, best: Option<int>, best_len: int) -> Option<int>
    decreases ms.len() - k,
{
    if k >= ms.len() || k < 0 {
        best
    } else if ms[k] is Some && under_mount(utf8_text(ms[k].unwrap().path), path)
        && utf8_text(ms[k].unwrap().path).len() > best_len {
        best_mount(ms, path, k + 1, Some(k), utf8_text(ms[k].unwrap().path).len() as int)
    } else {
        best_mount(ms, path, k + 1, best, best_len)
    }
}

/// A mount point that `path` lies under, of slot `j` of `ms`.
pub open spec fn serves(ms: Seq<Option<MountView>>, path: Seq<u8>, j: int) -> bool {
    &&& 0 <= j < ms.len()
    &&& ms[j] is Some
    &&& utf8_text(ms[j].unwrap().path).len() > 0
    &&& under_mount(utf8_text(ms[j].unwrap().path), path)
}

proof fn lemma_best_mount_from(ms: Seq<Option<MountView>>, path: Seq<u8>, k: int, best: Option<int>, best_len: int)
    requires
        0 <= k <= ms.len(),
        best is None ==> best_len == 0 && forall|j: int| 0 <= j < k ==> !serves(ms, path, j),
        best is Some ==> {
            let b = best.unwrap();
            &&& 0 <= b < k
            &&& serves(ms, path, b)
            &&& best_len == utf8_text(ms[b].unwrap().path).len()
            &&& forall|j: int| 0 <= j < k && serves(ms, path, j) ==> utf8_text(ms[j].unwrap().path).len() <= best_len
        },
    ensures
        match best_mount(ms, path, k, best, best_len) {
            None => forall|j: int| 0 <= j < ms.len() ==> !serves(ms, path, j),
            Some(i) => serves(ms, path, i) && forall|j: int| #[trigger] serves(ms, path, j) ==> utf8_text(ms[j].unwrap().path).len()
                <= utf8_text(ms[i].unwrap().path).len(),
        },
    decreases ms.len() - k,
{
    if k < ms.len() {
        if ms[k] is Some && under_mount(utf8_text(ms[k].unwrap().path), path) && utf8_text(ms[k].unwrap().path).len() > best_len {
            lemma_best_mount_from(ms, path, k + 1, Some(k), utf8_text(ms[k].unwrap().path).len() as int);
        } else {
            lemma_best_mount_from(ms, path, k + 1, best, best_len);
        }
    }
}

/// A path is served by the longest mount point that it lies under: when
/// some non-empty mount point holds the path, the slot chosen holds it and
/// no mount point that holds it is longer; when none does, none is chosen.
pub proof fn lemma_longest_mount(ms: Seq<Option<MountView>>, path: Seq<u8>)
    ensures
        match best_mount(ms, path, 0, None, 0) {
            None => forall|j: int| 0 <= j < ms.len() ==> !serves(ms, path, j),
            Some(i) => serves(ms, path, i) && forall|j: int| #[trigger] serves(ms, path, j) ==> utf8_text(ms[j].unwrap().path).len()
                <= utf8_text(ms[i].unwrap().path).len(),
        },
{
    lemma_best_mount_from(ms, path, 0, None, 0);
}

/// The volume that serves `path`: the one with the longest mount point
/// that `path` lies under.
pub fn find_mount_for_path(fs: &Vfs, path: &[u8]) -> (r: Option<MountLookup>)
    requires
        fs.wf(),
    ensures
        match best_mount(fs.spec_mounts(), path@, 0, None, 0) {
            None => r is None,
            Some(k) => r is Some && r.unwrap().dev == fs.spec_mounts()[k].unwrap().dev
                && r.unwrap().prefix_len == utf8_text(fs.spec_mounts()[k].unwrap().path).len()
                && r.unwrap().fs.mounted() && r.unwrap().fs == fs.spec_mounts()[k].unwrap().fs,
        },
        r is None <==> forall|j: int| 0 <= j < fs.spec_mounts().len() ==> !serves(fs.spec_mounts(), path@, j),
        r is Some ==> exists|k: int| #[trigger] serves(fs.spec_mounts(), path@, k) && r.unwrap().dev == fs.spec_mounts()[k].unwrap().dev
            && r.unwrap().prefix_len == utf8_text(fs.spec_mounts()[k].unwrap().path).len(),
        r is Some ==> forall|j: int| #[trigger] serves(fs.spec_mounts(), path@, j) ==> utf8_text(fs.spec_mounts()[j].unwrap().path).len()
            <= r.unwrap().prefix_len,
{
    proof {
        lemma_longest_mount(fs.spec_mounts(), path@);
    }
    let ghost ms = fs.spec_mounts();
    let mut best: Option<MountLookup> = None;
    let ghost mut best_k: Option<int> = None;
    let mut best_len: usize = 0;
    let mut k: usize = 0;
    while k < fs.mounts.len()
        invariant
            fs.wf(),
            ms == fs.spec_mounts(),
            k <= fs.mounts.len(),
            best_mount(ms, path@, 0, None, 0) == best_mount(ms, path@, k as int, best_k, best_len as int),
            best_k is None <==> best is None,
            best_k is Some ==> 0 <= best_k.unwrap() < MOUNT_SLOTS && best.unwrap().dev == ms[best_k.unwrap()].unwrap().dev
                && best.unwrap().prefix_len == utf8_text(ms[best_k.unwrap()].unwrap().path).len()
                && best.unwrap().fs.mounted() && ms[best_k.unwrap()] is Some
                && best.unwrap().fs == ms[best_k.unwrap()].unwrap().fs,
        decreases fs.mounts.len() - k,
    {
        if let Some(m) = &fs.mounts[k] {
            let mp = utf8_or_empty(m.path.as_slice()).as_bytes();
            let hit = bytes_eq(path, mp) || (starts_with(path, mp) && path.len() > mp.len() && path[mp.len()] == 47u8);
            proof {
                assert(ms[k as int] == Some(m.view()));
                assert(fs.mounts@[k as int] is Some ==> fs.mounts@[k as int].unwrap().wf());
            }
            if hit && mp.len() > best_len {
                best = Some(MountLookup { fs: m.fs, prefix_len: mp.len(), dev: m.dev });
                best_len = mp.len();
                proof {
                    best_k = Some(k as int);
                }
            }
        }
        k += 1;
    }
    best
}

/// The parent directory and the name of the mount point `mp`: the text
/// before and after its last slash (the parent of a top-level name is
/// `/`).
pub open spec fn split_parent(mp: Seq<u8>) -> Option<(Seq<u8>, Seq<u8>)> {
    match last_index_of(mp, 47) {
        None => None,
        Some(s) => Some((if s == 0 { seq![47u8] } else { mp.subrange(0, s) }, mp.subrange(s + 1, mp.len() as int))),
    }
}

/// The entries that stand for the mount points whose parent is `parent`,
/// from slot `k` on.
pub open spec fn mount_children(ms: Seq<Option<MountView>>, parent: Seq<u8>, k: int) -> Seq<(Seq<u8>, FileType)>
    decreases ms.len() - k,
{
    if k >= ms.len() || k < 0 {
        Seq::empty()
    } else if ms[k] is Some && split_parent(utf8_text(ms[k].unwrap().path)) is Some
        && split_parent(utf8_text(ms[k].unwrap().path)).unwrap().0 == parent {
        seq![(cut(split_parent(utf8_text(ms[k].unwrap().path)).unwrap().1, NAME_MAX as int), FileType::Directory)]
            + mount_children(ms, parent, k + 1)
    } else {
        mount_children(ms, parent, k + 1)
    }
}

/// The mount points directly below `parent_path`, as directory entries
/// (names kept to [`NAME_MAX`]` - 1` bytes).
pub fn list_mount_children(fs: &Vfs, parent_path: &str) -> (r: Vec<DirEntry>)
    requires
        fs.wf(),
    ensures
        crate::fs::dir_entry_views(r@) == mount_children(fs.spec_mounts(), parent_path.spec_bytes(), 0),
{
    let parent = parent_path.as_bytes();
    let ghost ms = fs.spec_mounts();
    let ghost total = mount_children(ms, parent@, 0);
    let mut out: Vec<DirEntry> = Vec::new();
    let mut k: usize = 0;
    proof {
        assert(crate::fs::dir_entry_views(out@) =~= Seq::<(Seq<u8>, FileType)>::empty());
    }
    while k < fs.mounts.len()
        invariant
            fs.wf(),
            ms == fs.spec_mounts(),
            k <= fs.mounts.len(),
            total == crate::fs::dir_entry_views(out@) + mount_children(ms, parent@, k as int),
        decreases fs.mounts.len() - k,
    {
        let ghost before = crate::fs::dir_entry_views(out@);
        let mut pushed = false;
        if let Some(m) = &fs.mounts[k] {
            let mp = utf8_or_empty(m.path.as_slice()).as_bytes();
            let ghost mpv = utf8_text(m.path@);
            proof {
                assert(ms[k as int] == Some(m.view()));
                assert(mp@ == mpv);
                lemma_last_index(mp@, 47u8);
            }
            match rfind_byte(mp, 47u8) {
                Some(slash) => {
                    proof {
                        assert(last_index_of(mpv, 47u8) == Some(slash as int));
                        assert(slash < mp.len());
                    }
                    let root: [u8; 1] = [47u8];
                    let mp_parent: &[u8] = if slash == 0 { root.as_slice() } else { vstd::slice::slice_subrange(mp, 0, slash) };
                    let name = vstd::slice::slice_subrange(mp, slash + 1, mp.len());
                    proof {
                        if slash == 0 {
                            assert(mp_parent@ =~= seq![47u8]);
                        }
                        assert(split_parent(mpv) == Some((mp_parent@, name@)));
                    }
                    if bytes_eq(mp_parent, parent) {
                        let e = DirEntry { name: copy_prefix(name, NAME_MAX - 1), file_type: FileType::Directory };
                        out.push(e);
                        pushed = true;
                        proof {
                            assert(e.name@ =~= cut(name@, NAME_MAX as int));
                            assert(crate::fs::dir_entry_views(out@) =~= before + seq![(e.name@, e.file_type)]);
                        }
                    }
                },
                None => {
                    proof {
                        assert(split_parent(mpv) is None);
                    }
                },
            }
        }
        proof {
            if !pushed {
                assert(before =~= before + Seq::<(Seq<u8>, FileType)>::empty());
            }
        }
        k += 1;
    }
    out
}

/// `path` names a directory that a volume may be attached at: not `/`,
/// no trailing slash, a last component of 1 to [`NAME_MAX`]` - 1` bytes,
/// and an existing directory above it.
pub open spec fn valid_target_spec(fs: Vfs, path: Seq<u8>) -> bool {
    &&& path != seq![47u8]
    &&& !(path.len() > 0 && path.last() == 47)
    &&& last_index_of(path, 47) is Some
    &&& ({
        let s = last_index_of(path, 47).unwrap();
        let name = path.subrange(s + 1, path.len() as int);
        let parent = if s == 0 { seq![47u8] } else { path.subrange(0, s) };
        &&& 0 < name.len() < NAME_MAX
        &&& resolve_spec(fs, parent) is Ok
        &&& fs.node(resolve_spec(fs, parent)->Ok_0).is_dir()
    })
}

pub proof fn lemma_last_index(s: Seq<u8>, c: u8)
    ensures
        last_index_of(s, c) is Some ==> {
            let i = last_index_of(s, c).unwrap();
            0 <= i < s.len() && s[i] == c && forall|j: int| i < j < s.len() ==> s[j] != c
        },
        last_index_of(s, c) is None ==> forall|j: int| 0 <= j < s.len() ==> s[j] != c,
    decreases s.len(),
{
    if s.len() > 0 && s.last() != c {
        lemma_last_index(s.drop_last(), c);
        assert forall|j: int| 0 <= j < s.len() - 1 implies s.drop_last()[j] == s[j] by {}
    }
}

/// Whether `path` is a directory that a volume may be attached at.
pub fn valid_mount_target(fs: &Vfs, path: &[u8]) -> (r: bool)
    requires
        fs.wf(),
    ensures
        r == valid_target_spec(*fs, path@),
{
    if path.len() == 1 && path[0] == 47u8 {
        proof {
            assert(path@ =~= seq![47u8]);
        }
        return false;
    }
    proof {
        if path@ == seq![47u8] {
            assert(path@.len() == 1);
        }
    }
    if path.len() > 0 && path[path.len() - 1] == 47u8 {
        return false;
    }
    let slash = match rfind_byte(path, 47u8) {
        Some(s) => s,
        None => return false,
    };
    proof {
        lemma_last_index(path@, 47u8);
    }
    let name = vstd::slice::slice_subrange(path, slash + 1, path.len());
    if name.len() == 0 || name.len() >= NAME_MAX {
        return false;
    }
    let root: [u8; 1] = [47u8];
    let parent: &[u8] = if slash == 0 { root.as_slice() } else { vstd::slice::slice_subrange(path, 0, slash) };
    proof {
        if slash == 0 {
            assert(parent@ =~= seq![47u8]);
        }
    }
    match resolve_bytes(fs, parent) {
        Ok(node) => {
            match node_file_type(fs, node) {
                Ok(FileType::Directory) => true,
                _ => false,
            }
        },
        Err(_) => false,
    }
}

pub open spec fn is_digit(b: u8) -> bool {
    48 <= b <= 57
}

/// The decimal value of `s[k..]` read after `acc`, or none when a byte is
/// not a digit or the value passes `usize::MAX`.
pub open spec fn decimal_from(s: Seq<u8>, k: int, acc: int) -> Option<usize>
    decreases s.len() - k,
{
    if k >= s.len() {
        Some(acc as usize)
    } else if !is_digit(s[k]) {
        None
    } else {
        let v = acc * 10 + (s[k] - 48);
        if v > usize::MAX {
            None
        } else {
            decimal_from(s, k + 1, v)
        }
    }
}

/// The "blk" name of a block device: its index.
pub open spec fn blk_index(name: Seq<u8>) -> Option<usize> {
    if name.len() <= 3 || !has_prefix(name, seq![98u8, 108u8, 107u8]) {
        None
    } else {
        decimal_from(name, 3, 0)
    }
}

/// The index `n` of a block device named `blk<n>`.
pub fn parse_blk_name(name: &[u8]) -> (r: Option<usize>)
    ensures
        r == blk_index(name@),
{
    let blk: [u8; 3] = [98u8, 108u8, 107u8];
    proof {
        assert(blk@ =~= seq![98u8, 108u8, 107u8]);
    }
    if !starts_with(name, blk.as_slice()) {
        return None;
    }
    if name.len() == 3 {
        return None;
    }
    let mut value: usize = 0;
    let mut k: usize = 3;
    while k < name.len()
        invariant
            3 <= k <= name.len(),
            blk_index(name@) == decimal_from(name@, k as int, value as int),
        decreases name.len() - k,
    {
        let b = name[k];
        if b < 48u8 || b > 57u8 {
            return None;
        }
        let d = (b - 48u8) as usize;
        if value > (usize::MAX - d) / 10 {
            proof {
                assert(value * 10 + d > usize::MAX) by (nonlinear_arith)
                    requires
                        value > (usize::MAX - d) / 10,
                        d <= 9,
                ;
            }
            return None;
        }
        proof {
            assert(value * 10 + d <= usize::MAX) by (nonlinear_arith)
                requires
                    value <= (usize::MAX - d) / 10,
                    d <= 9,
            ;
        }
        value = value * 10 + d;
        k += 1;
    }
    Some(value)
}

/// The index of the block device named by `dev_path` (`/dev/blk<n>`),
/// when there are more than `n` of them.
pub open spec fn device_index(dev_path: Seq<u8>, count: int) -> Option<usize> {
    let dev = seq![47u8, 100u8, 101u8, 118u8, 47u8];
    if !has_prefix(dev_path, dev) {
        None
    } else {
        match blk_index(dev_path.subrange(5, dev_path.len() as int)) {
            Some(n) => if n < count { Some(n) } else { None },
            None => None,
        }
    }
}

/// The index of the block device named by `dev_path`, among `count`.
pub fn find_block_device(dev_path: &[u8], count: usize) -> (r: Option<usize>)
    ensures
        r == device_index(dev_path@, count as int),
{
    let dev: [u8; 5] = [47u8, 100u8, 101u8, 118u8, 47u8];
    proof {
        assert(dev@ =~= seq![47u8, 100u8, 101u8, 118u8, 47u8]);
    }
    if !starts_with(dev_path, dev.as_slice()) {
        return None;
    }
    let name = vstd::slice::slice_subrange(dev_path, 5, dev_path.len());
    match parse_blk_name(name) {
        Some(n) => if n < count { Some(n) } else { None },
        None => None,
    }
}

/// The geometry of the exFAT volume of `dev`, read from its boot sector;
/// an error when the sector cannot be read or is no exFAT boot sector
/// that this driver reads.
pub fn try_mount_exfat<D: BlockDev>(dev: &D) -> (r: Result<ExfatFs, ()>)
    ensures
        r is Ok ==> r.unwrap().mounted(),
        r is Ok && described(dev) ==> boot_ok(dev.spec_sector(0)) && r.unwrap() == ExfatFs::from_boot(
            dev.spec_sector(0),
        ).0,
        reliable(dev) ==> (r is Ok <==> boot_ok(dev.spec_sector(0))),
{
    let mut efs = ExfatFs::new();
    match efs.mount(dev) {
        Ok(()) => Ok(efs),
        Err(()) => Err(()),
    }
}

/// Why a mount request is refused before any device is read.
pub open spec fn mount_precheck(fs: Vfs, dev_path: Seq<u8>, mount_path: Seq<u8>, count: int) -> Option<MountError> {
    if mount_path.len() == 0 || mount_path[0] != 47 || mount_path.len() >= MOUNT_PATH_MAX {
        Some(MountError::InvalidTarget)
    } else if !valid_target_spec(fs, mount_path) {
        Some(MountError::InvalidTarget)
    } else if device_index(dev_path, count) is None {
        Some(MountError::NoBlockDevice)
    } else {
        None
    }
}

/// The slot that a mount of `mount_path` takes in `ms`, or why it is
/// refused: the path is mounted already, or no slot is free.
pub open spec fn mount_slot(ms: Seq<Option<MountView>>, mount_path: Seq<u8>) -> Result<int, MountError> {
    if first_holding(ms, mount_path, 0) is Some {
        Err(MountError::TargetBusy)
    } else {
        match first_free(ms, 0) {
            None => Err(MountError::NoSpace),
            Some(k) => Ok(k),
        }
    }
}

/// Why mounting a device that reads reliably as sector 0 `s0` is refused
/// once the request passed its checks (`None`: it is not): an unsupported
/// file system unless `s0` looks like and is an exFAT boot sector, else
/// what the table says.
pub open spec fn mount_refusal(ms: Seq<Option<MountView>>, mount_path: Seq<u8>, s0: Seq<u8>) -> Option<MountError> {
    if !looks_exfat(s0) || !boot_ok(s0) {
        Some(MountError::UnsupportedFs)
    } else {
        match mount_slot(ms, mount_path) {
            Err(e) => Some(e),
            Ok(_) => None,
        }
    }
}

/// Mount the exFAT volume of the block device named `dev_path` (among
/// `devs`, in driver order) at `mount_path`. A refused mount leaves the
/// table as it was; a read that fails is a timeout; a device that holds no
/// exFAT volume is unsupported.
pub fn mount_fs<D: BlockDev>(fs: &mut Vfs, dev_path: &str, mount_path: &str, devs: &Vec<D>) -> (r: Result<(), MountError>)
    requires
        old(fs).wf(),
    ensures
        final(fs).wf(),
        final(fs).spec_nodes() == old(fs).spec_nodes(),
        final(fs).spec_root() == old(fs).spec_root(),
        r is Err ==> final(fs).spec_mounts() == old(fs).spec_mounts(),
        match mount_precheck(*old(fs), dev_path.spec_bytes(), mount_path.spec_bytes(), devs.len() as int) {
            Some(e) => r == Err::<(), MountError>(e),
            None => {
                let ms = old(fs).spec_mounts();
                let d = device_index(dev_path.spec_bytes(), devs.len() as int).unwrap();
                let dev = devs@[d as int];
                &&& r == Err::<(), MountError>(MountError::IoTimeout) ==> !dev.spec_reliable()
                &&& r == Err::<(), MountError>(MountError::TargetBusy) ==> mount_slot(ms, mount_path.spec_bytes())
                    == Err::<int, MountError>(MountError::TargetBusy)
                &&& r == Err::<(), MountError>(MountError::NoSpace) ==> mount_slot(ms, mount_path.spec_bytes())
                    == Err::<int, MountError>(MountError::NoSpace)
                &&& r is Ok ==> mount_slot(ms, mount_path.spec_bytes()) is Ok && final(fs).spec_mounts() == ms.update(
                    mount_slot(ms, mount_path.spec_bytes())->Ok_0,
                    Some(MountView {
                        source: cut(dev_path.spec_bytes(), MOUNT_PATH_MAX as int),
                        path: cut(mount_path.spec_bytes(), MOUNT_PATH_MAX as int),
                        dev: d,
                        fs: final(fs).spec_mounts()[mount_slot(ms, mount_path.spec_bytes())->Ok_0].unwrap().fs,
                    }),
                )
                &&& r is Ok ==> final(fs).spec_mounts()[mount_slot(ms, mount_path.spec_bytes())->Ok_0].unwrap().fs.mounted()
                &&& r is Ok && described(&dev) ==> final(fs).spec_mounts()[mount_slot(ms, mount_path.spec_bytes())->Ok_0].unwrap().fs
                    == ExfatFs::from_boot(dev.spec_sector(0)).0
                &&& reliable(&dev) ==> match mount_refusal(ms, mount_path.spec_bytes(), dev.spec_sector(0)) {
                    Some(e) => r == Err::<(), MountError>(e),
                    None => r is Ok,
                }
            },
        },
{
    let mp = mount_path.as_bytes();
    if mp.len() == 0 || mp[0] != 47u8 || mp.len() >= MOUNT_PATH_MAX {
        return Err(MountError::InvalidTarget);
    }
    if !valid_mount_target(fs, mp) {
        return Err(MountError::InvalidTarget);
    }
    let idx = match find_block_device(dev_path.as_bytes(), devs.len()) {
        Some(i) => i,
        None => return Err(MountError::NoBlockDevice),
    };
    let dev = &devs[idx];
    let detected = detect_fs(dev);
    if !detected.sector0_valid {
        return Err(MountError::IoTimeout);
    }
    if detected.fs_type != FsType::Exfat {
        return Err(MountError::UnsupportedFs);
    }
    let efs = match try_mount_exfat(dev) {
        Ok(f) => f,
        Err(()) => return Err(MountError::UnsupportedFs),
    };
    let ghost ms = fs.spec_mounts();
    proof {
        lemma_first_free(ms, 0);
    }
    let r = register_mount(fs, dev_path, mount_path, efs, idx);
    proof {
        assert(*dev == devs@[idx as int]);
        lemma_first_holding(ms, mount_path.spec_bytes(), 0);
    }
    r
}

/// The part of `path` after the first `prefix_len` bytes, with its leading
/// slashes removed.
pub open spec fn rel_path(path: Seq<u8>, prefix_len: int) -> Seq<u8> {
    crate::text::trim_leading(path.subrange(prefix_len, path.len() as int), 47)
}

/// The path below the mount point, without leading slashes.
fn rel_of<'a>(path: &'a [u8], prefix_len: usize) -> (r: &'a [u8])
    requires
        prefix_len <= path.len(),
    ensures
        r@ == rel_path(path@, prefix_len as int),
{
    let rest = vstd::slice::slice_subrange(path, prefix_len, path.len());
    crate::text::trim_leading_exec(rest, 47u8)
}

/// The name of an exFAT entry as kept in a listing: at most
/// [`NAME_MAX`]` - 1` bytes.
fn listing_name(name: &Vec<u8>) -> (r: Vec<u8>)
    ensures
        r@ == cut(name@, NAME_MAX as int),
{
    copy_prefix(name.as_slice(), NAME_MAX - 1)
}

/// The path inside the volume that serves `path`, where one does and its
/// device is among the first `ndevs`.
pub open spec fn served_rel(ms: Seq<Option<MountView>>, path: Seq<u8>, ndevs: int) -> Option<Seq<u8>> {
    match best_mount(ms, path, 0, None, 0) {
        None => None,
        Some(k) => {
            let pl = utf8_text(ms[k].unwrap().path).len();
            if ms[k].unwrap().dev < ndevs && pl <= path.len() { Some(rel_path(path, pl as int)) } else { None }
        },
    }
}

/// The slot of the volume that serves `path` when its device is among the
/// first `ndevs` and the mount point is no longer than the path.
pub open spec fn serving_slot(ms: Seq<Option<MountView>>, path: Seq<u8>, ndevs: int) -> Option<int> {
    match best_mount(ms, path, 0, None, 0) {
        None => None,
        Some(k) => if ms[k].unwrap().dev < ndevs && utf8_text(ms[k].unwrap().path).len() <= path.len() {
            Some(k)
        } else {
            None
        },
    }
}

/// The entry that `path` names inside the volume of mount `m` on `dev`.
pub open spec fn volume_entry<D: BlockDev>(m: MountView, dev: &D, path: Seq<u8>) -> Option<EntryView> {
    let rel = utf8_text(rel_path(path, utf8_text(m.path).len() as int));
    m.fs.find_walk(dev, path_parts(rel), 0, dir_entry_view(m.fs.spec_root()))
}

/// A listing line for the exFAT entry `e`.
pub open spec fn listing_line(e: EntryView) -> (Seq<u8>, FileType) {
    (cut(e.name, NAME_MAX as int), if e.is_dir { FileType::Directory } else { FileType::File })
}

/// What listing `path` in the volume of mount `m` on a reliable `dev`
/// gives: the entry itself for a file, the directory's entries for a
/// directory.
pub open spec fn volume_listing<D: BlockDev>(m: MountView, dev: &D, path: Seq<u8>) -> Option<Seq<(Seq<u8>, FileType)>> {
    match volume_entry(m, dev, path) {
        None => None,
        Some(e) => if !e.is_dir {
            Some(seq![listing_line(e)])
        } else {
            Some(m.fs.dir_listing(dev, dir_entry_view(e.first_cluster), e.first_cluster, CHAIN_BUDGET as nat).map_values(
                |x: EntryView| listing_line(x),
            ))
        },
    }
}

/// The listing of `path` inside a mounted volume: the entry itself for a
/// file, the entries of a directory otherwise; none when no volume serves
/// the path or the path is not found.
pub fn list_path<D: BlockDev>(fs: &Vfs, path: &str, devs: &Vec<D>) -> (r: Option<Vec<DirEntry>>)
    requires
        fs.wf(),
    ensures
        match served_rel(fs.spec_mounts(), path.spec_bytes(), devs.len() as int) {
            None => r is None,
            Some(rel) => path_parts(utf8_text(rel)).len() == 0 ==> r is Some,
        },
        match serving_slot(fs.spec_mounts(), path.spec_bytes(), devs.len() as int) {
            None => true,
            Some(k) => {
                let m = fs.spec_mounts()[k].unwrap();
                reliable(&devs@[m.dev as int]) ==> match volume_listing(m, &devs@[m.dev as int], path.spec_bytes()) {
                    None => r is None,
                    Some(l) => r is Some && dir_entry_views(r.unwrap()@) == l,
                }
            },
        },
{
    let p = path.as_bytes();
    let m = match find_mount_for_path(fs, p) {
        Some(m) => m,
        None => return None,
    };
    if m.dev >= devs.len() || m.prefix_len > p.len() {
        return None;
    }
    let dev = &devs[m.dev];
    let rel = rel_of(p, m.prefix_len);
    let rel_str = utf8_or_empty(rel);
    let entry = match m.fs.find_entry(dev, rel_str) {
        Some(e) => e,
        None => return None,
    };
    let mut out: Vec<DirEntry> = Vec::new();
    if !entry.is_dir {
        out.push(DirEntry { name: listing_name(&entry.name), file_type: FileType::File });
        proof {
            assert(dir_entry_views(out@) =~= seq![listing_line(entry@)]);
        }
        return Some(out);
    }
    let (entries, _) = m.fs.list_dir(dev, entry.first_cluster);
    let ghost ev = entry_views(entries@);
    proof {
        assert(dir_entry_views(out@) =~= ev.subrange(0, 0).map_values(|x: EntryView| listing_line(x)));
    }
    let mut k: usize = 0;
    while k < entries.len()
        invariant
            k <= entries.len(),
            ev == entry_views(entries@),
            dir_entry_views(out@) == ev.subrange(0, k as int).map_values(|x: EntryView| listing_line(x)),
        decreases entries.len() - k,
    {
        let e = &entries[k];
        let ghost before = out@;
        let line = DirEntry {
            name: listing_name(&e.name),
            file_type: if e.is_dir { FileType::Directory } else { FileType::File },
        };
        proof {
            assert(ev[k as int] == e@);
            assert((line.name@, line.file_type) == listing_line(e@));
        }
        out.push(line);
        proof {
            assert(dir_entry_views(out@) =~= dir_entry_views(before).push(listing_line(ev[k as int])));
            assert(ev.subrange(0, k + 1).map_values(|x: EntryView| listing_line(x)) =~= ev.subrange(0, k as int).map_values(
                |x: EntryView| listing_line(x),
            ).push(listing_line(ev[k as int])));
            assert(dir_entry_views(out@) =~= ev.subrange(0, k + 1).map_values(|x: EntryView| listing_line(x)));
        }
        k += 1;
    }
    proof {
        assert(ev.subrange(0, ev.len() as int) =~= ev);
    }
    Some(out)
}

/// The kind of the node at `path`: in the tree first, else in the volume
/// that serves the path.
pub fn path_file_type<D: BlockDev>(fs: &Vfs, path: &str, devs: &Vec<D>) -> (r: Option<FileType>)
    requires
        fs.wf(),
    ensures
        resolve_spec(*fs, path.spec_bytes()) is Ok ==> r == Some(
            if fs.node(resolve_spec(*fs, path.spec_bytes())->Ok_0).is_dir() { FileType::Directory } else { FileType::File },
        ),
        resolve_spec(*fs, path.spec_bytes()) is Err && best_mount(fs.spec_mounts(), path.spec_bytes(), 0, None, 0) is None
            ==> r is None,
        resolve_spec(*fs, path.spec_bytes()) is Err ==> match serving_slot(fs.spec_mounts(), path.spec_bytes(), devs.len() as int) {
            None => r is None,
            Some(k) => {
                let m = fs.spec_mounts()[k].unwrap();
                reliable(&devs@[m.dev as int]) ==> r == match volume_entry(m, &devs@[m.dev as int], path.spec_bytes()) {
                    None => None,
                    Some(e) => Some(if e.is_dir { FileType::Directory } else { FileType::File }),
                }
            },
        },
{
    let p = path.as_bytes();
    if let Ok(node) = resolve_bytes(fs, p) {
        return match node_file_type(fs, node) {
            Ok(t) => Some(t),
            Err(_) => None,
        };
    }
    let m = match find_mount_for_path(fs, p) {
        Some(m) => m,
        None => return None,
    };
    if m.dev >= devs.len() || m.prefix_len > p.len() {
        return None;
    }
    let dev = &devs[m.dev];
    let rel = rel_of(p, m.prefix_len);
    let entry = match m.fs.find_entry(dev, utf8_or_empty(rel)) {
        Some(e) => e,
        None => return None,
    };
    Some(if entry.is_dir { FileType::Directory } else { FileType::File })
}

/// Read the start of the file at `path` in a mounted volume into `buf`;
/// returns how many bytes were read (0 when there is no such file).
pub fn read_mount_file<D: BlockDev>(fs: &Vfs, path: &str, buf: &mut [u8], devs: &Vec<D>) -> (r: usize)
    requires
        fs.wf(),
    ensures
        final(buf)@.len() == old(buf)@.len(),
        r <= old(buf)@.len(),
        match served_rel(fs.spec_mounts(), path.spec_bytes(), devs.len() as int) {
            None => r == 0 && final(buf)@ == old(buf)@,
            Some(rel) => rel.len() == 0 ==> r == 0 && final(buf)@ == old(buf)@,
        },
        r > 0 ==> final(buf)@.subrange(r as int, old(buf)@.len() as int) == old(buf)@.subrange(
            r as int,
            old(buf)@.len() as int,
        ),
        match serving_slot(fs.spec_mounts(), path.spec_bytes(), devs.len() as int) {
            None => true,
            Some(k) => {
                let m = fs.spec_mounts()[k].unwrap();
                let dev = &devs@[m.dev as int];
                reliable(dev) && rel_path(path.spec_bytes(), utf8_text(m.path).len() as int).len() > 0 ==> match volume_entry(
                    m,
                    dev,
                    path.spec_bytes(),
                ) {
                    Some(e) => if e.is_dir {
                        r == 0 && final(buf)@ == old(buf)@
                    } else {
                        let want = if e.data_length < old(buf)@.len() { e.data_length as nat } else { old(buf)@.len() };
                        let got = m.fs.chain_bytes(dev, e.no_fat_chain, e.first_cluster, e.data_length, e.first_cluster, want);
                        &&& r == got.len()
                        &&& final(buf)@.subrange(0, r as int) == got
                        &&& final(buf)@.subrange(r as int, old(buf)@.len() as int) == old(buf)@.subrange(
                            r as int,
                            old(buf)@.len() as int,
                        )
                    },
                    None => r == 0 && final(buf)@ == old(buf)@,
                }
            },
        },
{
    let p = path.as_bytes();
    let m = match find_mount_for_path(fs, p) {
        Some(m) => m,
        None => return 0,
    };
    if m.dev >= devs.len() || m.prefix_len > p.len() {
        return 0;
    }
    let rel = rel_of(p, m.prefix_len);
    if rel.len() == 0 {
        return 0;
    }
    let dev = &devs[m.dev];
    match m.fs.find_entry(dev, utf8_or_empty(rel)) {
        Some(entry) => {
            if entry.is_dir {
                0
            } else {
                match m.fs.read_file(dev, entry.first_cluster, entry.data_length, entry.no_fat_chain, buf) {
                    Ok(n) => n,
                    Err(()) => 0,
                }
            }
        },
        None => 0,
    }
}

} // verus!
