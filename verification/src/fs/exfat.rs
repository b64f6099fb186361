//! exFAT, read only: the boot sector, the cluster chain, directory entry
//! sets and file data of an exFAT volume on a sector device.

use vstd::prelude::*;
use vstd::string::StringSliceAdditionalSpecFns;
use crate::text::{bytes_eq, utf8_text};

verus! {

pub const ENTRY_TYPE_UNUSED: u8 = 0x00;
pub const ENTRY_TYPE_FILE: u8 = 0x85;
pub const ENTRY_TYPE_STREAM: u8 = 0xC0;
pub const ENTRY_TYPE_NAME: u8 = 0xC1;
pub const ENTRY_TYPE_VOLUME_LABEL: u8 = 0x83;
pub const STREAM_FLAG_NO_FAT_CHAIN: u8 = 2;
pub const ATTR_READ_ONLY: u16 = 0x01;
pub const ATTR_HIDDEN: u16 = 0x02;
pub const ATTR_SYSTEM: u16 = 0x04;
pub const ATTR_DIRECTORY: u16 = 0x10;
pub const ATTR_ARCHIVE: u16 = 0x20;
pub const SECTOR_SIZE: usize = 512;
pub const MAX_CLUSTER_BYTES: usize = 4096;
/// The most clusters that a directory walk reads: a chain visits each
/// cluster number at most once.
pub const CHAIN_BUDGET: u64 = 0x1_0000_0000;
/// The most components of a path that a lookup follows.
pub const MAX_PATH_PARTS: usize = 8;

/// A device of 512-byte sectors, which is not written while a volume on
/// it is read.
pub trait BlockDev {
    /// What sector `sector` holds, for a device that describes its
    /// contents; one that does not gives the empty sequence, of which its
    /// reads promise nothing.
    open spec fn spec_sector(&self, sector: u64) -> Seq<u8> {
        Seq::empty()
    }

    /// Whether every read of a whole sector succeeds, for a device that
    /// states it; false for one that does not.
    open spec fn spec_reliable(&self) -> bool {
        false
    }

    /// Read sector `sector` into `buf`, a buffer of one sector; a read may
    /// fail unless the device is reliable, and one of a described sector
    /// that succeeds gives what the sector holds.
    fn read_sector(&self, sector: u64, buf: &mut [u8]) -> (r: Result<(), ()>)
        ensures
            final(buf)@.len() == old(buf)@.len(),
            r is Ok && old(buf)@.len() == 512 && self.spec_sector(sector).len() == 512 ==> final(buf)@
                == self.spec_sector(sector),
            self.spec_reliable() && old(buf)@.len() == 512 ==> r is Ok,
    ;
}

/// Every sector of `dev` is described: 512 bytes.
pub open spec fn described<D: BlockDev>(dev: &D) -> bool {
    forall|s: u64| #[trigger] dev.spec_sector(s).len() == 512
}

/// Every sector of `dev` is described, and every read of one succeeds.
pub open spec fn reliable<D: BlockDev>(dev: &D) -> bool {
    described(dev) && dev.spec_reliable()
}

/// The bytes of the `n` sectors of `dev` from `start` on, in order.
pub open spec fn sectors_from<D: BlockDev>(dev: &D, start: int, n: nat) -> Seq<u8>
    decreases n,
{
    if n == 0 {
        Seq::empty()
    } else {
        sectors_from(dev, start, (n - 1) as nat) + dev.spec_sector((start + n - 1) as u64)
    }
}

/// The little-endian 16-bit word at `i`.
pub open spec fn le16(b: Seq<u8>, i: int) -> u16 {
    (b[i] as int + b[i + 1] as int * 0x100) as u16
}

/// The little-endian 32-bit word at `i`.
pub open spec fn le32(b: Seq<u8>, i: int) -> u32 {
    (le16(b, i) as int + le16(b, i + 2) as int * 0x1_0000) as u32
}

/// The little-endian 64-bit word at `i`.
pub open spec fn le64(b: Seq<u8>, i: int) -> u64 {
    (le32(b, i) as int + le32(b, i + 4) as int * 0x1_0000_0000) as u64
}

pub fn le_u16(buf: &[u8], offset: usize) -> (r: u16)
    requires
        offset + 2 <= buf.len(),
    ensures
        r == le16(buf@, offset as int),
{
    (buf[offset] as u16) + (buf[offset + 1] as u16) * 0x100
}

pub fn le_u32(buf: &[u8], offset: usize) -> (r: u32)
    requires
        offset + 4 <= buf.len(),
    ensures
        r == le32(buf@, offset as int),
{
    (le_u16(buf, offset) as u32) + (le_u16(buf, offset + 2) as u32) * 0x1_0000
}

pub fn le_u64(buf: &[u8], offset: usize) -> (r: u64)
    requires
        offset + 8 <= buf.len(),
    ensures
        r == le64(buf@, offset as int),
{
    (le_u32(buf, offset) as u64) + (le_u32(buf, offset + 4) as u64) * 0x1_0000_0000
}

/// A file or directory of the volume.
pub struct ExfatEntry {
    pub name: Vec<u8>,
    pub first_cluster: u32,
    pub data_length: u64,
    pub is_dir: bool,
    pub attributes: u16,
    pub no_fat_chain: bool,
}

/// What an entry holds.
pub struct EntryView {
    pub name: Seq<u8>,
    pub first_cluster: u32,
    pub data_length: u64,
    pub is_dir: bool,
    pub attributes: u16,
    pub no_fat_chain: bool,
}

impl View for ExfatEntry {
    type V = EntryView;

    open spec fn view(&self) -> EntryView {
        EntryView {
            name: self.name@,
            first_cluster: self.first_cluster,
            data_length: self.data_length,
            is_dir: self.is_dir,
            attributes: self.attributes,
            no_fat_chain: self.no_fat_chain,
        }
    }
}

pub open spec fn entry_views(s: Seq<ExfatEntry>) -> Seq<EntryView> {
    s.map_values(|e: ExfatEntry| e@)
}

impl ExfatEntry {
    pub fn is_read_only(&self) -> (r: bool)
        ensures
            r == (self.attributes & ATTR_READ_ONLY != 0),
    {
        self.attributes & ATTR_READ_ONLY != 0
    }

    pub fn is_hidden(&self) -> (r: bool)
        ensures
            r == (self.attributes & ATTR_HIDDEN != 0),
    {
        self.attributes & ATTR_HIDDEN != 0
    }

    pub fn is_system(&self) -> (r: bool)
        ensures
            r == (self.attributes & ATTR_SYSTEM != 0),
    {
        self.attributes & ATTR_SYSTEM != 0
    }

    pub fn is_archive(&self) -> (r: bool)
        ensures
            r == (self.attributes & ATTR_ARCHIVE != 0),
    {
        self.attributes & ATTR_ARCHIVE != 0
    }

    /// The entry that stands for a directory starting at `cluster`.
    pub fn dir_at(cluster: u32) -> (r: Self)
        ensures
            r@ == dir_entry_view(cluster),
    {
        ExfatEntry {
            name: Vec::new(),
            first_cluster: cluster,
            data_length: 0,
            is_dir: true,
            attributes: ATTR_DIRECTORY,
            no_fat_chain: false,
        }
    }
}

pub open spec fn dir_entry_view(cluster: u32) -> EntryView {
    EntryView {
        name: Seq::empty(),
        first_cluster: cluster,
        data_length: 0,
        is_dir: true,
        attributes: ATTR_DIRECTORY,
        no_fat_chain: false,
    }
}

// ---------------------------------------------------------------------
// Directory entry sets

/// The name characters of the name entry at byte `base`, from slot `k`
/// on, while `room` characters are still wanted: zero slots are skipped,
/// non-ASCII ones become `?`.
pub open spec fn name_chars(b: Seq<u8>, base: int, k: int, room: int) -> Seq<u8>
    decreases 15 - k,
{
    if k >= 15 || room <= 0 {
        Seq::empty()
    } else {
        let ch = le16(b, base + 2 + 2 * k);
        if ch != 0 {
            seq![if ch < 128 { ch as u8 } else { 63u8 }] + name_chars(b, base, k + 1, room - 1)
        } else {
            name_chars(b, base, k + 1, room)
        }
    }
}

/// The name gathered from the name entries from entry `j` on, and how many
/// name entries were read.
pub open spec fn name_scan(b: Seq<u8>, n: int, j: int, room: int) -> (Seq<u8>, nat)
    decreases n - j,
{
    if j >= n || room <= 0 || 32 * (j + 1) > b.len() || b[32 * j] != ENTRY_TYPE_NAME {
        (Seq::empty(), 0)
    } else {
        let c = name_chars(b, 32 * j, 0, room);
        let rest = name_scan(b, n, j + 1, room - c.len());
        (c + rest.0, rest.1 + 1)
    }
}

/// The entries found in the first `n` 32-byte entries of a directory
/// cluster `b`, from entry `i` on.
pub open spec fn scan(b: Seq<u8>, n: int, i: int) -> Seq<EntryView>
    decreases n - i,
{
    if i >= n || 32 * (i + 1) > b.len() {
        Seq::empty()
    } else {
        let t = b[32 * i];
        if t == ENTRY_TYPE_UNUSED {
            Seq::empty()
        } else if t == ENTRY_TYPE_FILE && i + 1 < n {
            if 32 * (i + 2) > b.len() {
                Seq::empty()
            } else if b[32 * (i + 1)] != ENTRY_TYPE_STREAM {
                scan(b, n, i + 1)
            } else {
                let s = 32 * (i + 1);
                let attrs = le16(b, 32 * i + 4);
                let nm = name_scan(b, n, i + 2, b[s + 3] as int);
                proof {
                    lemma_name_scan(b, n, i + 2, b[s + 3] as int);
                }
                let e = EntryView {
                    name: nm.0,
                    first_cluster: le32(b, s + 20),
                    data_length: le64(b, s + 24),
                    is_dir: attrs & ATTR_DIRECTORY != 0,
                    attributes: attrs,
                    no_fat_chain: b[s + 1] & STREAM_FLAG_NO_FAT_CHAIN != 0,
                };
                seq![e] + scan(b, n, i + 2 + nm.1)
            }
        } else {
            scan(b, n, i + 1)
        }
    }
}

pub proof fn lemma_name_chars_len(b: Seq<u8>, base: int, k: int, room: int)
    requires
        room >= 0,
    ensures
        name_chars(b, base, k, room).len() <= room,
    decreases 15 - k,
{
    if k < 15 && room > 0 {
        let ch = le16(b, base + 2 + 2 * k);
        if ch != 0 {
            lemma_name_chars_len(b, base, k + 1, room - 1);
        } else {
            lemma_name_chars_len(b, base, k + 1, room);
        }
    }
}

pub proof fn lemma_name_scan(b: Seq<u8>, n: int, j: int, room: int)
    requires
        room >= 0,
    ensures
        name_scan(b, n, j, room).0.len() <= room,
        j + name_scan(b, n, j, room).1 <= if j < n { n } else { j },
    decreases n - j,
{
    if !(j >= n || room <= 0 || 32 * (j + 1) > b.len() || b[32 * j] != ENTRY_TYPE_NAME) {
        lemma_name_chars_len(b, 32 * j, 0, room);
        let c = name_chars(b, 32 * j, 0, room);
        lemma_name_scan(b, n, j + 1, room - c.len());
    }
}

/// Append the characters of the name entry at byte `base` to `name`.
fn read_name_entry(b: &[u8], base: usize, name: &mut Vec<u8>, name_len: usize)
    requires
        base + 32 <= b.len(),
        old(name).len() <= name_len,
    ensures
        final(name)@ == old(name)@ + name_chars(b@, base as int, 0, name_len - old(name).len()),
{
    let ghost start = name@;
    let mut k: usize = 0;
    proof {
        assert(name@ =~= start + Seq::<u8>::empty());
    }
    while k < 15
        invariant
            base + 32 <= b.len(),
            k <= 15,
            start.len() <= name.len() <= name_len,
            name@ + name_chars(b@, base as int, k as int, name_len - name.len())
                == start + name_chars(b@, base as int, 0, name_len - start.len()),
        decreases 15 - k,
    {
        let ch = le_u16(b, base + 2 + 2 * k);
        if ch != 0 && name.len() < name_len {
            let c: u8 = if ch < 128 { ch as u8 } else { 63u8 };
            let ghost before = name@;
            name.push(c);
            proof {
                assert(name@ + name_chars(b@, base as int, k + 1, name_len - name.len())
                    =~= before + name_chars(b@, base as int, k as int, name_len - before.len()));
            }
        }
        k += 1;
    }
    proof {
        assert(name@ =~= name@ + name_chars(b@, base as int, 15, name_len - name.len()));
    }
}

/// The entries of a directory cluster `b` of `n` 32-byte entries: each
/// file entry followed by its stream extension and name entries gives one
/// entry; volume labels and stray entries are skipped; an unused entry
/// ends the list.
pub fn parse_dir_cluster(b: &[u8], n: usize) -> (r: Vec<ExfatEntry>)
    requires
        n <= b.len() / 32,
    ensures
        entry_views(r@) == scan(b@, n as int, 0),
{
    let mut out: Vec<ExfatEntry> = Vec::new();
    let mut i: usize = 0;
    let ghost total = scan(b@, n as int, 0);
    proof {
        assert(entry_views(out@) =~= Seq::<EntryView>::empty());
    }
    while i < n
        invariant
            n <= b.len() / 32,
            total == entry_views(out@) + scan(b@, n as int, i as int),
        ensures
            total == entry_views(out@),
        decreases n - i,
    {
        let ghost before = entry_views(out@);
        let t = b[32 * i];
        if t == ENTRY_TYPE_UNUSED {
            proof {
                assert(before =~= before + Seq::<EntryView>::empty());
            }
            break;
        }
        if t == ENTRY_TYPE_FILE && i + 1 < n {
            let s = 32 * (i + 1);
            if b[s] != ENTRY_TYPE_STREAM {
                i += 1;
                continue;
            }
            let attrs = le_u16(b, 32 * i + 4);
            let flags = b[s + 1];
            let name_len = b[s + 3] as usize;
            let first_cluster = le_u32(b, s + 20);
            let data_length = le_u64(b, s + 24);
            let mut name: Vec<u8> = Vec::new();
            let mut j = i + 2;
            let ghost nm = name_scan(b@, n as int, (i + 2) as int, name_len as int);
            proof {
                assert(name@ =~= Seq::<u8>::empty());
                assert(nm.0 =~= name@ + name_scan(b@, n as int, j as int, name_len - name.len()).0);
            }
            while j < n && name.len() < name_len && b[32 * j] == ENTRY_TYPE_NAME
                invariant
                    n <= b.len() / 32,
                    i + 2 <= j <= n,
                    name.len() <= name_len,
                    nm.0 == name@ + name_scan(b@, n as int, j as int, name_len - name.len()).0,
                    nm.1 == (j - (i + 2)) + name_scan(b@, n as int, j as int, name_len - name.len()).1,
                decreases n - j,
            {
                let ghost before_name = name@;
                read_name_entry(b, 32 * j, &mut name, name_len);
                proof {
                    lemma_name_chars_len(b@, 32 * j, 0, name_len - before_name.len());
                    let c = name_chars(b@, 32 * j, 0, name_len - before_name.len());
                    assert(name@ == before_name + c);
                    assert(name_scan(b@, n as int, j as int, name_len - before_name.len()).0
                        == c + name_scan(b@, n as int, j + 1, name_len - name.len()).0);
                    assert(nm.0 =~= name@ + name_scan(b@, n as int, j + 1, name_len - name.len()).0);
                }
                j += 1;
            }
            proof {
                assert(name_scan(b@, n as int, j as int, name_len - name.len()).1 == 0);
                assert(nm.0 =~= name@);
                lemma_name_scan(b@, n as int, (i + 2) as int, name_len as int);
            }
            let e = ExfatEntry {
                name,
                first_cluster,
                data_length,
                is_dir: attrs & ATTR_DIRECTORY != 0,
                attributes: attrs,
                no_fat_chain: flags & STREAM_FLAG_NO_FAT_CHAIN != 0,
            };
            out.push(e);
            proof {
                assert(entry_views(out@) =~= before + seq![e@]);
            }
            i = j;
            continue;
        }
        i += 1;
    }
    out
}

// ---------------------------------------------------------------------
// The boot sector

/// The boot sector fields of `s` that mounting checks.
pub open spec fn boot_oem_ok(s: Seq<u8>) -> bool {
    s.subrange(3, 11) == oem_name()
}

/// The volume name of an exFAT boot sector: "EXFAT" and three spaces.
pub open spec fn oem_name() -> Seq<u8> {
    seq![69u8, 88u8, 70u8, 65u8, 84u8, 32u8, 32u8, 32u8]
}

/// `s` is the boot sector of a volume that this driver can read: exFAT
/// name and signature, 512-byte sectors, clusters of at most 4096 bytes,
/// non-zero layout fields with the root directory inside the heap, and a
/// cluster count whose last cluster number (the count plus 1) fits 32 bits.
pub open spec fn boot_ok(s: Seq<u8>) -> bool {
    &&& s.len() >= 512
    &&& boot_oem_ok(s)
    &&& le16(s, 510) == 0xAA55
    &&& s[108] == 9
    &&& s[109] <= 3
    &&& le64(s, 72) != 0
    &&& s[110] != 0
    &&& le32(s, 80) != 0
    &&& le32(s, 84) != 0
    &&& le32(s, 88) != 0
    &&& le32(s, 92) != 0
    &&& le32(s, 92) <= 0xFFFF_FFFD
    &&& le32(s, 96) >= 2
    &&& (le32(s, 96) as int) < le32(s, 92) as int + 2
}

pub open spec fn pow2_spec(e: u8) -> u32 {
    if e == 0 { 1 } else if e == 1 { 2 } else if e == 2 { 4 } else { 8 }
}

/// A mounted-or-empty exFAT volume: the geometry read from its boot sector.
#[derive(Clone, Copy)]
pub struct ExfatFs {
    bytes_per_sector: u32,
    sectors_per_cluster: u32,
    cluster_heap_offset: u32,
    fat_offset: u32,
    root_dir_first_cluster: u32,
    cluster_count: u32,
}

impl ExfatFs {
    /// The geometry has been read from a valid boot sector.
    pub closed spec fn mounted(self) -> bool {
        &&& self.bytes_per_sector == 512
        &&& 1 <= self.sectors_per_cluster <= 8
    }

    pub closed spec fn spec_root(self) -> u32 {
        self.root_dir_first_cluster
    }

    pub closed spec fn spec_cluster_count(self) -> u32 {
        self.cluster_count
    }

    pub closed spec fn spec_heap(self) -> u32 {
        self.cluster_heap_offset
    }

    pub closed spec fn spec_fat(self) -> u32 {
        self.fat_offset
    }

    pub closed spec fn spec_spc(self) -> u32 {
        self.sectors_per_cluster
    }

    /// Bytes in a cluster.
    pub open spec fn cluster_bytes(self) -> int {
        512 * self.spec_spc()
    }

    /// The first sector of cluster `cluster` (0 for the reserved clusters).
    pub open spec fn cluster_sector(self, cluster: u32) -> int {
        if cluster < 2 { 0 } else { self.spec_heap() + (cluster - 2) * self.spec_spc() }
    }

    /// What cluster `cluster` of `dev` holds.
    pub open spec fn cluster_data<D: BlockDev>(self, dev: &D, cluster: u32) -> Seq<u8> {
        sectors_from(dev, self.cluster_sector(cluster), self.spec_spc() as nat)
    }

    /// The cluster after `cluster` that the FAT on `dev` names (0 for the
    /// end-of-chain and bad-cluster marks).
    pub open spec fn fat_next<D: BlockDev>(self, dev: &D, cluster: u32) -> u32 {
        let s = dev.spec_sector((self.spec_fat() + cluster / 128) as u64);
        let o = (cluster % 128) * 4;
        if le32(s, o) >= 0xFFFF_FFF8 { 0 } else { le32(s, o) }
    }

    /// The cluster after `cluster` of contiguous file data of
    /// `data_length` bytes from `first`: the next one while the data goes
    /// on, else 0.
    pub open spec fn contiguous_next(self, first: u32, data_length: u64, cluster: u32) -> u32 {
        let bpc = self.cluster_bytes();
        let clusters = if data_length == 0 { 1 } else { (data_length - 1) / bpc + 1 };
        let offset = if cluster >= first { cluster - first } else { 0 };
        if offset + 1 >= clusters { 0 } else if cluster == u32::MAX { 0 } else { (cluster + 1) as u32 }
    }

    /// The cluster after `cluster` in a chain that starts at `first`:
    /// contiguous when `no_fat_chain`, else along the FAT.
    pub open spec fn entry_next<D: BlockDev>(self, dev: &D, no_fat_chain: bool, first: u32, data_length: u64, cluster: u32) -> u32 {
        if no_fat_chain { self.contiguous_next(first, data_length, cluster) } else { self.fat_next(dev, cluster) }
    }

    /// The entries of directory `dir` from its cluster `cluster` on, along
    /// its chain, for at most `budget` clusters.
    pub open spec fn dir_listing<D: BlockDev>(self, dev: &D, dir: EntryView, cluster: u32, budget: nat) -> Seq<EntryView>
        decreases budget,
    {
        if cluster == 0 || budget == 0 {
            Seq::empty()
        } else {
            scan(self.cluster_data(dev, cluster), self.cluster_bytes() / 32, 0) + self.dir_listing(
                dev,
                dir,
                self.entry_next(dev, dir.no_fat_chain, dir.first_cluster, dir.data_length, cluster),
                (budget - 1) as nat,
            )
        }
    }

    /// The chain of directory `dir` from its cluster `cluster` on ends
    /// within `budget` clusters.
    pub open spec fn chain_ends<D: BlockDev>(self, dev: &D, dir: EntryView, cluster: u32, budget: nat) -> bool
        decreases budget,
    {
        if cluster == 0 {
            true
        } else if budget == 0 {
            false
        } else {
            self.chain_ends(
                dev,
                dir,
                self.entry_next(dev, dir.no_fat_chain, dir.first_cluster, dir.data_length, cluster),
                (budget - 1) as nat,
            )
        }
    }

    /// The entry that the path components `parts` from `i` on name, from
    /// directory `current`: each component is looked up in the listing of
    /// the directory reached so far (the last entry of that name counts);
    /// a file is found only as the last component, and a path that goes on
    /// past a file names nothing.
    pub open spec fn find_walk<D: BlockDev>(self, dev: &D, parts: Seq<Seq<u8>>, i: int, current: EntryView) -> Option<EntryView>
        decreases parts.len() - i,
    {
        if i >= parts.len() || i < 0 {
            Some(current)
        } else {
            let entries = self.dir_listing(dev, current, current.first_cluster, CHAIN_BUDGET as nat);
            match last_named_index(entries, parts[i]) {
                None => None,
                Some(k) => if entries[k].is_dir {
                    self.find_walk(dev, parts, i + 1, entries[k])
                } else if i + 1 == parts.len() {
                    Some(entries[k])
                } else {
                    None
                },
            }
        }
    }

    /// The first `want` bytes of the chain from `cluster` on (fewer where
    /// the chain ends first), cluster by cluster.
    pub open spec fn chain_bytes<D: BlockDev>(
        self,
        dev: &D,
        no_fat_chain: bool,
        first: u32,
        data_length: u64,
        cluster: u32,
        want: nat,
    ) -> Seq<u8>
        decreases want,
    {
        if cluster == 0 || want == 0 || self.spec_spc() == 0 {
            Seq::empty()
        } else {
            let take = if self.cluster_bytes() < want { self.cluster_bytes() } else { want as int };
            self.cluster_data(dev, cluster).subrange(0, take) + self.chain_bytes(
                dev,
                no_fat_chain,
                first,
                data_length,
                self.entry_next(dev, no_fat_chain, first, data_length, cluster),
                (want - take) as nat,
            )
        }
    }

    /// The geometry that the boot sector `s` describes: its root cluster,
    /// cluster count, heap and FAT offsets and sectors per cluster, read
    /// from the sector's little-endian fields.
    pub proof fn lemma_from_boot(s: Seq<u8>)
        ensures
            ExfatFs::from_boot(s).0.spec_root() == le32(s, 96),
            ExfatFs::from_boot(s).0.spec_cluster_count() == le32(s, 92),
            ExfatFs::from_boot(s).0.spec_heap() == le32(s, 88),
            ExfatFs::from_boot(s).0.spec_fat() == le32(s, 80),
            ExfatFs::from_boot(s).0.spec_spc() == pow2_spec(s[109]),
            s.len() >= 512 && boot_ok(s) ==> ExfatFs::from_boot(s).0.mounted(),
    {
    }

    /// The geometry that the boot sector `s` describes.
    pub closed spec fn from_boot(s: Seq<u8>) -> (ExfatFs, bool) {
        (ExfatFs {
            bytes_per_sector: 512,
            sectors_per_cluster: pow2_spec(s[109]),
            cluster_heap_offset: le32(s, 88),
            fat_offset: le32(s, 80),
            root_dir_first_cluster: le32(s, 96),
            cluster_count: le32(s, 92),
        }, true)
    }

    /// A volume with no geometry yet.
    pub fn new() -> (r: Self)
        ensures
            !r.mounted(),
            r.spec_root() == 0,
            r.spec_cluster_count() == 0,
            r.spec_heap() == 0,
            r.spec_fat() == 0,
            r.spec_spc() == 0,
    {
        ExfatFs {
            bytes_per_sector: 0,
            sectors_per_cluster: 0,
            cluster_heap_offset: 0,
            fat_offset: 0,
            root_dir_first_cluster: 0,
            cluster_count: 0,
        }
    }

    /// Whether a geometry has been read from a boot sector.
    pub fn is_mounted(&self) -> (r: bool)
        ensures
            r == self.mounted(),
    {
        self.bytes_per_sector == 512 && 1 <= self.sectors_per_cluster && self.sectors_per_cluster <= 8
    }

    pub fn root_cluster(&self) -> (r: u32)
        ensures
            r == self.spec_root(),
    {
        self.root_dir_first_cluster
    }

    pub fn cluster_count(&self) -> (r: u32)
        ensures
            r == self.spec_cluster_count(),
    {
        self.cluster_count
    }

    /// Take the geometry from the boot sector `s`, when it is one that this
    /// driver reads; else leave `self` as it is and fail.
    pub fn mount_boot_sector(&mut self, s: &[u8]) -> (r: Result<(), ()>)
        requires
            s.len() >= 512,
        ensures
            r is Ok <==> boot_ok(s@),
            r is Ok ==> *final(self) == ExfatFs::from_boot(s@).0 && final(self).mounted(),
            r is Ok ==> final(self).spec_root() == le32(s@, 96) && final(self).spec_cluster_count() == le32(s@, 92)
                && final(self).spec_heap() == le32(s@, 88) && final(self).spec_fat() == le32(s@, 80)
                && final(self).spec_spc() == pow2_spec(s@[109]),
            r is Err ==> *final(self) == *old(self),
    {
        let oem: [u8; 8] = [69u8, 88u8, 70u8, 65u8, 84u8, 32u8, 32u8, 32u8];
        let mut oem_ok = true;
        let mut i: usize = 0;
        proof {
            assert(oem@ =~= oem_name());
        }
        while i < 8
            invariant
                s.len() >= 512,
                i <= 8,
                oem@ == oem_name(),
                oem_ok == (forall|k: int| 0 <= k < i ==> s@[3 + k] == oem@[k]),
            decreases 8 - i,
        {
            if s[3 + i] != oem[i] {
                oem_ok = false;
            }
            i += 1;
        }
        proof {
            if oem_ok {
                assert(s@.subrange(3, 11) =~= oem@);
            } else {
                let k = choose|k: int| 0 <= k < 8 && s@[3 + k] != oem@[k];
                assert(s@.subrange(3, 11)[k] != oem@[k]);
            }
        }
        if !oem_ok {
            return Err(());
        }
        if le_u16(s, 510) != 0xAA55 {
            return Err(());
        }
        let bps_shift = s[108];
        let spc_shift = s[109];
        if !(9 <= bps_shift && bps_shift <= 12) || spc_shift > 25 {
            return Err(());
        }
        // 512-byte sectors only, and clusters that fit the cluster buffer
        if bps_shift != 9 || spc_shift > 3 {
            return Err(());
        }
        let spc: u32 = if spc_shift == 0 { 1 } else if spc_shift == 1 { 2 } else if spc_shift == 2 { 4 } else { 8 };
        let volume_length = le_u64(s, 72);
        let fat_offset = le_u32(s, 80);
        let fat_length = le_u32(s, 84);
        let heap = le_u32(s, 88);
        let count = le_u32(s, 92);
        let root = le_u32(s, 96);
        let nfats = s[110];
        // the cluster numbers run from 2 to the count plus 1, a 32-bit value
        if volume_length == 0 || nfats == 0 || fat_offset == 0 || fat_length == 0 || heap == 0 || count == 0
            || count > 0xFFFF_FFFD || root < 2 || root as u64 >= count as u64 + 2 {
            return Err(());
        }
        self.bytes_per_sector = 512;
        self.sectors_per_cluster = spc;
        self.fat_offset = fat_offset;
        self.cluster_heap_offset = heap;
        self.root_dir_first_cluster = root;
        self.cluster_count = count;
        Ok(())
    }

    /// Read the boot sector of `dev` and take the geometry from it.
    pub fn mount<D: BlockDev>(&mut self, dev: &D) -> (r: Result<(), ()>)
        ensures
            r is Ok ==> final(self).mounted(),
            r is Ok && described(dev) ==> boot_ok(dev.spec_sector(0)) && *final(self) == ExfatFs::from_boot(
                dev.spec_sector(0),
            ).0,
            r is Ok && described(dev) ==> ({
                let s = dev.spec_sector(0);
                &&& final(self).spec_root() == le32(s, 96)
                &&& final(self).spec_cluster_count() == le32(s, 92)
                &&& final(self).spec_heap() == le32(s, 88)
                &&& final(self).spec_fat() == le32(s, 80)
                &&& final(self).spec_spc() == pow2_spec(s[109])
            }),
            reliable(dev) ==> (r is Ok <==> boot_ok(dev.spec_sector(0))),
            r is Err ==> *final(self) == *old(self),
    {
        let mut sector0: Vec<u8> = vec![0u8; SECTOR_SIZE];
        let rr = dev.read_sector(0, sector0.as_mut_slice());
        if rr.is_err() {
            return Err(());
        }
        self.mount_boot_sector(sector0.as_slice())
    }

    /// The first sector of cluster `cluster` (0 for the reserved clusters).
    pub fn cluster_to_sector(&self, cluster: u32) -> (r: u64)
        requires
            self.mounted(),
        ensures
            r == if cluster < 2 { 0 } else { self.spec_heap() + (cluster - 2) * self.spec_spc() },
            r <= 0xffff_ffff + 0xffff_ffff * 8,
    {
        if cluster < 2 {
            return 0;
        }
        let spc = self.sectors_per_cluster;
        assert((cluster as int - 2) * (spc as int) <= 0xffff_ffff * 8) by (nonlinear_arith)
            requires
                spc <= 8,
                2 <= cluster <= 0xffff_ffff,
        ;
        (self.cluster_heap_offset as u64) + ((cluster as u64) - 2) * (self.sectors_per_cluster as u64)
    }

    /// The bytes of cluster `cluster`, sector by sector.
    fn read_cluster<D: BlockDev>(&self, dev: &D, cluster: u32) -> (r: Result<Vec<u8>, ()>)
        requires
            self.mounted(),
        ensures
            r is Ok ==> r.unwrap().len() == self.cluster_bytes(),
            r is Ok && described(dev) ==> r.unwrap()@ == self.cluster_data(dev, cluster),
            dev.spec_reliable() ==> r is Ok,
    {
        let start = self.cluster_to_sector(cluster);
        let mut out: Vec<u8> = Vec::new();
        let mut i: u32 = 0;
        while i < self.sectors_per_cluster
            invariant
                self.mounted(),
                i <= self.spec_spc(),
                out.len() == 512 * i,
                start <= 0xffff_ffff + 0xffff_ffff * 8,
                start == self.cluster_sector(cluster),
                described(dev) ==> out@ == sectors_from(dev, start as int, i as nat),
            decreases self.spec_spc() - i,
        {
            let mut sec: Vec<u8> = vec![0u8; SECTOR_SIZE];
            let rr = dev.read_sector(start + i as u64, sec.as_mut_slice());
            if rr.is_err() {
                return Err(());
            }
            let mut k: usize = 0;
            let ghost base = out@;
            while k < SECTOR_SIZE
                invariant
                    sec.len() == SECTOR_SIZE,
                    k <= SECTOR_SIZE,
                    out@ == base + sec@.subrange(0, k as int),
                    described(dev) ==> sec@ == dev.spec_sector((start + i) as u64),
                decreases SECTOR_SIZE - k,
            {
                out.push(sec[k]);
                k += 1;
                proof {
                    assert(sec@.subrange(0, k as int) =~= sec@.subrange(0, k - 1).push(sec@[k - 1]));
                }
            }
            proof {
                assert(sec@.subrange(0, 512) =~= sec@);
                assert(sectors_from(dev, start as int, (i + 1) as nat) == sectors_from(dev, start as int, i as nat)
                    + dev.spec_sector((start + i) as u64));
            }
            i += 1;
        }
        Ok(out)
    }

    /// Where the FAT entry of `cluster` lies: its sector and byte offset.
    pub fn fat_location(&self, cluster: u32) -> (r: (u64, usize))
        requires
            self.mounted(),
        ensures
            r.0 == self.spec_fat() + cluster / 128,
            r.1 == (cluster % 128) * 4,
    {
        ((self.fat_offset as u64) + (cluster / 128) as u64, ((cluster % 128) * 4) as usize)
    }

    /// The cluster after `cluster` in the FAT chain, read from `dev` (0 at
    /// the end of the chain).
    fn next_cluster<D: BlockDev>(&self, dev: &D, cluster: u32) -> (r: Result<u32, ()>)
        requires
            self.mounted(),
        ensures
            r is Ok && described(dev) ==> r.unwrap() == self.fat_next(dev, cluster),
            dev.spec_reliable() ==> r is Ok,
    {
        let (sector, offset) = self.fat_location(cluster);
        let mut buf: Vec<u8> = vec![0u8; SECTOR_SIZE];
        let rr = dev.read_sector(sector, buf.as_mut_slice());
        if rr.is_err() {
            return Err(());
        }
        Ok(fat_entry_value(buf.as_slice(), offset))
    }

    /// The cluster after `cluster` of a file whose data is contiguous, of
    /// `data_length` bytes from `first`: the next one while the file goes
    /// on, else 0.
    pub fn next_contiguous(&self, first: u32, data_length: u64, cluster: u32) -> (r: u32)
        requires
            self.mounted(),
        ensures
            r == self.contiguous_next(first, data_length, cluster),
    {
        let bpc: u64 = (512 * self.sectors_per_cluster) as u64;
        let clusters: u64 = if data_length == 0 {
            1
        } else {
            assert((data_length - 1) as int / (bpc as int) <= (data_length - 1) as int) by (nonlinear_arith)
                requires
                    bpc >= 1,
                    data_length >= 1,
            ;
            (data_length - 1) / bpc + 1
        };
        let offset: u64 = if cluster >= first { (cluster - first) as u64 } else { 0 };
        if offset + 1 >= clusters {
            0
        } else if cluster == u32::MAX {
            0
        } else {
            cluster + 1
        }
    }

    /// The cluster after `cluster` in the chain of `entry`.
    fn next_cluster_for_entry<D: BlockDev>(&self, dev: &D, entry: &ExfatEntry, cluster: u32) -> (r: Result<u32, ()>)
        requires
            self.mounted(),
        ensures
            entry.no_fat_chain ==> r is Ok && r.unwrap() == self.contiguous_next(entry.first_cluster, entry.data_length, cluster),
            dev.spec_reliable() ==> r is Ok,
            r is Ok && described(dev) ==> r.unwrap() == self.entry_next(dev, entry.no_fat_chain, entry.first_cluster, entry.data_length, cluster),
    {
        if entry.no_fat_chain {
            Ok(self.next_contiguous(entry.first_cluster, entry.data_length, cluster))
        } else {
            self.next_cluster(dev, cluster)
        }
    }

    /// The entries of the directory `dir`, cluster by cluster along its
    /// chain; the entries read before a failed read come with the error.
    pub fn list_entry_dir<D: BlockDev>(&self, dev: &D, dir: &ExfatEntry) -> (r: (Vec<ExfatEntry>, Result<(), ()>))
        requires
            self.mounted(),
        ensures
            dir.first_cluster == 0 ==> r.0@.len() == 0 && r.1 is Ok,
            described(dev) ==> ({
                let all = self.dir_listing(dev, dir@, dir.first_cluster, CHAIN_BUDGET as nat);
                &&& r.1 is Ok ==> entry_views(r.0@) == all
                &&& r.0@.len() <= all.len()
                &&& entry_views(r.0@) == all.subrange(0, r.0@.len() as int)
                &&& dev.spec_reliable() ==> entry_views(r.0@) == all
                &&& dev.spec_reliable() ==> (r.1 is Ok <==> self.chain_ends(dev, dir@, dir.first_cluster, CHAIN_BUDGET as nat))
            }),
    {
        let bpc = 512 * (self.sectors_per_cluster as usize);
        let n = bpc / 32;
        let mut out: Vec<ExfatEntry> = Vec::new();
        let mut cluster = dir.first_cluster;
        // a chain visits each of the 2^32 cluster numbers at most once
        let mut budget: u64 = CHAIN_BUDGET;
        let ghost all = self.dir_listing(dev, dir@, dir.first_cluster, CHAIN_BUDGET as nat);
        proof {
            assert(entry_views(out@) =~= Seq::<EntryView>::empty());
            assert(all =~= entry_views(out@) + all);
        }
        while cluster != 0
            invariant
                self.mounted(),
                bpc == self.cluster_bytes(),
                n == bpc / 32,
                dir.first_cluster == 0 ==> cluster == 0 && out.len() == 0,
                all == self.dir_listing(dev, dir@, dir.first_cluster, CHAIN_BUDGET as nat),
                described(dev) ==> all == entry_views(out@) + self.dir_listing(dev, dir@, cluster, budget as nat),
                reliable(dev) ==> self.chain_ends(dev, dir@, dir.first_cluster, CHAIN_BUDGET as nat) == self.chain_ends(
                    dev,
                    dir@,
                    cluster,
                    budget as nat,
                ),
            decreases budget,
        {
            if budget == 0 {
                proof {
                    if described(dev) {
                        assert(all.subrange(0, out@.len() as int) =~= entry_views(out@));
                    }
                }
                return (out, Err(()));
            }
            budget -= 1;
            let buf = match self.read_cluster(dev, cluster) {
                Ok(b) => b,
                Err(_) => {
                    proof {
                        if described(dev) {
                            assert(all.subrange(0, out@.len() as int) =~= entry_views(out@));
                        }
                    }
                    return (out, Err(()));
                },
            };
            let ghost before = out@;
            let mut found = parse_dir_cluster(buf.as_slice(), n);
            let ghost got = found@;
            out.append(&mut found);
            proof {
                assert(out@ == before + got);
                assert(entry_views(out@) =~= entry_views(before) + entry_views(got));
            }
            cluster = match self.next_cluster_for_entry(dev, dir, cluster) {
                Ok(c) => c,
                Err(_) => {
                    proof {
                        if described(dev) {
                            assert(all == entry_views(before) + entry_views(got) + self.dir_listing(
                                dev,
                                dir@,
                                self.entry_next(dev, dir.no_fat_chain, dir.first_cluster, dir.data_length, cluster),
                                budget as nat,
                            ));
                            assert(all.subrange(0, out@.len() as int) =~= entry_views(out@));
                        }
                    }
                    return (out, Err(()));
                },
            };
        }
        proof {
            if described(dev) {
                assert(all.subrange(0, out@.len() as int) =~= entry_views(out@));
            }
        }
        (out, Ok(()))
    }

    /// The entries of the directory whose chain starts at `start_cluster`.
    pub fn list_dir<D: BlockDev>(&self, dev: &D, start_cluster: u32) -> (r: (Vec<ExfatEntry>, Result<(), ()>))
        requires
            self.mounted(),
        ensures
            start_cluster == 0 ==> r.0@.len() == 0 && r.1 is Ok,
            described(dev) ==> ({
                let all = self.dir_listing(dev, dir_entry_view(start_cluster), start_cluster, CHAIN_BUDGET as nat);
                &&& r.1 is Ok ==> entry_views(r.0@) == all
                &&& r.0@.len() <= all.len()
                &&& entry_views(r.0@) == all.subrange(0, r.0@.len() as int)
                &&& dev.spec_reliable() ==> entry_views(r.0@) == all
                &&& dev.spec_reliable() ==> (r.1 is Ok <==> self.chain_ends(dev, dir_entry_view(start_cluster), start_cluster,
                    CHAIN_BUDGET as nat))
            }),
    {
        let entry = ExfatEntry::dir_at(start_cluster);
        self.list_entry_dir(dev, &entry)
    }

    /// The entry at `path` below the root: the root itself for an empty
    /// path; none when a component is missing or the path goes on past a
    /// file. The entry found is named by the last component.
    pub fn find_entry<D: BlockDev>(&self, dev: &D, path: &str) -> (r: Option<ExfatEntry>)
        ensures
            path_parts(path.spec_bytes()).len() == 0 ==> r is Some && r.unwrap()@ == dir_entry_view(self.spec_root()),
            path_parts(path.spec_bytes()).len() > 0 && r is Some ==> utf8_text(r.unwrap().name@)
                == path_parts(path.spec_bytes()).last(),
            !self.mounted() && path_parts(path.spec_bytes()).len() > 0 ==> r is None,
            self.mounted() && reliable(dev) ==> match self.find_walk(dev, path_parts(path.spec_bytes()), 0, dir_entry_view(self.spec_root())) {
                Some(e) => r is Some && r.unwrap()@ == e,
                None => r is None,
            },
    {
        let parts = split_path(path.as_bytes());
        let ghost pp = path_parts(path.spec_bytes());
        let mut current = ExfatEntry::dir_at(self.root_dir_first_cluster);
        if parts.len() > 0 && !self.is_mounted() {
            return None;
        }
        let mut i: usize = 0;
        while i < parts.len()
            invariant
                parts.len() > 0 ==> self.mounted(),
                i <= parts.len(),
                parts@.map_values(|s: &[u8]| s@) == pp,
                pp == path_parts(path.spec_bytes()),
                parts.len() == 0 ==> current@ == dir_entry_view(self.spec_root()),
                current.is_dir,
                i > 0 ==> utf8_text(current.name@) == pp[i - 1],
                reliable(dev) ==> self.find_walk(dev, pp, 0, dir_entry_view(self.spec_root())) == self.find_walk(
                    dev,
                    pp,
                    i as int,
                    current@,
                ),
            decreases parts.len() - i,
        {
            let (entries, _) = self.list_entry_dir(dev, &current);
            proof {
                lemma_last_named_index(entry_views(entries@), parts@[i as int]@);
                assert(parts@.map_values(|s: &[u8]| s@)[i as int] == parts@[i as int]@);
            }
            match last_named(entries, parts[i]) {
                Some(entry) => {
                    if entry.is_dir {
                        current = entry;
                    } else if i + 1 == parts.len() {
                        proof {
                            assert(pp.last() == pp[i as int]);
                        }
                        return Some(entry);
                    } else {
                        return None;
                    }
                },
                None => return None,
            }
            i += 1;
        }
        proof {
            if parts.len() > 0 {
                assert(pp.last() == pp[parts.len() - 1]);
            }
        }
        Some(current)
    }

    /// Read up to `buf.len()` bytes of the file of `data_length` bytes whose
    /// chain starts at `start_cluster`; returns how many were read. A file
    /// with no cluster, no data or no room to read into gives 0 at once.
    pub fn read_file<D: BlockDev>(
        &self,
        dev: &D,
        start_cluster: u32,
        data_length: u64,
        no_fat_chain: bool,
        buf: &mut [u8],
    ) -> (r: Result<usize, ()>)
        requires
            self.mounted(),
        ensures
            final(buf)@.len() == old(buf)@.len(),
            r is Ok ==> r.unwrap() <= old(buf)@.len() && r.unwrap() <= data_length,
            start_cluster == 0 || data_length == 0 || old(buf)@.len() == 0 ==> r == Ok::<usize, ()>(0usize)
                && final(buf)@ == old(buf)@,
            r is Ok && described(dev) ==> ({
                let want = if data_length < old(buf)@.len() { data_length as nat } else { old(buf)@.len() };
                let got = self.chain_bytes(dev, no_fat_chain, start_cluster, data_length, start_cluster, want);
                &&& r.unwrap() == got.len()
                &&& final(buf)@.subrange(0, r.unwrap() as int) == got
            }),
            dev.spec_reliable() ==> r is Ok,
            r is Ok ==> final(buf)@.subrange(r.unwrap() as int, old(buf)@.len() as int) == old(buf)@.subrange(
                r.unwrap() as int,
                old(buf)@.len() as int,
            ),
    {
        let bpc = 512 * (self.sectors_per_cluster as usize);
        let mut cluster = start_cluster;
        let mut offset: usize = 0;
        let target_len: usize = if data_length < buf.len() as u64 { data_length as usize } else { buf.len() };
        let chain = ExfatEntry {
            name: Vec::new(),
            first_cluster: start_cluster,
            data_length,
            is_dir: false,
            attributes: 0,
            no_fat_chain,
        };
        let ghost whole = self.chain_bytes(dev, no_fat_chain, start_cluster, data_length, start_cluster, target_len as nat);
        proof {
            assert(buf@.subrange(0, 0) =~= Seq::<u8>::empty());
            assert(whole == buf@.subrange(0, 0) + whole);
        }
        while cluster != 0 && offset < target_len
            invariant
                self.mounted(),
                bpc == self.cluster_bytes(),
                offset <= target_len,
                target_len <= buf.len(),
                target_len <= data_length,
                target_len == (if data_length < old(buf)@.len() { data_length as nat } else { old(buf)@.len() }),
                buf@.len() == old(buf)@.len(),
                start_cluster != 0 || cluster == 0,
                start_cluster == 0 ==> offset == 0,
                chain.first_cluster == start_cluster,
                chain.data_length == data_length,
                chain.no_fat_chain == no_fat_chain,
                whole == self.chain_bytes(dev, no_fat_chain, start_cluster, data_length, start_cluster, target_len as nat),
                described(dev) ==> whole == buf@.subrange(0, offset as int) + self.chain_bytes(
                    dev,
                    no_fat_chain,
                    start_cluster,
                    data_length,
                    cluster,
                    (target_len - offset) as nat,
                ),
                buf@.subrange(offset as int, buf@.len() as int) == old(buf)@.subrange(offset as int, old(buf)@.len() as int),
            decreases target_len - offset,
        {
            let read_len = if bpc < target_len - offset { bpc } else { target_len - offset };
            let cl = match self.read_cluster(dev, cluster) {
                Ok(b) => b,
                Err(_) => return Err(()),
            };
            let ghost pre = buf@;
            let mut k: usize = 0;
            while k < read_len
                invariant
                    read_len <= cl.len(),
                    offset + read_len <= buf@.len(),
                    buf@.len() == pre.len(),
                    k <= read_len,
                    forall|j: int| 0 <= j < offset ==> buf@[j] == pre[j],
                    forall|j: int| offset <= j < offset + k ==> buf@[j] == cl@[j - offset],
                    forall|j: int| offset + k <= j < pre.len() ==> buf@[j] == pre[j],
                decreases read_len - k,
            {
                assert(offset + k < buf.len());
                let idx = offset + k;
                buf[idx] = cl[k];
                k += 1;
            }
            let ghost rest = self.chain_bytes(dev, no_fat_chain, start_cluster, data_length, cluster, (target_len - offset) as nat);
            proof {
                if described(dev) {
                    assert(rest == cl@.subrange(0, read_len as int) + self.chain_bytes(
                        dev,
                        no_fat_chain,
                        start_cluster,
                        data_length,
                        self.entry_next(dev, no_fat_chain, start_cluster, data_length, cluster),
                        (target_len - offset - read_len) as nat,
                    ));
                }
                assert(buf@.subrange(0, offset + read_len) =~= pre.subrange(0, offset as int) + cl@.subrange(0, read_len as int));
                assert(pre.subrange(offset + read_len, pre.len() as int) =~= pre.subrange(offset as int, pre.len() as int).subrange(
                    read_len as int,
                    pre.len() - offset,
                ));
                assert(old(buf)@.subrange(offset + read_len, old(buf)@.len() as int) =~= old(buf)@.subrange(
                    offset as int,
                    old(buf)@.len() as int,
                ).subrange(read_len as int, old(buf)@.len() - offset));
                assert(buf@.subrange(offset + read_len, buf@.len() as int) =~= pre.subrange(offset + read_len, pre.len() as int));
            }
            offset += read_len;
            cluster = match self.next_cluster_for_entry(dev, &chain, cluster) {
                Ok(c) => c,
                Err(_) => return Err(()),
            };
            proof {
                if described(dev) {
                    assert(whole == buf@.subrange(0, offset as int) + self.chain_bytes(
                        dev,
                        no_fat_chain,
                        start_cluster,
                        data_length,
                        cluster,
                        (target_len - offset) as nat,
                    ));
                }
            }
        }
        proof {
            assert(self.chain_bytes(dev, no_fat_chain, start_cluster, data_length, cluster, (target_len - offset) as nat)
                =~= Seq::<u8>::empty());
            assert(buf@.subrange(0, offset as int) + Seq::<u8>::empty() =~= buf@.subrange(0, offset as int));
            if offset == 0 {
                assert(buf@.subrange(0, buf@.len() as int) =~= buf@);
                assert(old(buf)@.subrange(0, old(buf)@.len() as int) =~= old(buf)@);
            }
        }
        Ok(offset)
    }
}

/// The value of the FAT entry at byte `offset` of a FAT sector: the next
/// cluster, or 0 for the end-of-chain and bad-cluster marks.
pub fn fat_entry_value(sector: &[u8], offset: usize) -> (r: u32)
    requires
        offset + 4 <= sector.len(),
    ensures
        r == if le32(sector@, offset as int) >= 0xFFFF_FFF8 { 0 } else { le32(sector@, offset as int) },
{
    let next = le_u32(sector, offset);
    if next >= 0xFFFF_FFF8 {
        0
    } else {
        next
    }
}

/// The components of a path: the non-empty pieces between slashes, at most
/// [`MAX_PATH_PARTS`] of them.
pub open spec fn path_parts(p: Seq<u8>) -> Seq<Seq<u8>> {
    let all = slash_parts(p);
    if all.len() > MAX_PATH_PARTS { all.subrange(0, MAX_PATH_PARTS as int) } else { all }
}

/// The non-empty pieces of `p` between slashes.
pub open spec fn slash_parts(p: Seq<u8>) -> Seq<Seq<u8>>
    decreases p.len(),
{
    if p.len() == 0 {
        Seq::empty()
    } else {
        let e = slash_from(p, 0);
        proof {
            lemma_slash_from(p, 0);
        }
        let rest = if e < p.len() { p.subrange(e + 1, p.len() as int) } else { Seq::<u8>::empty() };
        if e <= 0 {
            slash_parts(rest)
        } else {
            seq![p.subrange(0, e)] + slash_parts(rest)
        }
    }
}

/// The first `/` of `p` at or after `i`, or `p.len()`.
pub open spec fn slash_from(p: Seq<u8>, i: int) -> int
    decreases p.len() - i,
{
    if i >= p.len() {
        p.len() as int
    } else if p[i] == 47 {
        i
    } else {
        slash_from(p, i + 1)
    }
}

pub proof fn lemma_slash_from(p: Seq<u8>, i: int)
    requires
        0 <= i <= p.len(),
    ensures
        i <= slash_from(p, i) <= p.len(),
        slash_from(p, i) < p.len() ==> p[slash_from(p, i)] == 47,
    decreases p.len() - i,
{
    if i < p.len() && p[i] != 47 {
        lemma_slash_from(p, i + 1);
    }
}

/// The components of the path `p` (see [`path_parts`]).
pub fn split_path(p: &[u8]) -> (r: Vec<&[u8]>)
    ensures
        r@.map_values(|s: &[u8]| s@) == path_parts(p@),
{
    let mut out: Vec<&[u8]> = Vec::new();
    let mut rest: &[u8] = p;
    let ghost all = slash_parts(p@);
    proof {
        assert(out@.map_values(|s: &[u8]| s@) =~= Seq::<Seq<u8>>::empty());
    }
    while rest.len() > 0 && out.len() < MAX_PATH_PARTS
        invariant
            out.len() <= MAX_PATH_PARTS,
            all == out@.map_values(|s: &[u8]| s@) + slash_parts(rest@),
        decreases rest.len(),
    {
        let ghost before = out@.map_values(|s: &[u8]| s@);
        let mut e: usize = 0;
        while e < rest.len() && rest[e] != 47u8
            invariant
                e <= rest.len(),
                slash_from(rest@, 0) == slash_from(rest@, e as int),
            decreases rest.len() - e,
        {
            e += 1;
        }
        proof {
            lemma_slash_from(rest@, 0);
        }
        let piece = vstd::slice::slice_subrange(rest, 0, e);
        let ghost old_rest = rest@;
        rest = if e < rest.len() { vstd::slice::slice_subrange(rest, e + 1, rest.len()) } else { vstd::slice::slice_subrange(rest, 0, 0) };
        proof {
            if e >= old_rest.len() {
                assert(rest@ =~= Seq::<u8>::empty());
            }
        }
        if e > 0 {
            out.push(piece);
            proof {
                assert(out@.map_values(|s: &[u8]| s@) =~= before + seq![piece@]);
                assert(all =~= out@.map_values(|s: &[u8]| s@) + slash_parts(rest@));
            }
        }
    }
    proof {
        let got = out@.map_values(|s: &[u8]| s@);
        if out.len() < MAX_PATH_PARTS {
            assert(slash_parts(rest@) =~= Seq::<Seq<u8>>::empty());
            assert(all =~= got);
        } else {
            assert(all.subrange(0, MAX_PATH_PARTS as int) =~= got);
        }
    }
    out
}

/// The last of `entries` whose name, read as text, is `name`.
pub open spec fn last_named_index(entries: Seq<EntryView>, name: Seq<u8>) -> Option<int>
    decreases entries.len(),
{
    if entries.len() == 0 {
        None
    } else if utf8_text(entries.last().name) == name {
        Some(entries.len() - 1)
    } else {
        last_named_index(entries.drop_last(), name)
    }
}

pub proof fn lemma_last_named_index(entries: Seq<EntryView>, name: Seq<u8>)
    ensures
        last_named_index(entries, name) is Some ==> {
            let i = last_named_index(entries, name).unwrap();
            0 <= i < entries.len() && utf8_text(entries[i].name) == name
        },
    decreases entries.len(),
{
    if entries.len() > 0 && utf8_text(entries.last().name) != name {
        lemma_last_named_index(entries.drop_last(), name);
    }
}

/// The last of `entries` whose name, read as text, is `name`.
pub fn last_named(list: Vec<ExfatEntry>, name: &[u8]) -> (r: Option<ExfatEntry>)
    ensures
        match last_named_index(entry_views(list@), name@) {
            Some(i) => r is Some && r.unwrap()@ == list@[i]@,
            None => r is None,
        },
{
    let mut entries = list;
    let ghost orig = entries@;
    let ghost all = entry_views(entries@);
    let mut i: usize = entries.len();
    proof {
        assert(all.subrange(0, i as int) =~= all);
    }
    while i > 0
        invariant
            i <= entries.len(),
            entries@ == orig,
            list@ == orig,
            all == entry_views(entries@),
            last_named_index(all, name@) == last_named_index(all.subrange(0, i as int), name@),
        decreases i,
    {
        proof {
            assert(all.subrange(0, i as int).drop_last() =~= all.subrange(0, i - 1));
            assert(all.subrange(0, i as int).last() == all[i - 1]);
        }
        let text = crate::text::utf8_or_empty(entries[i - 1].name.as_slice());
        if bytes_eq(text.as_bytes(), name) {
            let ghost picked = entries@[i - 1];
            proof {
                assert(all[i - 1] == picked@);
                assert(last_named_index(all, name@) == Some((i - 1) as int));
            }
            let e = entries.swap_remove(i - 1);
            proof {
                assert(e == picked);
                assert(orig[i - 1] == picked);
                assert(list@ == orig);
            }
            return Some(e);
        }
        i -= 1;
    }
    None
}

} // verus!
