use openion::fs::detect::{detect_fs, try_detect_exfat, FsType};
use openion::fs::exfat::{fat_entry_value, le_u16, le_u32, le_u64, parse_dir_cluster, split_path, BlockDev, ExfatFs};
use openion::fs::mount::{
    find_block_device, find_mount_for_path, list_mount_children, list_path, mount_entries, mount_fs, parse_blk_name,
    path_file_type, read_mount_file, unmount, valid_mount_target, MountError,
};
use openion::fs::{create_dir, init, resolve_path, root, FileType, Vfs};

/// A volume kept in memory, sector by sector.
struct MemDisk {
    sectors: Vec<[u8; 512]>,
    fail: bool,
}

impl BlockDev for MemDisk {
    fn read_sector(&self, sector: u64, buf: &mut [u8]) -> Result<(), ()> {
        if self.fail {
            return Err(());
        }
        match self.sectors.get(sector as usize) {
            Some(s) => {
                let n = buf.len().min(512);
                buf[..n].copy_from_slice(&s[..n]);
                Ok(())
            }
            None => Err(()),
        }
    }
}

fn put16(s: &mut [u8], off: usize, v: u16) {
    s[off..off + 2].copy_from_slice(&v.to_le_bytes());
}

fn put32(s: &mut [u8], off: usize, v: u32) {
    s[off..off + 4].copy_from_slice(&v.to_le_bytes());
}

fn put64(s: &mut [u8], off: usize, v: u64) {
    s[off..off + 8].copy_from_slice(&v.to_le_bytes());
}

fn boot_sector() -> [u8; 512] {
    let mut s = [0u8; 512];
    s[3..11].copy_from_slice(b"EXFAT   ");
    put64(&mut s, 72, 64); // volume length
    put32(&mut s, 80, 1); // FAT offset
    put32(&mut s, 84, 1); // FAT length
    put32(&mut s, 88, 2); // cluster heap offset
    put32(&mut s, 92, 16); // cluster count
    put32(&mut s, 96, 2); // root directory cluster
    s[108] = 9; // 512-byte sectors
    s[109] = 1; // two sectors per cluster
    s[110] = 1; // one FAT
    put16(&mut s, 510, 0xAA55);
    s
}

/// Write an entry set (file, stream extension, name) at entry `slot`.
fn put_entry(c: &mut [u8; 1024], slot: usize, name: &str, attrs: u16, first: u32, len: u64, contiguous: bool) {
    let b = slot * 32;
    c[b] = 0x85;
    c[b + 1] = 2;
    put16(c, b + 4, attrs);
    let s = b + 32;
    c[s] = 0xC0;
    c[s + 1] = if contiguous { 3 } else { 1 };
    c[s + 3] = name.len() as u8;
    put32(c, s + 20, first);
    put64(c, s + 24, len);
    let n = b + 64;
    c[n] = 0xC1;
    for (i, ch) in name.bytes().enumerate().take(15) {
        put16(c, n + 2 + 2 * i, ch as u16);
    }
}

/// Put `data` at the start of cluster `c` (two sectors from sector 2 on).
fn put_cluster(sectors: &mut [[u8; 512]], c: usize, data: &[u8; 1024]) {
    let first = 2 + (c - 2) * 2;
    sectors[first].copy_from_slice(&data[..512]);
    sectors[first + 1].copy_from_slice(&data[512..]);
}

/// Root (cluster 2): `hello.txt` (cluster 4, contiguous) and `docs`
/// (cluster 3, FAT chain); `docs` holds `note.md` (FAT chain over
/// clusters 5 and 6, 1200 bytes).
fn sample_disk() -> MemDisk {
    let mut sectors = vec![[0u8; 512]; 16];
    sectors[0] = boot_sector();
    let mut fat = [0u8; 512];
    put32(&mut fat, 0, 0xFFFF_FFF8);
    put32(&mut fat, 4, 0xFFFF_FFFF);
    put32(&mut fat, 2 * 4, 0xFFFF_FFFF);
    put32(&mut fat, 3 * 4, 0xFFFF_FFFF);
    put32(&mut fat, 4 * 4, 0xFFFF_FFFF);
    put32(&mut fat, 5 * 4, 6);
    put32(&mut fat, 6 * 4, 0xFFFF_FFFF);
    sectors[1] = fat;
    let mut root = [0u8; 1024];
    put_entry(&mut root, 0, "hello.txt", 0x20, 4, 12, true);
    put_entry(&mut root, 3, "docs", 0x10, 3, 1024, false);
    put_cluster(&mut sectors, 2, &root);
    let mut docs = [0u8; 1024];
    put_entry(&mut docs, 0, "note.md", 0x21, 5, 1200, false);
    put_cluster(&mut sectors, 3, &docs);
    let mut hello = [0u8; 1024];
    hello[..12].copy_from_slice(b"hello, disk\n");
    put_cluster(&mut sectors, 4, &hello);
    put_cluster(&mut sectors, 5, &[b'a'; 1024]);
    put_cluster(&mut sectors, 6, &[b'b'; 1024]);
    MemDisk { sectors, fail: false }
}

#[test]
fn little_endian_reads() {
    let b = [0x01u8, 0x02, 0x03, 0x04, 0x05, 0x06, 0x07, 0x08];
    assert_eq!(le_u16(&b, 0), 0x0201);
    assert_eq!(le_u32(&b, 2), 0x0605_0403);
    assert_eq!(le_u64(&b, 0), 0x0807_0605_0403_0201);
}

#[test]
fn fat_entry_end_marks_read_as_zero() {
    let mut s = [0u8; 16];
    put32(&mut s, 0, 7);
    put32(&mut s, 4, 0xFFFF_FFF7);
    put32(&mut s, 8, 0xFFFF_FFF8);
    put32(&mut s, 12, 0xFFFF_FFFF);
    assert_eq!(fat_entry_value(&s, 0), 7);
    assert_eq!(fat_entry_value(&s, 4), 0xFFFF_FFF7);
    assert_eq!(fat_entry_value(&s, 8), 0);
    assert_eq!(fat_entry_value(&s, 12), 0);
}

#[test]
fn boot_sector_checks() {
    let good = boot_sector();
    assert!(try_detect_exfat(&good));
    let mut efs = ExfatFs::new();
    assert!(efs.mount_boot_sector(&good).is_ok());
    assert_eq!(efs.root_cluster(), 2);
    assert_eq!(efs.cluster_count(), 16);
    assert_eq!(efs.cluster_to_sector(2), 2);
    assert_eq!(efs.cluster_to_sector(5), 8);
    assert_eq!(efs.cluster_to_sector(1), 0);
    assert_eq!(efs.fat_location(130), (2, 8));

    let mut bad_sig = good;
    bad_sig[510] = 0;
    assert!(!try_detect_exfat(&bad_sig));
    let mut e2 = ExfatFs::new();
    assert!(e2.mount_boot_sector(&bad_sig).is_err());
    assert_eq!(e2.root_cluster(), 0);

    let mut bad_oem = good;
    bad_oem[3] = b'N';
    assert!(ExfatFs::new().mount_boot_sector(&bad_oem).is_err());

    let mut big_sectors = good;
    big_sectors[108] = 12;
    assert!(ExfatFs::new().mount_boot_sector(&big_sectors).is_err());

    let mut bad_root = good;
    put32(&mut bad_root, 96, 18);
    assert!(ExfatFs::new().mount_boot_sector(&bad_root).is_err());
}

#[test]
fn next_contiguous_stops_at_the_end_of_the_file() {
    let mut efs = ExfatFs::new();
    efs.mount_boot_sector(&boot_sector()).unwrap();
    // 2000 bytes in 1024-byte clusters: two clusters, 10 and 11
    assert_eq!(efs.next_contiguous(10, 2000, 10), 11);
    assert_eq!(efs.next_contiguous(10, 2000, 11), 0);
    assert_eq!(efs.next_contiguous(10, 1000, 10), 0);
    assert_eq!(efs.next_contiguous(10, 0, 10), 0);
}

#[test]
fn parse_root_directory_cluster() {
    let disk = sample_disk();
    let mut cluster = Vec::new();
    cluster.extend_from_slice(&disk.sectors[2]);
    cluster.extend_from_slice(&disk.sectors[3]);
    let entries = parse_dir_cluster(&cluster, 32);
    assert_eq!(entries.len(), 2);
    assert_eq!(entries[0].name, b"hello.txt".to_vec());
    assert!(!entries[0].is_dir);
    assert_eq!(entries[0].first_cluster, 4);
    assert_eq!(entries[0].data_length, 12);
    assert!(entries[0].no_fat_chain);
    assert!(entries[0].is_archive());
    assert!(!entries[0].is_read_only());
    assert_eq!(entries[1].name, b"docs".to_vec());
    assert!(entries[1].is_dir);
    assert!(!entries[1].no_fat_chain);
    assert!(!entries[1].is_hidden());
    assert!(!entries[1].is_system());
}

#[test]
fn volume_walk_and_read() {
    let disk = sample_disk();
    let d = detect_fs(&disk);
    assert!(d.sector0_valid);
    assert_eq!(d.fs_type, FsType::Exfat);
    assert_eq!(d.fs_type.name(), "exFAT");

    let mut efs = ExfatFs::new();
    assert!(efs.mount(&disk).is_ok());
    let (root_entries, res) = efs.list_dir(&disk, 2);
    assert!(res.is_ok());
    assert_eq!(root_entries.len(), 2);

    let note = efs.find_entry(&disk, "/docs/note.md").unwrap();
    assert_eq!(note.data_length, 1200);
    assert!(note.is_read_only());
    let mut buf = vec![0u8; 2048];
    let n = efs.read_file(&disk, note.first_cluster, note.data_length, note.no_fat_chain, &mut buf).unwrap();
    assert_eq!(n, 1200);
    assert!(buf[..1024].iter().all(|&b| b == b'a'));
    assert!(buf[1024..1200].iter().all(|&b| b == b'b'));
    assert!(buf[1200..].iter().all(|&b| b == 0));

    let hello = efs.find_entry(&disk, "hello.txt").unwrap();
    let mut small = [0u8; 5];
    let n = efs.read_file(&disk, hello.first_cluster, hello.data_length, hello.no_fat_chain, &mut small).unwrap();
    assert_eq!(n, 5);
    assert_eq!(&small, b"hello");

    let root = efs.find_entry(&disk, "/").unwrap();
    assert!(root.is_dir);
    assert_eq!(root.first_cluster, 2);
    assert!(efs.find_entry(&disk, "/missing").is_none());
}

#[test]
fn unreadable_disk_is_not_detected() {
    let mut disk = sample_disk();
    disk.fail = true;
    let d = detect_fs(&disk);
    assert!(!d.sector0_valid);
    assert!(ExfatFs::new().mount(&disk).is_err());
}

#[test]
fn path_splitting() {
    let parts = split_path(b"/a//b/c/");
    assert_eq!(parts, vec![&b"a"[..], &b"b"[..], &b"c"[..]]);
    let many = split_path(b"1/2/3/4/5/6/7/8/9/10");
    assert_eq!(many.len(), 8);
}

#[test]
fn block_device_names() {
    assert_eq!(parse_blk_name(b"blk0"), Some(0));
    assert_eq!(parse_blk_name(b"blk12"), Some(12));
    assert_eq!(parse_blk_name(b"blk"), None);
    assert_eq!(parse_blk_name(b"blkx"), None);
    assert_eq!(parse_blk_name(b"disk0"), None);
    assert_eq!(find_block_device(b"/dev/blk1", 2), Some(1));
    assert_eq!(find_block_device(b"/dev/blk2", 2), None);
    assert_eq!(find_block_device(b"blk0", 2), None);
}

fn mounted_vfs() -> (Vfs, Vec<MemDisk>) {
    let mut fs = Vfs::new();
    init(&mut fs);
    let devs = vec![sample_disk()];
    assert_eq!(mount_fs(&mut fs, "/dev/blk0", "/mnt", &devs), Ok(()));
    (fs, devs)
}

#[test]
fn mount_then_read_through_the_tree() {
    let (fs, devs) = mounted_vfs();
    let entries = mount_entries(&fs);
    assert_eq!(entries.len(), 4);
    let e = entries[0].as_ref().unwrap();
    assert_eq!(e.source_str(), "/dev/blk0");
    assert_eq!(e.path_str(), "/mnt");
    assert_eq!(e.fs_type, "exFAT");
    assert!(entries[1].is_none());

    let m = find_mount_for_path(&fs, b"/mnt/docs").unwrap();
    assert_eq!(m.prefix_len, 4);
    assert_eq!(m.dev, 0);
    assert!(find_mount_for_path(&fs, b"/mntx").is_none());

    let listing = list_path(&fs, "/mnt", &devs).unwrap();
    let names: Vec<&str> = listing.iter().map(|e| e.name_str()).collect();
    assert_eq!(names, vec!["hello.txt", "docs"]);
    assert_eq!(listing[1].file_type, FileType::Directory);

    assert_eq!(path_file_type(&fs, "/mnt/docs", &devs), Some(FileType::Directory));
    assert_eq!(path_file_type(&fs, "/mnt/hello.txt", &devs), Some(FileType::File));
    assert_eq!(path_file_type(&fs, "/dev", &devs), Some(FileType::Directory));
    assert_eq!(path_file_type(&fs, "/nowhere", &devs), None);

    let mut buf = [0u8; 64];
    let n = read_mount_file(&fs, "/mnt/hello.txt", &mut buf, &devs);
    assert_eq!(&buf[..n], b"hello, disk\n");
    assert_eq!(read_mount_file(&fs, "/mnt/docs", &mut buf, &devs), 0);
    assert_eq!(read_mount_file(&fs, "/elsewhere/x", &mut buf, &devs), 0);
    assert!(list_path(&fs, "/elsewhere", &devs).is_none());
}

#[test]
fn mount_points_show_in_their_parent() {
    let mut fs = Vfs::new();
    init(&mut fs);
    let r = root(&fs).unwrap();
    create_dir(&mut fs, r, "data").unwrap();
    let devs = vec![sample_disk()];
    assert_eq!(mount_fs(&mut fs, "/dev/blk0", "/data", &devs), Ok(()));
    let children = list_mount_children(&fs, "/");
    assert_eq!(children.len(), 1);
    assert_eq!(children[0].name_str(), "data");
    assert_eq!(children[0].file_type, FileType::Directory);
    assert!(list_mount_children(&fs, "/mnt").is_empty());
}

#[test]
fn mount_errors() {
    let mut fs = Vfs::new();
    init(&mut fs);
    let devs = vec![sample_disk()];
    assert_eq!(mount_fs(&mut fs, "/dev/blk0", "mnt", &devs), Err(MountError::InvalidTarget));
    assert_eq!(mount_fs(&mut fs, "/dev/blk0", "/", &devs), Err(MountError::InvalidTarget));
    assert_eq!(mount_fs(&mut fs, "/dev/blk0", "/nothere/x", &devs), Err(MountError::InvalidTarget));
    assert_eq!(mount_fs(&mut fs, "/dev/blk7", "/mnt", &devs), Err(MountError::NoBlockDevice));
    assert!(!valid_mount_target(&fs, b"/mnt/"));
    assert!(valid_mount_target(&fs, b"/mnt"));

    let mut bad = sample_disk();
    bad.sectors[0][510] = 0;
    let bad_devs = vec![bad];
    assert_eq!(mount_fs(&mut fs, "/dev/blk0", "/mnt", &bad_devs), Err(MountError::UnsupportedFs));

    let mut dead = sample_disk();
    dead.fail = true;
    let dead_devs = vec![dead];
    assert_eq!(mount_fs(&mut fs, "/dev/blk0", "/mnt", &dead_devs), Err(MountError::IoTimeout));

    assert_eq!(mount_fs(&mut fs, "/dev/blk0", "/mnt", &devs), Ok(()));
    assert_eq!(mount_fs(&mut fs, "/dev/blk0", "/mnt", &devs), Err(MountError::TargetBusy));
    assert_eq!(MountError::TargetBusy.message(), "target is already mounted");
    assert_eq!(MountError::NoSpace.message(), "mount table is full");
}

#[test]
fn mount_table_fills_up() {
    let mut fs = Vfs::new();
    init(&mut fs);
    let r = root(&fs).unwrap();
    let devs = vec![sample_disk()];
    for name in ["m0", "m1", "m2", "m3", "m4"] {
        create_dir(&mut fs, r, name).unwrap();
    }
    for name in ["/m0", "/m1", "/m2", "/m3"] {
        assert_eq!(mount_fs(&mut fs, "/dev/blk0", name, &devs), Ok(()));
    }
    assert_eq!(mount_fs(&mut fs, "/dev/blk0", "/m4", &devs), Err(MountError::NoSpace));
    assert!(unmount(&mut fs, "/m2"));
    assert!(!unmount(&mut fs, "/m2"));
    assert_eq!(mount_fs(&mut fs, "/dev/blk0", "/m4", &devs), Ok(()));
    let entries = mount_entries(&fs);
    assert_eq!(entries[2].as_ref().unwrap().path_str(), "/m4");
    let _ = resolve_path(&fs, "/m4").unwrap();
}

#[test]
fn read_file_with_nothing_to_read_gives_zero_without_reading() {
    let mut disk = sample_disk();
    let mut efs = ExfatFs::new();
    assert!(efs.mount(&disk).is_ok());
    disk.fail = true;
    let mut buf = [7u8; 4];
    assert_eq!(efs.read_file(&disk, 0, 100, false, &mut buf), Ok(0));
    assert_eq!(efs.read_file(&disk, 5, 0, false, &mut buf), Ok(0));
    assert_eq!(efs.read_file(&disk, 5, 100, false, &mut []), Ok(0));
    assert_eq!(buf, [7u8; 4]);
    assert_eq!(efs.read_file(&disk, 5, 100, false, &mut buf), Err(()));
}

#[test]
fn mount_point_lists_even_when_the_disk_fails() {
    let (fs, mut devs) = mounted_vfs();
    devs[0].fail = true;
    assert_eq!(list_path(&fs, "/mnt", &devs).map(|l| l.len()), Some(0));
    let mut buf = [1u8; 8];
    assert_eq!(read_mount_file(&fs, "/mnt/hello.txt", &mut buf, &devs), 0);
}

#[test]
fn a_path_past_a_file_names_nothing() {
    let disk = sample_disk();
    let mut efs = ExfatFs::new();
    assert!(efs.mount(&disk).is_ok());
    assert!(efs.find_entry(&disk, "hello.txt").is_some());
    assert!(efs.find_entry(&disk, "hello.txt/more").is_none());
    assert!(efs.find_entry(&disk, "/docs/note.md/x").is_none());
    assert_eq!(efs.root_cluster(), 2);
}

#[test]
fn cluster_count_whose_last_number_overflows_is_refused() {
    let mut s = boot_sector();
    put32(&mut s, 92, 0xFFFF_FFFF);
    assert!(ExfatFs::new().mount_boot_sector(&s).is_err());
    put32(&mut s, 92, 0xFFFF_FFFE);
    assert!(ExfatFs::new().mount_boot_sector(&s).is_err());
    put32(&mut s, 92, 0xFFFF_FFFD);
    assert!(ExfatFs::new().mount_boot_sector(&s).is_ok());
}

#[test]
fn unmounted_volume_answers_only_the_root() {
    let mut disk = sample_disk();
    disk.fail = true;
    let efs = ExfatFs::new();
    let root = efs.find_entry(&disk, "///").unwrap();
    assert!(root.is_dir);
    assert_eq!(root.first_cluster, 0);
    assert!(efs.find_entry(&disk, "hello.txt").is_none());
}
