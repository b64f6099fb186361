//! Which file system a block device holds, told from its first sector.

use vstd::prelude::*;
use crate::fs::exfat::{BlockDev, SECTOR_SIZE, described, reliable};

verus! {

/// The file systems that can be told apart.
#[derive(Debug, Clone, Copy, PartialEq, Eq, Structural)]
pub enum FsType {
    Exfat,
    Unknown,
}

impl FsType {
    pub fn name(&self) -> (r: &'static str)
        ensures
            r@ == match self {
                FsType::Exfat => "exFAT"@,
                FsType::Unknown => "unknown"@,
            },
    {
        match self {
            FsType::Exfat => "exFAT",
            FsType::Unknown => "unknown",
        }
    }
}

/// Sector 0 of a device, and what it was taken for.
pub struct DetectResult {
    pub fs_type: FsType,
    pub sector0: Vec<u8>,
    pub sector0_valid: bool,
}

/// Sector 0 looks like an exFAT boot sector: the 0x55 0xAA signature, and
/// non-zero sector and cluster size shifts (whatever the volume name says).
pub open spec fn looks_exfat(s: Seq<u8>) -> bool {
    s[510] == 0x55 && s[511] == 0xAA && s[108] != 0 && s[109] != 0
}

/// Whether sector 0 looks like an exFAT boot sector.
pub fn try_detect_exfat(sector0: &[u8]) -> (r: bool)
    requires
        sector0.len() >= 512,
    ensures
        r == looks_exfat(sector0@),
{
    if sector0[510] != 0x55 || sector0[511] != 0xAA {
        return false;
    }
    let oem: [u8; 8] = [69u8, 88u8, 70u8, 65u8, 84u8, 32u8, 32u8, 32u8];
    let mut named = true;
    let mut i: usize = 0;
    while i < 8
        invariant
            sector0.len() >= 512,
            i <= 8,
        decreases 8 - i,
    {
        if sector0[3 + i] != oem[i] {
            named = false;
        }
        i += 1;
    }
    if named {
        // the volume name matches; the shifts must still be set
        return sector0[108] != 0 && sector0[109] != 0;
    }
    sector0[108] != 0 && sector0[109] != 0
}

/// The file system of sector 0 of `dev`: unknown when the sector cannot be
/// read.
pub fn detect_fs<D: BlockDev>(dev: &D) -> (r: DetectResult)
    ensures
        r.sector0.len() == SECTOR_SIZE,
        !r.sector0_valid ==> r.fs_type == FsType::Unknown,
        r.sector0_valid ==> (r.fs_type == FsType::Exfat <==> looks_exfat(r.sector0@)),
        dev.spec_reliable() ==> r.sector0_valid,
        r.sector0_valid && described(dev) ==> r.sector0@ == dev.spec_sector(0),
        reliable(dev) ==> r.sector0_valid && (r.fs_type == FsType::Exfat <==> looks_exfat(dev.spec_sector(0))),
{
    let mut sector0: Vec<u8> = vec![0u8; SECTOR_SIZE];
    let valid = dev.read_sector(0, sector0.as_mut_slice()).is_ok();
    if !valid {
        return DetectResult { fs_type: FsType::Unknown, sector0, sector0_valid: false };
    }
    if try_detect_exfat(sector0.as_slice()) {
        return DetectResult { fs_type: FsType::Exfat, sector0, sector0_valid: true };
    }
    DetectResult { fs_type: FsType::Unknown, sector0, sector0_valid: true }
}

} // verus!
