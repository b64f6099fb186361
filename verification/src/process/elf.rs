//! ELF64 executables: the header checks and the plan of what to copy where.

use vstd::prelude::*;
use crate::fs::exfat::{le16, le32, le64, le_u16, le_u32, le_u64};

verus! {

pub const EHDR_SIZE: usize = 64;
pub const PHDR_SIZE: usize = 56;
pub const PT_LOAD: u32 = 1;
pub const ET_EXEC: u16 = 2;

/// What loading gives: the entry point and the span of the loaded
/// segments.
#[derive(Debug, Clone, Copy, PartialEq, Eq, Structural)]
pub struct ElfLoadResult {
    pub entry_point: usize,
    pub load_base: usize,
    pub load_size: usize,
}

/// A segment to load: `file_size` bytes from `file_offset` of the image go
/// to `mem_addr`, and the rest up to `mem_size` is zeroed.
#[derive(Debug, Clone, Copy, PartialEq, Eq, Structural)]
pub struct ElfSegment {
    pub file_offset: usize,
    pub mem_addr: usize,
    pub file_size: usize,
    pub mem_size: usize,
}

/// Why the image is refused at the header, if it is.
pub open spec fn header_error(d: Seq<u8>) -> Option<&'static str> {
    if d.len() < EHDR_SIZE {
        Some("Too small for ELF header")
    } else if !(d[0] == 0x7f && d[1] == 69 && d[2] == 76 && d[3] == 70) {
        Some("Bad ELF magic")
    } else if d[4] != 2 {
        Some("Not ELF64")
    } else if d[5] != 1 {
        Some("Not little-endian")
    } else {
        None
    }
}

/// Check the ELF header: size, magic, 64-bit class, little-endian data.
pub fn validate_elf(data: &[u8]) -> (r: Result<(), &'static str>)
    ensures
        match header_error(data@) {
            None => r is Ok,
            Some(m) => r is Err && r->Err_0@ == m@,
        },
{
    if data.len() < EHDR_SIZE {
        return Err("Too small for ELF header");
    }
    if !(data[0] == 0x7fu8 && data[1] == 69u8 && data[2] == 76u8 && data[3] == 70u8) {
        return Err("Bad ELF magic");
    }
    if data[4] != 2 {
        return Err("Not ELF64");
    }
    if data[5] != 1 {
        return Err("Not little-endian");
    }
    Ok(())
}

/// The plan of the segments from program header `i` on, extending the span
/// `[base, end)`; an error when a header or segment leaves the image.
#[verifier::opaque]
pub open spec fn plan_from(d: Seq<u8>, phoff: int, phentsize: int, phnum: int, i: int, base: int, end: int)
    -> Result<(Seq<ElfSegment>, int, int), &'static str>
    decreases phnum - i,
{
    if i >= phnum {
        Ok((Seq::empty(), base, end))
    } else {
        let off = phoff + i * phentsize;
        if off + PHDR_SIZE > d.len() || off > usize::MAX {
            Err("Program header out of bounds")
        } else if le32(d, off) != PT_LOAD {
            plan_from(d, phoff, phentsize, phnum, i + 1, base, end)
        } else {
            let fo = le64(d, off + 8) as int;
            let ma = le64(d, off + 24) as int;
            let fs = le64(d, off + 32) as int;
            let ms = le64(d, off + 40) as int;
            if fo + fs > d.len() || fo > usize::MAX || fs > usize::MAX || ma > usize::MAX || ms > usize::MAX
                || ma + ms > usize::MAX {
                Err("Segment data out of bounds")
            } else {
                let seg = ElfSegment { file_offset: fo as usize, mem_addr: ma as usize, file_size: fs as usize, mem_size: ms as usize };
                match plan_from(d, phoff, phentsize, phnum, i + 1, if ma < base { ma } else { base },
                    if ma + ms > end { ma + ms } else { end }) {
                    Ok(rest) => Ok((seq![seg] + rest.0, rest.1, rest.2)),
                    Err(e) => Err(e),
                }
            }
        }
    }
}

pub proof fn lemma_plan_done(d: Seq<u8>, phoff: int, phentsize: int, phnum: int, i: int, base: int, end: int)
    requires
        i >= phnum,
    ensures
        plan_from(d, phoff, phentsize, phnum, i, base, end) == Ok::<(Seq<ElfSegment>, int, int), &'static str>((Seq::empty(), base, end)),
{
    reveal(plan_from);
}

pub proof fn lemma_plan_bad_header(d: Seq<u8>, phoff: int, phentsize: int, phnum: int, i: int, base: int, end: int)
    requires
        i < phnum,
        phoff + i * phentsize + PHDR_SIZE > d.len() || phoff + i * phentsize > usize::MAX,
    ensures
        plan_from(d, phoff, phentsize, phnum, i, base, end) == Err::<(Seq<ElfSegment>, int, int), &'static str>("Program header out of bounds"),
{
    reveal(plan_from);
}

pub proof fn lemma_plan_skip(d: Seq<u8>, phoff: int, phentsize: int, phnum: int, i: int, base: int, end: int)
    requires
        i < phnum,
        !(phoff + i * phentsize + PHDR_SIZE > d.len() || phoff + i * phentsize > usize::MAX),
        le32(d, phoff + i * phentsize) != PT_LOAD,
    ensures
        plan_from(d, phoff, phentsize, phnum, i, base, end) == plan_from(d, phoff, phentsize, phnum, i + 1, base, end),
{
    reveal(plan_from);
}

pub proof fn lemma_plan_segment(d: Seq<u8>, phoff: int, phentsize: int, phnum: int, i: int, base: int, end: int)
    requires
        i < phnum,
        !(phoff + i * phentsize + PHDR_SIZE > d.len() || phoff + i * phentsize > usize::MAX),
        le32(d, phoff + i * phentsize) == PT_LOAD,
    ensures
        ({
            let off = phoff + i * phentsize;
            let fo = le64(d, off + 8) as int;
            let ma = le64(d, off + 24) as int;
            let fs = le64(d, off + 32) as int;
            let ms = le64(d, off + 40) as int;
            if fo + fs > d.len() || fo > usize::MAX || fs > usize::MAX || ma > usize::MAX || ms > usize::MAX
                || ma + ms > usize::MAX {
                plan_from(d, phoff, phentsize, phnum, i, base, end) == Err::<(Seq<ElfSegment>, int, int), &'static str>("Segment data out of bounds")
            } else {
                let seg = ElfSegment { file_offset: fo as usize, mem_addr: ma as usize, file_size: fs as usize, mem_size: ms as usize };
                plan_from(d, phoff, phentsize, phnum, i, base, end) == match plan_from(d, phoff, phentsize, phnum, i + 1,
                    if ma < base { ma } else { base }, if ma + ms > end { ma + ms } else { end }) {
                    Ok(rest) => Ok((seq![seg] + rest.0, rest.1, rest.2)),
                    Err(e) => Err(e),
                }
            }
        }),
{
    reveal(plan_from);
}

/// `r` with `prefix` in front of its segments.
pub open spec fn combine(prefix: Seq<ElfSegment>, r: Result<(Seq<ElfSegment>, int, int), &'static str>)
    -> Result<(Seq<ElfSegment>, int, int), &'static str> {
    match r {
        Ok(p) => Ok((prefix + p.0, p.1, p.2)),
        Err(e) => Err(e),
    }
}

pub proof fn lemma_combine_empty(r: Result<(Seq<ElfSegment>, int, int), &'static str>)
    ensures
        combine(Seq::empty(), r) == r,
{
    match r {
        Ok(p) => {
            assert(Seq::<ElfSegment>::empty() + p.0 =~= p.0);
        },
        Err(_) => {},
    }
}

pub proof fn lemma_combine_push(prefix: Seq<ElfSegment>, seg: ElfSegment, r: Result<(Seq<ElfSegment>, int, int), &'static str>)
    ensures
        combine(prefix, match r {
            Ok(rest) => Ok((seq![seg] + rest.0, rest.1, rest.2)),
            Err(e) => Err(e),
        }) == combine(prefix.push(seg), r),
{
    match r {
        Ok(p) => {
            assert(prefix + (seq![seg] + p.0) =~= prefix.push(seg) + p.0);
        },
        Err(_) => {},
    }
}

/// What loading the image `d` gives: the result and the segments to copy.
pub open spec fn load_spec(d: Seq<u8>) -> Result<(ElfLoadResult, Seq<ElfSegment>), &'static str> {
    match header_error(d) {
        Some(m) => Err(m),
        None => if le16(d, 16) != ET_EXEC {
            Err("Not an executable ELF")
        } else {
            match plan_from(d, le64(d, 32) as int, le16(d, 54) as int, le16(d, 56) as int, 0, usize::MAX as int, 0) {
                Err(e) => Err(e),
                Ok(p) => if p.1 >= p.2 {
                    Err("No LOAD segments found")
                } else {
                    Ok((ElfLoadResult { entry_point: le64(d, 24) as usize, load_base: p.1 as usize, load_size: (p.2 - p.1) as usize }, p.0))
                },
            }
        },
    }
}

/// Check an executable image and plan its loading: the entry point, the
/// span of its `PT_LOAD` segments, and each of those segments in header
/// order. The caller copies the segments.
#[verifier::rlimit(50)]
pub fn load_elf(data: &[u8]) -> (r: Result<(ElfLoadResult, Vec<ElfSegment>), &'static str>)
    ensures
        match load_spec(data@) {
            Err(m) => r is Err && r->Err_0@ == m@,
            Ok(p) => r is Ok && r->Ok_0.0 == p.0 && r->Ok_0.1@ == p.1,
        },
{
    match validate_elf(data) {
        Ok(()) => {},
        Err(m) => return Err(m),
    }
    if le_u16(data, 16) != ET_EXEC {
        return Err("Not an executable ELF");
    }
    let entry = le_u64(data, 24);
    let phoff = le_u64(data, 32);
    let phentsize = le_u16(data, 54) as u64;
    let phnum = le_u16(data, 56) as u64;
    let mut load_base: u64 = usize::MAX as u64;
    let mut load_end: u64 = 0;
    let mut segs: Vec<ElfSegment> = Vec::new();
    let mut i: u64 = 0;
    let ghost d = data@;
    let ghost total = plan_from(d, phoff as int, phentsize as int, phnum as int, 0, usize::MAX as int, 0);
    proof {
        assert(segs@ =~= Seq::<ElfSegment>::empty());
        lemma_combine_empty(total);
    }
    while i < phnum
        invariant
            d == data@,
            i <= phnum,
            phnum <= 0xffff,
            phentsize <= 0xffff,
            load_base <= usize::MAX,
            load_end <= usize::MAX,
            total == combine(segs@, plan_from(d, phoff as int, phentsize as int, phnum as int, i as int, load_base as int, load_end as int)),
            header_error(d) is None,
            le16(d, 16) == ET_EXEC,
            phoff == le64(d, 32),
            phentsize == le16(d, 54),
            phnum == le16(d, 56),
            entry == le64(d, 24),
            total == plan_from(d, phoff as int, phentsize as int, phnum as int, 0, usize::MAX as int, 0),
        decreases phnum - i,
    {
        assert(i * phentsize <= 0xffff * 0xffff) by (nonlinear_arith)
            requires
                i <= 0xffff,
                phentsize <= 0xffff,
        ;
        let step: u64 = i * phentsize;
        if phoff > u64::MAX - step || phoff + step > (data.len() as u64) || phoff + step > data.len() as u64 - PHDR_SIZE as u64 {
            proof {
                lemma_plan_bad_header(d, phoff as int, phentsize as int, phnum as int, i as int, load_base as int, load_end as int);
            }
            return Err("Program header out of bounds");
        }
        let off = (phoff + step) as usize;
        let p_type = le_u32(data, off);
        if p_type != PT_LOAD {
            proof {
                lemma_plan_skip(d, phoff as int, phentsize as int, phnum as int, i as int, load_base as int, load_end as int);
            }
            i += 1;
            continue;
        }
        proof {
            lemma_plan_segment(d, phoff as int, phentsize as int, phnum as int, i as int, load_base as int, load_end as int);
        }
        let fo = le_u64(data, off + 8);
        let ma = le_u64(data, off + 24);
        let fs = le_u64(data, off + 32);
        let ms = le_u64(data, off + 40);
        if fo > usize::MAX as u64 || fs > usize::MAX as u64 || ma > usize::MAX as u64 || ms > usize::MAX as u64
            || fo > data.len() as u64 || fs > data.len() as u64 - fo || ma > usize::MAX as u64 - ms {
            return Err("Segment data out of bounds");
        }
        let seg = ElfSegment { file_offset: fo as usize, mem_addr: ma as usize, file_size: fs as usize, mem_size: ms as usize };
        let ghost before = segs@;
        let ghost ob = load_base as int;
        let ghost oe = load_end as int;
        segs.push(seg);
        if ma < load_base {
            load_base = ma;
        }
        if ma + ms > load_end {
            load_end = ma + ms;
        }
        proof {
            lemma_combine_push(before, seg, plan_from(d, phoff as int, phentsize as int, phnum as int, i + 1, load_base as int, load_end as int));
        }
        i += 1;
    }
    proof {
        lemma_plan_done(d, phoff as int, phentsize as int, phnum as int, i as int, load_base as int, load_end as int);
        assert(segs@ =~= segs@ + Seq::<ElfSegment>::empty());
    }
    if load_base >= load_end {
        return Err("No LOAD segments found");
    }
    Ok((ElfLoadResult { entry_point: entry as usize, load_base: load_base as usize, load_size: (load_end - load_base) as usize }, segs))
}

/// Segment `seg` lies inside the memory window of `len` bytes at `base`,
/// and its file bytes inside the image of `dlen` bytes.
pub open spec fn seg_fits(seg: ElfSegment, base: usize, len: int, dlen: int) -> bool {
    &&& seg.mem_addr >= base
    &&& seg.mem_addr - base + seg.file_size <= len
    &&& seg.mem_addr - base + seg.mem_size <= len
    &&& seg.file_offset + seg.file_size <= dlen
}

/// The window `m` (memory from address `base` on) after loading `seg` of
/// the image `data`: its file bytes at its address, then zeros up to its
/// memory size.
pub open spec fn apply_segment(m: Seq<u8>, data: Seq<u8>, seg: ElfSegment, base: int) -> Seq<u8> {
    let off = seg.mem_addr - base;
    Seq::new(
        m.len(),
        |i: int|
            if off <= i < off + seg.file_size {
                data[seg.file_offset + (i - off)]
            } else if off + seg.file_size <= i < off + seg.mem_size {
                0u8
            } else {
                m[i]
            },
    )
}

/// The window `m` after loading the segments `segs` in order.
pub open spec fn apply_segments(m: Seq<u8>, data: Seq<u8>, segs: Seq<ElfSegment>, base: int) -> Seq<u8>
    decreases segs.len(),
{
    if segs.len() == 0 {
        m
    } else {
        apply_segment(apply_segments(m, data, segs.drop_last(), base), data, segs.last(), base)
    }
}

/// Load the segments `segs` of the image `data` into `mem`, the memory
/// from address `base` on: each segment's file bytes are copied to its
/// address and the rest of its memory is zeroed, in order.
pub fn copy_segments(data: &[u8], segs: &[ElfSegment], base: usize, mem: &mut [u8])
    requires
        forall|k: int| 0 <= k < segs@.len() ==> seg_fits(#[trigger] segs@[k], base, old(mem)@.len() as int, data@.len() as int),
    ensures
        final(mem)@ == apply_segments(old(mem)@, data@, segs@, base as int),
{
    let mut k: usize = 0;
    while k < segs.len()
        invariant
            k <= segs@.len(),
            mem@.len() == old(mem)@.len(),
            forall|q: int| 0 <= q < segs@.len() ==> seg_fits(#[trigger] segs@[q], base, old(mem)@.len() as int, data@.len() as int),
            mem@ == apply_segments(old(mem)@, data@, segs@.subrange(0, k as int), base as int),
        decreases segs.len() - k,
    {
        let seg = segs[k];
        proof {
            assert(seg_fits(segs@[k as int], base, old(mem)@.len() as int, data@.len() as int));
            assert(segs@.subrange(0, k + 1).drop_last() =~= segs@.subrange(0, k as int));
        }
        let ghost before = mem@;
        let off = seg.mem_addr - base;
        let mut j: usize = 0;
        while j < seg.file_size
            invariant
                j <= seg.file_size,
                off == seg.mem_addr - base,
                seg_fits(seg, base, old(mem)@.len() as int, data@.len() as int),
                mem@.len() == before.len(),
                before.len() == old(mem)@.len(),
                forall|i: int| 0 <= i < mem@.len() ==> #[trigger] mem@[i] == if off <= i < off + j {
                    data@[seg.file_offset + (i - off)]
                } else {
                    before[i]
                },
            decreases seg.file_size - j,
        {
            let mlen = mem.len();
            let dlen = data.len();
            assert(off + j < mlen);
            assert(seg.file_offset + j < dlen);
            mem[off + j] = data[seg.file_offset + j];
            j += 1;
        }
        let mut z: usize = seg.file_size;
        while z < seg.mem_size
            invariant
                seg.file_size <= z <= seg.mem_size || (z == seg.file_size && seg.mem_size < seg.file_size),
                off == seg.mem_addr - base,
                seg_fits(seg, base, old(mem)@.len() as int, data@.len() as int),
                mem@.len() == before.len(),
                before.len() == old(mem)@.len(),
                forall|i: int| 0 <= i < mem@.len() ==> #[trigger] mem@[i] == if off <= i < off + seg.file_size {
                    data@[seg.file_offset + (i - off)]
                } else if off + seg.file_size <= i < off + z {
                    0u8
                } else {
                    before[i]
                },
            decreases seg.mem_size - z,
        {
            let mlen = mem.len();
            assert(off + z < mlen);
            mem[off + z] = 0;
            z += 1;
        }
        proof {
            assert(mem@ =~= apply_segment(before, data@, seg, base as int));
        }
        k += 1;
    }
    proof {
        assert(segs@.subrange(0, segs@.len() as int) =~= segs@);
    }
}

} // verus!
