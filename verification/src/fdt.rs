//! Flattened Device Tree: a walk of the structure block of a DTB image that
//! yields each node with the properties used at boot (compatible, reg,
//! interrupts, timebase-frequency).
//!
//! The image is a byte slice. Reads that would leave the slice end the walk.

use vstd::prelude::*;
use vstd::slice::slice_subrange;
use vstd::string::StringSliceAdditionalSpecFns;
use crate::text::{utf8_or_empty, utf8_text, bytes_eq};

verus! {

pub const FDT_MAGIC: u32 = 0xd00d_feed;
pub const FDT_BEGIN_NODE: u32 = 1;
pub const FDT_END_NODE: u32 = 2;
pub const FDT_PROP: u32 = 3;
pub const FDT_NOP: u32 = 4;
pub const FDT_END: u32 = 9;
pub const MAX_DEPTH: usize = 16;

/// The big-endian 32-bit word at `i`.
pub open spec fn be32_at(d: Seq<u8>, i: int) -> u32 {
    (d[i] as int * 0x100_0000 + d[i + 1] as int * 0x1_0000 + d[i + 2] as int * 0x100 + d[i + 3] as int) as u32
}

/// The big-endian 64-bit word at `i`.
pub open spec fn be64_at(d: Seq<u8>, i: int) -> u64 {
    (be32_at(d, i) as int * 0x1_0000_0000 + be32_at(d, i + 4) as int) as u64
}

/// The big-endian 32-bit value of the first four bytes.
pub fn read_be32_slice(bytes: &[u8]) -> (r: u32)
    requires
        bytes.len() >= 4,
    ensures
        r == be32_at(bytes@, 0),
{
    (bytes[0] as u32) * 0x100_0000 + (bytes[1] as u32) * 0x1_0000 + (bytes[2] as u32) * 0x100 + (bytes[3] as u32)
}

fn be32_at_exec(d: &[u8], i: usize) -> (r: u32)
    requires
        i + 4 <= d.len(),
    ensures
        r == be32_at(d@, i as int),
{
    (d[i] as u32) * 0x100_0000 + (d[i + 1] as u32) * 0x1_0000 + (d[i + 2] as u32) * 0x100 + (d[i + 3] as u32)
}

/// The big-endian 64-bit value of the first eight bytes.
pub fn read_be64_slice(bytes: &[u8]) -> (r: u64)
    requires
        bytes.len() >= 8,
    ensures
        r == be64_at(bytes@, 0),
{
    let hi = be32_at_exec(bytes, 0);
    let lo = be32_at_exec(bytes, 4);
    (hi as u64) * 0x1_0000_0000 + (lo as u64)
}

/// The index of the first zero byte of `d` at or after `i`, or `d.len()`.
pub open spec fn nul_from(d: Seq<u8>, i: int) -> int
    decreases d.len() - i,
{
    if i >= d.len() {
        d.len() as int
    } else if d[i] == 0 {
        i
    } else {
        nul_from(d, i + 1)
    }
}

pub proof fn lemma_nul_from(d: Seq<u8>, i: int)
    requires
        0 <= i <= d.len(),
    ensures
        i <= nul_from(d, i) <= d.len(),
        nul_from(d, i) < d.len() ==> d[nul_from(d, i)] == 0,
        forall|k: int| i <= k < nul_from(d, i) ==> d[k] != 0,
    decreases d.len() - i,
{
    if i < d.len() && d[i] != 0 {
        lemma_nul_from(d, i + 1);
    }
}

/// The position of the first zero byte at or after `i` (or the length).
fn find_nul(d: &[u8], i: usize) -> (r: usize)
    requires
        i <= d.len(),
    ensures
        r == nul_from(d@, i as int),
{
    let mut k = i;
    while k < d.len() && d[k] != 0
        invariant
            i <= k <= d.len(),
            nul_from(d@, i as int) == nul_from(d@, k as int),
        decreases d.len() - k,
    {
        k += 1;
    }
    k
}

/// The zero-terminated string at `i` (up to the end of `d` when no zero
/// byte follows; empty when `i` is past the end).
pub open spec fn cstr_at(d: Seq<u8>, i: int) -> Seq<u8> {
    if i >= d.len() {
        Seq::empty()
    } else {
        d.subrange(i, nul_from(d, i))
    }
}

/// The first zero-terminated string of `d`, if it is not empty.
pub open spec fn first_nul_string_spec(d: Seq<u8>) -> Option<Seq<u8>> {
    let e = nul_from(d, 0);
    if e == 0 {
        None
    } else {
        Some(d.subrange(0, e))
    }
}

/// The non-empty zero-separated strings of `d`, in order.
pub open spec fn nul_items(d: Seq<u8>) -> Seq<Seq<u8>>
    decreases d.len(),
{
    if d.len() == 0 {
        Seq::empty()
    } else {
        let e = nul_from(d, 0);
        proof {
            lemma_nul_from(d, 0);
        }
        let rest = if e < d.len() { d.subrange(e + 1, d.len() as int) } else { Seq::<u8>::empty() };
        if e <= 0 {
            nul_items(rest)
        } else {
            seq![d.subrange(0, e)] + nul_items(rest)
        }
    }
}

/// The first base/size pair of a `reg` property.
#[derive(Clone, Copy, Debug, PartialEq, Eq, Structural)]
pub struct FdtReg {
    pub base: usize,
    pub size: usize,
}

/// A node of the tree, its properties borrowed from the image.
#[derive(Clone, Copy)]
pub struct FdtNode<'a> {
    pub name: &'a [u8],
    compatible: Option<&'a [u8]>,
    reg: Option<&'a [u8]>,
    interrupt: Option<u32>,
    timebase_frequency: Option<u32>,
}

/// The first base/size pair of the `reg` property of node `n`.
pub open spec fn reg_spec(n: FdtNodeView) -> Option<FdtReg> {
    match n.reg {
        None => None,
        Some(g) => if g.len() >= 16 {
            Some(FdtReg { base: be64_at(g, 0) as usize, size: be64_at(g, 8) as usize })
        } else if g.len() >= 8 {
            Some(FdtReg { base: be32_at(g, 0) as usize, size: be32_at(g, 4) as usize })
        } else {
            None
        },
    }
}

/// What a node holds.
pub struct FdtNodeView {
    pub name: Seq<u8>,
    pub compatible: Option<Seq<u8>>,
    pub reg: Option<Seq<u8>>,
    pub interrupt: Option<u32>,
    pub timebase_frequency: Option<u32>,
}

pub open spec fn opt_bytes(o: Option<&[u8]>) -> Option<Seq<u8>> {
    match o {
        Some(b) => Some(b@),
        None => None,
    }
}

impl<'a> View for FdtNode<'a> {
    type V = FdtNodeView;

    closed spec fn view(&self) -> FdtNodeView {
        FdtNodeView {
            name: self.name@,
            compatible: opt_bytes(self.compatible),
            reg: opt_bytes(self.reg),
            interrupt: self.interrupt,
            timebase_frequency: self.timebase_frequency,
        }
    }
}

pub open spec fn opt_node_view(o: Option<FdtNode>) -> Option<FdtNodeView> {
    match o {
        Some(n) => Some(n@),
        None => None,
    }
}

/// The first zero-terminated string of `data`, if it is not empty.
pub fn first_nul_string(data: &[u8]) -> (r: Option<&[u8]>)
    ensures
        opt_bytes(r) == first_nul_string_spec(data@),
{
    let end = find_nul(data, 0);
    proof {
        lemma_nul_from(data@, 0);
    }
    if end == 0 {
        None
    } else {
        Some(slice_subrange(data, 0, end))
    }
}

/// The non-empty zero-separated strings of a byte buffer, one at a time.
pub struct NulStringIter<'a> {
    data: &'a [u8],
}

impl<'a> NulStringIter<'a> {
    pub fn new(data: &'a [u8]) -> (r: Self)
        ensures
            r.rest() == data@,
    {
        NulStringIter { data }
    }

    /// The bytes not yet handed out.
    pub closed spec fn rest(self) -> Seq<u8> {
        self.data@
    }

    /// The next non-empty string, or `None` when none is left.
    pub fn next(&mut self) -> (r: Option<&'a [u8]>)
        ensures
            match r {
                Some(item) => nul_items(old(self).rest()).len() > 0 && item@ == nul_items(old(self).rest())[0]
                    && nul_items(final(self).rest()) == nul_items(old(self).rest()).drop_first(),
                None => nul_items(old(self).rest()).len() == 0,
            },
    {
        loop
            invariant
                nul_items(self.rest()) == nul_items(old(self).rest()),
            decreases self.data.len(),
        {
            if self.data.len() == 0 {
                return None;
            }
            let end = find_nul(self.data, 0);
            proof {
                lemma_nul_from(self.data@, 0);
            }
            let item = slice_subrange(self.data, 0, end);
            let ghost before = self.data@;
            self.data = if end < self.data.len() {
                slice_subrange(self.data, end + 1, self.data.len())
            } else {
                slice_subrange(self.data, 0, 0)
            };
            proof {
                if end >= before.len() {
                    assert(self.data@ =~= Seq::<u8>::empty());
                }
            }
            if item.len() != 0 {
                proof {
                    assert(nul_items(before) == seq![item@] + nul_items(self.data@));
                    assert((seq![item@] + nul_items(self.data@)).drop_first() =~= nul_items(self.data@));
                }
                return Some(item);
            }
        }
    }
}

impl<'a> FdtNode<'a> {
    /// The node name (without the unit address separator handling).
    pub fn name(&self) -> (r: &'a [u8])
        ensures
            r@ == self@.name,
    {
        self.name
    }

    /// The first string of the `compatible` list, as text; none when it is
    /// not valid UTF-8.
    pub fn first_compatible(&self) -> (r: Option<&'a str>)
        ensures
            match self@.compatible {
                None => r is None,
                Some(c) => match first_nul_string_spec(c) {
                    None => r is None,
                    Some(s) => if vstd::utf8::valid_utf8(s) {
                        r is Some && r.unwrap().spec_bytes() == s
                    } else {
                        r is None
                    },
                },
            },
    {
        match self.compatible {
            None => None,
            Some(data) => match first_nul_string(data) {
                None => None,
                Some(s) => {
                    let t = utf8_or_empty(s);
                    if t.as_bytes().len() == 0 && s.len() > 0 {
                        None
                    } else {
                        Some(t)
                    }
                },
            },
        }
    }

    /// Whether `expected` is one of the strings of the `compatible` list.
    pub fn compatible_matches(&self, expected: &str) -> (r: bool)
        ensures
            r == match self@.compatible {
                None => false,
                Some(c) => nul_items(c).contains(expected.spec_bytes()),
            },
    {
        let data = match self.compatible {
            None => return false,
            Some(d) => d,
        };
        let want = expected.as_bytes();
        let mut it = NulStringIter::new(data);
        let ghost all = nul_items(data@);
        let ghost mut seen: int = 0;
        loop
            invariant
                0 <= seen <= all.len(),
                nul_items(it.rest()) == all.subrange(seen, all.len() as int),
                forall|k: int| 0 <= k < seen ==> all[k] != want@,
                all == nul_items(data@),
                want@ == expected.spec_bytes(),
                self@.compatible == Some(data@),
            decreases all.len() - seen,
        {
            match it.next() {
                None => {
                    proof {
                        assert(seen == all.len());
                        assert forall|k: int| 0 <= k < all.len() implies all[k] != want@ by {
                            if k >= seen {
                                assert(all.subrange(seen, all.len() as int)[k - seen] == all[k]);
                            }
                        }
                    }
                    return false;
                },
                Some(item) => {
                    proof {
                        assert(all.subrange(seen, all.len() as int)[0] == all[seen]);
                        assert(all.subrange(seen, all.len() as int).drop_first() =~= all.subrange(seen + 1, all.len() as int));
                    }
                    if bytes_eq(item, want) {
                        proof {
                            assert(0 <= seen < all.len());
                            assert(all[seen] == want@);
                            assert(all.contains(want@));
                        }
                        return true;
                    }
                    proof {
                        seen = seen + 1;
                    }
                },
            }
        }
    }

    /// The raw `reg` property.
    pub fn reg_raw(&self) -> (r: Option<&'a [u8]>)
        ensures
            opt_bytes(r) == self@.reg,
    {
        self.reg
    }

    /// The first base/size pair of `reg`: two 64-bit cells when the
    /// property has at least 16 bytes, else two 32-bit cells when it has at
    /// least 8, else none.
    pub fn first_reg(&self) -> (r: Option<FdtReg>)
        ensures
            r == reg_spec(self@),
    {
        let reg = match self.reg {
            None => return None,
            Some(g) => g,
        };
        if reg.len() >= 16 {
            let a = slice_subrange(reg, 0, 8);
            let b = slice_subrange(reg, 8, 16);
            proof {
                assert(be64_at(a@, 0) == be64_at(reg@, 0));
                assert(be64_at(b@, 0) == be64_at(reg@, 8));
            }
            Some(FdtReg { base: read_be64_slice(a) as usize, size: read_be64_slice(b) as usize })
        } else if reg.len() >= 8 {
            let a = slice_subrange(reg, 0, 4);
            let b = slice_subrange(reg, 4, 8);
            proof {
                assert(be32_at(a@, 0) == be32_at(reg@, 0));
                assert(be32_at(b@, 0) == be32_at(reg@, 4));
            }
            Some(FdtReg { base: read_be32_slice(a) as usize, size: read_be32_slice(b) as usize })
        } else {
            None
        }
    }

    /// The first cell of `interrupts`.
    pub fn interrupt(&self) -> (r: Option<u32>)
        ensures
            r == self@.interrupt,
    {
        self.interrupt
    }

    /// The first cell of `interrupts`, or 0 when there is none.
    pub fn interrupt_or_zero(&self) -> (r: u32)
        ensures
            r == match self@.interrupt {
                Some(i) => i,
                None => 0,
            },
    {
        match self.interrupt {
            Some(irq) => irq,
            None => 0,
        }
    }

    /// The `timebase-frequency` property.
    pub fn timebase_frequency(&self) -> (r: Option<u32>)
        ensures
            r == self@.timebase_frequency,
    {
        self.timebase_frequency
    }
}

/// Where the walk stands: the read position, the nesting depth and the
/// open node at each level below [`MAX_DEPTH`].
#[verifier::ext_equal]
pub struct WalkState {
    pub pos: int,
    pub depth: int,
    pub stack: Seq<Option<FdtNodeView>>,
}

/// One step of the walk: `None` when it stops; else the next state and
/// the node that the step closed, if any.
pub enum Step {
    Stop,
    Go(WalkState, Option<FdtNodeView>),
}

pub open spec fn align4(n: int) -> int {
    ((n + 3) / 4) * 4
}

pub open spec fn min_int(a: int, b: int) -> int {
    if a < b { a } else { b }
}

pub open spec fn prop_name_is(name: Seq<u8>, lit: &str) -> bool {
    name == lit.spec_bytes()
}

/// The node `n` after the property `pname` with the value `data`.
pub open spec fn with_prop(n: FdtNodeView, pname: Seq<u8>, data: Seq<u8>) -> FdtNodeView {
    if prop_name_is(pname, "compatible") {
        FdtNodeView { compatible: Some(data), ..n }
    } else if prop_name_is(pname, "reg") {
        FdtNodeView { reg: Some(data), ..n }
    } else if prop_name_is(pname, "interrupts") {
        if data.len() >= 4 { FdtNodeView { interrupt: Some(be32_at(data, 0)), ..n } } else { n }
    } else if prop_name_is(pname, "timebase-frequency") {
        if data.len() >= 4 { FdtNodeView { timebase_frequency: Some(be32_at(data, 0)), ..n } } else { n }
    } else {
        n
    }
}

/// One token of the structure block, read at `st.pos` of the image `d`
/// whose structure ends at `end` and whose strings start at `strs`.
pub open spec fn step(d: Seq<u8>, end: int, strs: int, st: WalkState) -> Step {
    let pos = st.pos;
    if pos + 4 > d.len() {
        Step::Stop
    } else {
        let token = be32_at(d, pos);
        let p = pos + 4;
        if token == FDT_BEGIN_NODE {
            let e = nul_from(d, p);
            if e >= d.len() {
                Step::Stop
            } else {
                let name = d.subrange(p, e);
                let node = FdtNodeView { name, compatible: None, reg: None, interrupt: None, timebase_frequency: None };
                let stack = if st.depth < MAX_DEPTH { st.stack.update(st.depth, Some(node)) } else { st.stack };
                Step::Go(WalkState { pos: min_int(p + align4(e - p + 1), end), depth: st.depth + 1, stack }, None)
            }
        } else if token == FDT_END_NODE {
            if st.depth > 0 {
                let dp = st.depth - 1;
                if dp < MAX_DEPTH && st.stack[dp] is Some {
                    Step::Go(WalkState { pos: min_int(p, end), depth: dp, stack: st.stack.update(dp, None) }, st.stack[dp])
                } else {
                    Step::Go(WalkState { pos: min_int(p, end), depth: dp, stack: st.stack }, None)
                }
            } else {
                Step::Go(WalkState { pos: min_int(p, end), ..st }, None)
            }
        } else if token == FDT_PROP {
            if p + 4 > d.len() {
                Step::Stop
            } else {
                let len = be32_at(d, p) as int;
                let next = min_int(p + 8 + align4(len), end);
                if st.depth == 0 || st.depth - 1 >= MAX_DEPTH || st.stack[st.depth - 1] is None {
                    Step::Go(WalkState { pos: next, ..st }, None)
                } else if p + 8 + len > d.len() {
                    Step::Stop
                } else {
                    let nameoff = be32_at(d, p + 4) as int;
                    let pname = cstr_at(d, strs + nameoff);
                    let data = d.subrange(p + 8, p + 8 + len);
                    let node = with_prop(st.stack[st.depth - 1].unwrap(), pname, data);
                    Step::Go(WalkState { pos: next, stack: st.stack.update(st.depth - 1, Some(node)), ..st }, None)
                }
            }
        } else if token == FDT_NOP {
            Step::Go(WalkState { pos: min_int(p, end), ..st }, None)
        } else {
            Step::Stop
        }
    }
}

/// The nodes that the walk closes from the state `st` on, in order.
pub open spec fn walk_from(d: Seq<u8>, end: int, strs: int, st: WalkState) -> Seq<FdtNodeView>
    decreases end - st.pos,
{
    if st.pos >= end {
        Seq::empty()
    } else {
        match step(d, end, strs, st) {
            Step::Stop => Seq::empty(),
            Step::Go(next, closed) => if next.pos > st.pos {
                (match closed {
                    Some(n) => seq![n],
                    None => Seq::empty(),
                }) + walk_from(d, end, strs, next)
            } else {
                Seq::empty()
            },
        }
    }
}

/// Every node of the image `d`, in the order in which the walk closes them
/// (children before their parent): none when the header is short or its
/// magic is wrong.
pub open spec fn fdt_nodes(d: Seq<u8>) -> Seq<FdtNodeView> {
    if d.len() < 16 || be32_at(d, 0) != FDT_MAGIC {
        Seq::empty()
    } else {
        let end = min_int(be32_at(d, 4) as int, d.len() as int);
        let st = WalkState {
            pos: be32_at(d, 8) as int,
            depth: 0,
            stack: Seq::new(MAX_DEPTH as nat, |i: int| None),
        };
        walk_from(d, end, be32_at(d, 12) as int, st)
    }
}

pub open spec fn node_views(s: Seq<FdtNode>) -> Seq<FdtNodeView> {
    s.map_values(|n: FdtNode| n@)
}

/// The state of the walk as exec values.
pub open spec fn exec_state(pos: usize, depth: usize, stack: Seq<Option<FdtNode>>) -> WalkState {
    WalkState { pos: pos as int, depth: depth as int, stack: stack.map_values(|o: Option<FdtNode>| opt_node_view(o)) }
}

/// The first position after `p` and `adv` more bytes, or `end` when that
/// is at or past `end`.
fn advance(p: usize, adv: u64, end: usize) -> (r: usize)
    ensures
        r == min_int(p + adv, end as int),
{
    if p >= end || adv >= (end - p) as u64 {
        end
    } else {
        p + adv as usize
    }
}

/// Every node of the image, in the order in which the walk closes them.
#[verifier::rlimit(100)]
#[verifier::spinoff_prover]
pub fn walk_nodes<'a>(dtb: &'a [u8]) -> (r: Vec<FdtNode<'a>>)
    ensures
        node_views(r@) == fdt_nodes(dtb@),
{
    let mut out: Vec<FdtNode<'a>> = Vec::new();
    proof {
        assert(node_views(out@) =~= Seq::<FdtNodeView>::empty());
    }
    if dtb.len() < 16 {
        return out;
    }
    let magic = be32_at_exec(dtb, 0);
    if magic != FDT_MAGIC {
        return out;
    }
    let totalsize = be32_at_exec(dtb, 4) as usize;
    let off_struct = be32_at_exec(dtb, 8) as usize;
    let strs = be32_at_exec(dtb, 12) as usize;
    let end = if totalsize < dtb.len() { totalsize } else { dtb.len() };
    let mut pos = off_struct;
    let mut depth: usize = 0;
    let mut stack: Vec<Option<FdtNode<'a>>> = Vec::new();
    let mut k: usize = 0;
    while k < MAX_DEPTH
        invariant
            k <= MAX_DEPTH,
            stack.len() == k,
            forall|i: int| 0 <= i < k ==> stack@[i] is None,
        decreases MAX_DEPTH - k,
    {
        stack.push(None);
        k += 1;
    }
    let ghost d = dtb@;
    let ghost total = fdt_nodes(d);
    proof {
        assert(exec_state(pos, depth, stack@).stack =~= Seq::new(MAX_DEPTH as nat, |i: int| None::<FdtNodeView>));
        assert(exec_state(pos, depth, stack@) =~= WalkState {
            pos: be32_at(d, 8) as int,
            depth: 0,
            stack: Seq::new(MAX_DEPTH as nat, |i: int| None),
        });
        assert(total == node_views(out@) + walk_from(d, end as int, strs as int, exec_state(pos, depth, stack@)));
    }
    while pos < end
        invariant
            d == dtb@,
            end <= dtb.len(),
            stack.len() == MAX_DEPTH,
            depth <= pos,
            total == node_views(out@) + walk_from(d, end as int, strs as int, exec_state(pos, depth, stack@)),
        ensures
            total == node_views(out@),
        decreases end - pos,
    {
        let ghost st = exec_state(pos, depth, stack@);
        let ghost before = node_views(out@);
        if dtb.len() < 4 || pos > dtb.len() - 4 {
            proof {
                assert(step(d, end as int, strs as int, st) is Stop);
                assert(before =~= before + Seq::<FdtNodeView>::empty());
            }
            break;
        }
        let token = be32_at_exec(dtb, pos);
        let p = pos + 4;
        if token == FDT_BEGIN_NODE {
            let e = find_nul(dtb, p);
            proof {
                lemma_nul_from(d, p as int);
            }
            if e >= dtb.len() {
                proof {
                    assert(step(d, end as int, strs as int, st) is Stop);
                    assert(before =~= before + Seq::<FdtNodeView>::empty());
                }
                break;
            }
            let name = slice_subrange(dtb, p, e);
            let node = FdtNode { name, compatible: None, reg: None, interrupt: None, timebase_frequency: None };
            if depth < MAX_DEPTH {
                stack.set(depth, Some(node));
            }
            let adv: u64 = ((e - p + 4) / 4 * 4) as u64;
            let np = advance(p, adv, end);
            proof {
                let nv = FdtNodeView { name: d.subrange(p as int, e as int), compatible: None, reg: None, interrupt: None, timebase_frequency: None };
                assert(node@ == nv);
                let nstack = if st.depth < MAX_DEPTH { st.stack.update(st.depth, Some(nv)) } else { st.stack };
                assert(exec_state(np, (depth + 1) as usize, stack@).stack =~= nstack);
                assert(step(d, end as int, strs as int, st) == Step::Go(exec_state(np, (depth + 1) as usize, stack@), None));
                assert(node_views(out@) + walk_from(d, end as int, strs as int, exec_state(np, (depth + 1) as usize, stack@))
                    =~= before + (Seq::<FdtNodeView>::empty() + walk_from(d, end as int, strs as int, exec_state(np, (depth + 1) as usize, stack@))));
            }
            depth = depth + 1;
            pos = np;
        } else if token == FDT_END_NODE {
            let np = if p < end { p } else { end };
            if depth > 0 {
                let dp = depth - 1;
                if dp < MAX_DEPTH && stack[dp].is_some() {
                    let n = stack[dp].unwrap();
                    stack.set(dp, None);
                    out.push(n);
                    proof {
                        assert(exec_state(np, dp, stack@).stack =~= st.stack.update(dp as int, None));
                        assert(step(d, end as int, strs as int, st) == Step::Go(exec_state(np, dp, stack@), Some(n@)));
                        assert(node_views(out@) =~= before + seq![n@]);
                    }
                } else {
                    proof {
                        assert(exec_state(np, dp, stack@).stack =~= st.stack);
                        assert(step(d, end as int, strs as int, st) == Step::Go(exec_state(np, dp, stack@), None));
                        assert(before =~= before + Seq::<FdtNodeView>::empty());
                    }
                }
                depth = dp;
            } else {
                proof {
                    assert(step(d, end as int, strs as int, st) == Step::Go(exec_state(np, depth, stack@), None));
                    assert(before =~= before + Seq::<FdtNodeView>::empty());
                }
            }
            proof {
                assert(node_views(out@) + walk_from(d, end as int, strs as int, exec_state(np, depth, stack@))
                    =~= before + ((node_views(out@).subrange(before.len() as int, node_views(out@).len() as int))
                        + walk_from(d, end as int, strs as int, exec_state(np, depth, stack@))));
            }
            pos = np;
        } else if token == FDT_PROP {
            if dtb.len() < 4 || p > dtb.len() - 4 {
                proof {
                    assert(step(d, end as int, strs as int, st) is Stop);
                    assert(before =~= before + Seq::<FdtNodeView>::empty());
                }
                break;
            }
            let len = be32_at_exec(dtb, p) as usize;
            let adv: u64 = 8 + ((len as u64) + 3) / 4 * 4;
            let np = advance(p, adv, end);
            if depth == 0 || depth - 1 >= MAX_DEPTH || stack[depth - 1].is_none() {
                proof {
                    assert(step(d, end as int, strs as int, st) == Step::Go(exec_state(np, depth, stack@), None));
                    assert(before =~= before + Seq::<FdtNodeView>::empty());
                }
                pos = np;
            } else {
                if dtb.len() < 8 || p > dtb.len() - 8 || len > dtb.len() - p - 8 {
                    proof {
                        assert(step(d, end as int, strs as int, st) is Stop);
                        assert(before =~= before + Seq::<FdtNodeView>::empty());
                    }
                    break;
                }
                let nameoff = be32_at_exec(dtb, p + 4) as usize;
                let mut node = stack[depth - 1].unwrap();
                let data = slice_subrange(dtb, p + 8, p + 8 + len);
                let pname: &[u8] = if strs >= dtb.len() || nameoff >= dtb.len() - strs {
                    slice_subrange(dtb, 0, 0)
                } else {
                    let s0 = strs + nameoff;
                    let e2 = find_nul(dtb, s0);
                    proof {
                        lemma_nul_from(d, s0 as int);
                    }
                    slice_subrange(dtb, s0, e2)
                };
                proof {
                    assert(pname@ =~= cstr_at(d, strs + nameoff));
                }
                let ghost old_node = node@;
                if bytes_eq(pname, "compatible".as_bytes()) {
                    node.compatible = Some(data);
                } else if bytes_eq(pname, "reg".as_bytes()) {
                    node.reg = Some(data);
                } else if bytes_eq(pname, "interrupts".as_bytes()) {
                    if len >= 4 {
                        node.interrupt = Some(read_be32_slice(data));
                    }
                } else if bytes_eq(pname, "timebase-frequency".as_bytes()) {
                    if len >= 4 {
                        node.timebase_frequency = Some(read_be32_slice(data));
                    }
                }
                proof {
                    assert(old_node == st.stack[depth - 1].unwrap());
                    assert(node@ == with_prop(old_node, pname@, data@));
                }
                stack.set(depth - 1, Some(node));
                proof {
                    assert(exec_state(np, depth, stack@).stack =~= st.stack.update(depth - 1, Some(node@)));
                    assert(step(d, end as int, strs as int, st) == Step::Go(exec_state(np, depth, stack@), None));
                    assert(before =~= before + Seq::<FdtNodeView>::empty());
                }
                pos = np;
            }
        } else if token == FDT_NOP {
            let np = if p < end { p } else { end };
            proof {
                assert(step(d, end as int, strs as int, st) == Step::Go(exec_state(np, depth, stack@), None));
                assert(before =~= before + Seq::<FdtNodeView>::empty());
            }
            pos = np;
        } else {
            proof {
                assert(step(d, end as int, strs as int, st) is Stop);
                assert(before =~= before + Seq::<FdtNodeView>::empty());
            }
            break;
        }
    }
    out
}

/// A device node: one with a `compatible` list whose first string is text
/// and a `reg` property.
pub struct FdtDevice<'a> {
    pub name: &'a [u8],
    pub compatible: &'a str,
    pub reg: &'a [u8],
    pub irq: u32,
}

/// What a device node gives: its name, first compatible string, `reg`
/// bytes and interrupt (0 for none).
pub struct FdtDeviceView {
    pub name: Seq<u8>,
    pub compatible: Seq<u8>,
    pub reg: Seq<u8>,
    pub irq: u32,
}

impl<'a> View for FdtDevice<'a> {
    type V = FdtDeviceView;

    open spec fn view(&self) -> FdtDeviceView {
        FdtDeviceView { name: self.name@, compatible: self.compatible.spec_bytes(), reg: self.reg@, irq: self.irq }
    }
}

/// The device that node `n` describes, if it is one.
pub open spec fn device_of(n: FdtNodeView) -> Option<FdtDeviceView> {
    match n.compatible {
        None => None,
        Some(c) => match n.reg {
            None => None,
            Some(g) => match first_nul_string_spec(c) {
                None => None,
                Some(s) => if vstd::utf8::valid_utf8(s) {
                    Some(FdtDeviceView { name: n.name, compatible: s, reg: g, irq: match n.interrupt {
                        Some(i) => i,
                        None => 0,
                    } })
                } else {
                    None
                },
            },
        },
    }
}

/// The devices that the nodes `ns` describe, in order.
pub open spec fn devices_of(ns: Seq<FdtNodeView>) -> Seq<FdtDeviceView>
    decreases ns.len(),
{
    if ns.len() == 0 {
        Seq::empty()
    } else {
        devices_of(ns.drop_last()) + match device_of(ns.last()) {
            Some(d) => seq![d],
            None => Seq::empty(),
        }
    }
}

/// The device nodes of the image `dtb`, in walk order: each node with a
/// `compatible` list whose first string is text and a `reg` property.
pub fn parse<'a>(dtb: &'a [u8]) -> (r: Vec<FdtDevice<'a>>)
    ensures
        r@.map_values(|d: FdtDevice<'a>| d@) == devices_of(fdt_nodes(dtb@)),
{
    let nodes = walk_nodes(dtb);
    let ghost nv = fdt_nodes(dtb@);
    let mut out: Vec<FdtDevice<'a>> = Vec::new();
    let mut i: usize = 0;
    proof {
        assert(out@.map_values(|d: FdtDevice<'a>| d@) =~= devices_of(nv.subrange(0, 0)));
    }
    while i < nodes.len()
        invariant
            i <= nodes.len(),
            node_views(nodes@) == nv,
            nv == fdt_nodes(dtb@),
            out@.map_values(|d: FdtDevice<'a>| d@) == devices_of(nv.subrange(0, i as int)),
        decreases nodes.len() - i,
    {
        let node = &nodes[i];
        proof {
            assert(node@ == nv[i as int]);
            assert(nv.subrange(0, i + 1).drop_last() =~= nv.subrange(0, i as int));
            assert(nv.subrange(0, i + 1).last() == nv[i as int]);
        }
        let ghost before = out@;
        match (node.first_compatible(), node.reg_raw()) {
            (Some(compatible), Some(reg)) => {
                let d = FdtDevice { name: node.name(), compatible, reg, irq: node.interrupt_or_zero() };
                out.push(d);
                proof {
                    assert(out@.map_values(|d: FdtDevice<'a>| d@) =~= before.map_values(|d: FdtDevice<'a>| d@).push(d@));
                }
            },
            _ => {},
        }
        i += 1;
    }
    proof {
        assert(nv.subrange(0, nv.len() as int) =~= nv);
    }
    out
}

} // verus!
