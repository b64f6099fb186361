//! File systems: an in-memory tree of files and directories (ramfs), a
//! table of mounted exFAT volumes and the detection of a volume's file
//! system.

pub mod detect;
pub mod exfat;
pub mod mount;

use vstd::prelude::*;
use vstd::string::StringSliceAdditionalSpecFns;
use crate::text::{bytes_eq, copy_prefix, utf8_or_empty, utf8_text};

verus! {

pub const NAME_MAX: usize = 32;
pub const DIR_MAX_ENTRIES: usize = 16;
pub const FILE_MAX_SIZE: usize = 4096;
pub const NODE_POOL_CAP: usize = 64;

#[derive(Debug, Clone, Copy, PartialEq, Eq, Structural)]
pub enum FileType {
    File,
    Directory,
}

#[derive(Debug, Clone, Copy, PartialEq, Eq, Structural)]
pub enum FsError {
    NotFound,
    NotDirectory,
    IsDirectory,
    AlreadyExists,
    NoSpace,
    NameTooLong,
}

/// A node of the tree: an index into its node pool.
#[derive(Debug, Clone, Copy, PartialEq, Eq, Structural)]
pub struct NodeId(pub usize);

impl NodeId {
    pub open spec fn spec_index(self) -> usize {
        self.0
    }
}

/// Open mode bits: read, write, create, truncate.
#[derive(Debug, Clone, Copy, PartialEq, Eq, Structural)]
pub struct OpenFlags(pub u32);

impl OpenFlags {
    pub fn read(&self) -> (r: bool)
        ensures
            r == (self.0 & 1 != 0),
    {
        self.0 & 1 != 0
    }

    pub fn write(&self) -> (r: bool)
        ensures
            r == (self.0 & 2 != 0),
    {
        self.0 & 2 != 0
    }

    pub fn create(&self) -> (r: bool)
        ensures
            r == (self.0 & 4 != 0),
    {
        self.0 & 4 != 0
    }

    pub fn trunc(&self) -> (r: bool)
        ensures
            r == (self.0 & 8 != 0),
    {
        self.0 & 8 != 0
    }
}

/// A line of a directory listing.
pub struct DirEntry {
    pub name: Vec<u8>,
    pub file_type: FileType,
}

impl DirEntry {
    /// The name as text (empty when it is not valid UTF-8).
    pub fn name_str(&self) -> (r: &str)
        ensures
            r.spec_bytes() == utf8_text(self.name@),
    {
        utf8_or_empty(self.name.as_slice())
    }
}

pub struct FileNode {
    pub name: Vec<u8>,
    pub data: Vec<u8>,
}

pub struct DirNode {
    pub name: Vec<u8>,
    pub children: Vec<Option<NodeId>>,
}

/// A file or a directory.
pub enum Vnode {
    File(FileNode),
    Dir(DirNode),
}

/// The name `name` as stored: its first [`NAME_MAX`]` - 1` bytes.
pub open spec fn stored_name(name: Seq<u8>) -> Seq<u8> {
    if name.len() < NAME_MAX { name } else { name.subrange(0, NAME_MAX - 1) }
}

impl Vnode {
    pub open spec fn spec_name(&self) -> Seq<u8> {
        match self {
            Vnode::File(f) => f.name@,
            Vnode::Dir(d) => d.name@,
        }
    }

    pub open spec fn is_dir(&self) -> bool {
        self is Dir
    }

    pub open spec fn spec_children(&self) -> Seq<Option<NodeId>> {
        match self {
            Vnode::Dir(d) => d.children@,
            Vnode::File(_) => Seq::empty(),
        }
    }

    pub open spec fn spec_data(&self) -> Seq<u8> {
        match self {
            Vnode::File(f) => f.data@,
            Vnode::Dir(_) => Seq::empty(),
        }
    }

    /// An empty file named `name` (cut to [`NAME_MAX`]` - 1` bytes).
    pub fn new_file(name: &str) -> (r: Self)
        ensures
            r is File,
            r.spec_name() == stored_name(name.spec_bytes()),
            r.spec_data().len() == 0,
    {
        let b = name.as_bytes();
        Vnode::File(FileNode { name: copy_prefix(b, NAME_MAX - 1), data: Vec::new() })
    }

    /// An empty directory named `name` (cut to [`NAME_MAX`]` - 1` bytes).
    pub fn new_dir(name: &str) -> (r: Self)
        ensures
            r is Dir,
            r.spec_name() == stored_name(name.spec_bytes()),
            r.spec_children() == Seq::new(DIR_MAX_ENTRIES as nat, |i: int| None::<NodeId>),
    {
        let b = name.as_bytes();
        let mut children: Vec<Option<NodeId>> = Vec::new();
        let mut i: usize = 0;
        while i < DIR_MAX_ENTRIES
            invariant
                i <= DIR_MAX_ENTRIES,
                children@ == Seq::new(i as nat, |k: int| None::<NodeId>),
            decreases DIR_MAX_ENTRIES - i,
        {
            children.push(None);
            i += 1;
            proof {
                assert(children@ =~= Seq::new(i as nat, |k: int| None::<NodeId>));
            }
        }
        Vnode::Dir(DirNode { name: copy_prefix(b, NAME_MAX - 1), children })
    }

    /// The name as text (empty when it is not valid UTF-8).
    pub fn name(&self) -> (r: &str)
        ensures
            r.spec_bytes() == utf8_text(self.spec_name()),
    {
        match self {
            Vnode::File(f) => utf8_or_empty(f.name.as_slice()),
            Vnode::Dir(d) => utf8_or_empty(d.name.as_slice()),
        }
    }

    pub fn file_type(&self) -> (r: FileType)
        ensures
            r == if self is Dir { FileType::Directory } else { FileType::File },
    {
        match self {
            Vnode::File(_) => FileType::File,
            Vnode::Dir(_) => FileType::Directory,
        }
    }
}

/// The in-memory tree and the mount table.
pub struct Vfs {
    nodes: Vec<Vnode>,
    root: Option<usize>,
    pub(crate) mounts: Vec<Option<mount::MountInfo>>,
}

impl Vfs {
    pub closed spec fn spec_nodes(self) -> Seq<Vnode> {
        self.nodes@
    }

    pub closed spec fn spec_root(self) -> Option<usize> {
        self.root
    }

    pub open spec fn valid_id(self, i: usize) -> bool {
        i < self.spec_nodes().len()
    }

    pub open spec fn node(self, i: usize) -> Vnode {
        self.spec_nodes()[i as int]
    }

    /// Well-formed: a bounded pool whose directories have their child
    /// slots and point at nodes of the pool, a root directory if any, and
    /// a mount table of [`mount::MOUNT_SLOTS`] slots.
    pub closed spec fn wf(self) -> bool {
        &&& self.nodes.len() <= NODE_POOL_CAP
        &&& self.root is Some ==> self.root.unwrap() < self.nodes.len() && self.nodes@[self.root.unwrap() as int] is Dir
        &&& forall|i: int| 0 <= i < self.nodes.len() ==> #[trigger] node_wf(self.nodes@[i], self.nodes.len() as int)
        &&& self.mounts.len() == mount::MOUNT_SLOTS
        &&& forall|i: int| 0 <= i < self.mounts.len() ==> (#[trigger] self.mounts@[i]) is Some ==> self.mounts@[i].unwrap().wf()
    }

    /// An empty tree with an empty mount table.
    pub fn new() -> (r: Self)
        ensures
            r.wf(),
            r.spec_nodes().len() == 0,
            r.spec_root() is None,
            r.mounts_empty(),
    {
        let mut mounts: Vec<Option<mount::MountInfo>> = Vec::new();
        let mut i: usize = 0;
        while i < mount::MOUNT_SLOTS
            invariant
                i <= mount::MOUNT_SLOTS,
                mounts.len() == i,
                forall|k: int| 0 <= k < i ==> mounts@[k] is None,
            decreases mount::MOUNT_SLOTS - i,
        {
            mounts.push(None);
            i += 1;
        }
        let r = Vfs { nodes: Vec::new(), root: None, mounts };
        proof {
            assert forall|i: int| 0 <= i < r.spec_mounts().len() implies #[trigger] r.spec_mounts()[i] is None by {
                assert(r.mounts@[i] is None);
            }
        }
        r
    }
}

impl Vfs {
    /// The mount slots.
    pub closed spec fn spec_mounts(self) -> Seq<Option<mount::MountView>> {
        self.mounts@.map_values(|o: Option<mount::MountInfo>| mount::opt_mount(o))
    }

    pub closed spec fn mounts_same(self, other: Vfs) -> bool {
        self.mounts@ == other.mounts@
    }

    /// A well-formed tree holds at most [`NODE_POOL_CAP`] nodes, its root
    /// (when set) is a directory among them, every child of a directory is
    /// one of its nodes, and the mount table has its fixed size.
    pub proof fn lemma_wf_tree(self)
        requires
            self.wf(),
        ensures
            self.spec_nodes().len() <= NODE_POOL_CAP,
            self.spec_root() is Some ==> self.valid_id(self.spec_root().unwrap()) && self.node(
                self.spec_root().unwrap(),
            ).is_dir(),
            forall|i: int, k: int|
                0 <= i < self.spec_nodes().len() && 0 <= k < (#[trigger] self.spec_nodes()[i]).spec_children().len()
                    && self.spec_nodes()[i].spec_children()[k] is Some ==> (#[trigger] self.spec_nodes()[i].spec_children()[k]).unwrap().0
                    < self.spec_nodes().len(),
            self.spec_mounts().len() == mount::MOUNT_SLOTS,
    {
        assert forall|i: int, k: int|
            0 <= i < self.spec_nodes().len() && 0 <= k < (#[trigger] self.spec_nodes()[i]).spec_children().len()
                && self.spec_nodes()[i].spec_children()[k] is Some implies (#[trigger] self.spec_nodes()[i].spec_children()[k]).unwrap().0
                < self.spec_nodes().len() by {
            assert(node_wf(self.nodes@[i], self.nodes.len() as int));
        }
    }

    /// Two trees with the same mount table show the same mounts.
    pub proof fn lemma_mounts_same(self, other: Vfs)
        requires
            self.mounts_same(other),
        ensures
            self.spec_mounts() == other.spec_mounts(),
    {
    }

    pub open spec fn mounts_empty(self) -> bool {
        forall|i: int| 0 <= i < self.spec_mounts().len() ==> #[trigger] self.spec_mounts()[i] is None
    }
}

pub open spec fn node_wf(v: Vnode, n: int) -> bool {
    &&& v.spec_name().len() < NAME_MAX
    &&& v.spec_data().len() <= FILE_MAX_SIZE
    &&& v is Dir ==> v.spec_children().len() == DIR_MAX_ENTRIES
    &&& forall|k: int| 0 <= k < v.spec_children().len() && (#[trigger] v.spec_children()[k]) is Some
        ==> v.spec_children()[k].unwrap().0 < n
}

/// The first child (in slot order) of `ch` whose name, read as text, is
/// `name`.
pub open spec fn child_named(fs: Vfs, ch: Seq<Option<NodeId>>, name: Seq<u8>, k: int) -> Option<usize>
    decreases ch.len() - k,
{
    if k >= ch.len() || k < 0 {
        None
    } else if ch[k] is Some && utf8_text(fs.node(ch[k].unwrap().0).spec_name()) == name {
        Some(ch[k].unwrap().0)
    } else {
        child_named(fs, ch, name, k + 1)
    }
}

/// The first free slot of `ch` from `k` on.
pub open spec fn free_slot(ch: Seq<Option<NodeId>>, k: int) -> Option<int>
    decreases ch.len() - k,
{
    if k >= ch.len() || k < 0 {
        None
    } else if ch[k] is None {
        Some(k)
    } else {
        free_slot(ch, k + 1)
    }
}

/// What a lookup of `name` in `dir` gives.
pub open spec fn lookup_spec(fs: Vfs, dir: usize, name: Seq<u8>) -> Result<usize, FsError> {
    if !fs.valid_id(dir) {
        Err(FsError::NotFound)
    } else if !fs.node(dir).is_dir() {
        Err(FsError::NotDirectory)
    } else {
        match child_named(fs, fs.node(dir).spec_children(), name, 0) {
            Some(c) => Ok(c),
            None => Err(FsError::NotFound),
        }
    }
}

pub open spec fn id_result(r: Result<NodeId, FsError>) -> Result<usize, FsError> {
    match r {
        Ok(n) => Ok(n.0),
        Err(e) => Err(e),
    }
}

/// The root directory.
pub fn root(fs: &Vfs) -> (r: Result<NodeId, FsError>)
    ensures
        id_result(r) == match fs.spec_root() {
            Some(i) => Ok(i),
            None => Err(FsError::NotFound),
        },
{
    match fs.root {
        Some(i) => Ok(NodeId(i)),
        None => Err(FsError::NotFound),
    }
}

/// The kind of node `id`.
pub fn node_file_type(fs: &Vfs, id: NodeId) -> (r: Result<FileType, FsError>)
    ensures
        r == if !fs.valid_id(id.0) {
            Err(FsError::NotFound)
        } else if fs.node(id.0).is_dir() {
            Ok(FileType::Directory)
        } else {
            Ok(FileType::File)
        },
{
    if id.0 >= fs.nodes.len() {
        return Err(FsError::NotFound);
    }
    Ok(fs.nodes[id.0].file_type())
}

/// The name of node `id`, as text.
pub fn node_name(fs: &Vfs, id: NodeId) -> (r: Result<&str, FsError>)
    ensures
        !fs.valid_id(id.0) ==> r == Err::<&str, FsError>(FsError::NotFound),
        fs.valid_id(id.0) ==> r is Ok && r.unwrap().spec_bytes() == utf8_text(fs.node(id.0).spec_name()),
{
    if id.0 >= fs.nodes.len() {
        return Err(FsError::NotFound);
    }
    Ok(fs.nodes[id.0].name())
}

/// The child of `dir` named `name`.
pub fn lookup(fs: &Vfs, dir: NodeId, name: &str) -> (r: Result<NodeId, FsError>)
    requires
        fs.wf(),
    ensures
        id_result(r) == lookup_spec(*fs, dir.0, name.spec_bytes()),
{
    lookup_bytes(fs, dir.0, name.as_bytes())
}

fn lookup_bytes(fs: &Vfs, dir: usize, name: &[u8]) -> (r: Result<NodeId, FsError>)
    requires
        fs.wf(),
    ensures
        id_result(r) == lookup_spec(*fs, dir, name@),
        r is Ok ==> fs.valid_id(r.unwrap().0),
{
    if dir >= fs.nodes.len() {
        return Err(FsError::NotFound);
    }
    match &fs.nodes[dir] {
        Vnode::Dir(d) => {
            proof {
                assert(node_wf(fs.nodes@[dir as int], fs.nodes.len() as int));
            }
            match find_child(fs, &d.children, name) {
                Some(c) => Ok(NodeId(c)),
                None => Err(FsError::NotFound),
            }
        },
        Vnode::File(_) => Err(FsError::NotDirectory),
    }
}

/// The first of `ch` named `name`.
fn find_child(fs: &Vfs, ch: &Vec<Option<NodeId>>, name: &[u8]) -> (r: Option<usize>)
    requires
        fs.wf(),
        forall|k: int| 0 <= k < ch.len() && (#[trigger] ch@[k]) is Some ==> ch@[k].unwrap().0 < fs.spec_nodes().len(),
    ensures
        r == child_named(*fs, ch@, name@, 0),
        r is Some ==> fs.valid_id(r.unwrap()),
{
    let mut k: usize = 0;
    while k < ch.len()
        invariant
            k <= ch.len(),
            forall|j: int| 0 <= j < ch.len() && (#[trigger] ch@[j]) is Some ==> ch@[j].unwrap().0 < fs.spec_nodes().len(),
            child_named(*fs, ch@, name@, 0) == child_named(*fs, ch@, name@, k as int),
        decreases ch.len() - k,
    {
        if let Some(id) = ch[k] {
            let text = fs.nodes[id.0].name();
            if bytes_eq(text.as_bytes(), name) {
                return Some(id.0);
            }
        }
        k += 1;
    }
    None
}

/// The first free child slot of `ch`.
fn find_free(ch: &Vec<Option<NodeId>>) -> (r: Option<usize>)
    ensures
        match free_slot(ch@, 0) {
            Some(k) => r == Some(k as usize),
            None => r is None,
        },
{
    let mut k: usize = 0;
    while k < ch.len()
        invariant
            k <= ch.len(),
            free_slot(ch@, 0) == free_slot(ch@, k as int),
        decreases ch.len() - k,
    {
        if ch[k].is_none() {
            return Some(k);
        }
        k += 1;
    }
    None
}

/// What creating `name` in `dir` does: the error, if any, and whether a
/// node is added to the pool.
pub open spec fn create_error(fs: Vfs, dir: usize, name: Seq<u8>) -> Option<FsError> {
    if name.len() == 0 || name.len() >= NAME_MAX {
        Some(FsError::NameTooLong)
    } else if !fs.valid_id(dir) {
        Some(FsError::NotFound)
    } else if !fs.node(dir).is_dir() {
        Some(FsError::NotDirectory)
    } else if child_named(fs, fs.node(dir).spec_children(), name, 0) is Some {
        Some(FsError::AlreadyExists)
    } else if fs.spec_nodes().len() >= NODE_POOL_CAP {
        Some(FsError::NoSpace)
    } else {
        None
    }
}

/// `after` is `before` with node `v` added at the end of the pool and,
/// when `dir` has a free child slot, that slot pointing at it.
pub open spec fn added_child(before: Vfs, after: Vfs, dir: usize, v: Vnode) -> bool {
    let n = before.spec_nodes().len();
    let ch = before.node(dir).spec_children();
    &&& after.spec_nodes().len() == n + 1
    &&& after.spec_nodes()[n as int] == v
    &&& after.spec_root() == before.spec_root()
    &&& forall|i: int| 0 <= i < n && i != dir ==> #[trigger] after.spec_nodes()[i] == before.spec_nodes()[i]
    &&& after.node(dir).spec_name() == before.node(dir).spec_name()
    &&& after.node(dir).is_dir()
    &&& after.node(dir).spec_children() == match free_slot(ch, 0) {
        Some(k) => ch.update(k, Some(NodeId(n as usize))),
        None => ch,
    }
    &&& after.mounts_same(before)
}

fn create_node(fs: &mut Vfs, dir: NodeId, name: &str, is_dir: bool) -> (r: Result<NodeId, FsError>)
    requires
        old(fs).wf(),
    ensures
        final(fs).wf(),
        match create_error(*old(fs), dir.0, name.spec_bytes()) {
            Some(e) => r == Err::<NodeId, FsError>(e) && *final(fs) == *old(fs),
            None => {
                let n = old(fs).spec_nodes().len();
                let v = final(fs).node(n as usize);
                &&& added_child(*old(fs), *final(fs), dir.0, v)
                &&& v.is_dir() == is_dir
                &&& v.spec_name() == name.spec_bytes()
                &&& v.spec_data().len() == 0
                &&& (is_dir ==> v.spec_children() == Seq::new(DIR_MAX_ENTRIES as nat, |i: int| None::<NodeId>))
                &&& r == match free_slot(old(fs).node(dir.0).spec_children(), 0) {
                    Some(_) => Ok::<NodeId, FsError>(NodeId(n as usize)),
                    None => Err(FsError::NoSpace),
                }
            },
        },
{
    let b = name.as_bytes();
    if b.len() == 0 || b.len() >= NAME_MAX {
        return Err(FsError::NameTooLong);
    }
    let d = dir.0;
    if d >= fs.nodes.len() {
        return Err(FsError::NotFound);
    }
    proof {
        assert(node_wf(fs.nodes@[d as int], fs.nodes.len() as int));
    }
    match &fs.nodes[d] {
        Vnode::Dir(dn) => {
            if find_child(fs, &dn.children, b).is_some() {
                return Err(FsError::AlreadyExists);
            }
        },
        Vnode::File(_) => {
            return Err(FsError::NotDirectory);
        },
    }
    if fs.nodes.len() >= NODE_POOL_CAP {
        return Err(FsError::NoSpace);
    }
    let ghost old_fs = *fs;
    let new_id = fs.nodes.len();
    let v = if is_dir { Vnode::new_dir(name) } else { Vnode::new_file(name) };
    fs.nodes.push(v);
    let mut parent = fs.nodes.remove(d);
    let res = match &mut parent {
        Vnode::Dir(dn) => {
            match find_free(&dn.children) {
                Some(k) => {
                    proof {
                        lemma_free_slot(dn.children@, 0);
                    }
                    dn.children.set(k, Some(NodeId(new_id)));
                    Ok(NodeId(new_id))
                },
                None => Err(FsError::NoSpace),
            }
        },
        Vnode::File(_) => Err(FsError::NotDirectory),
    };
    fs.nodes.insert(d, parent);
    proof {
        assert(fs.nodes@ =~= old_fs.nodes@.push(v).update(d as int, parent));
        assert forall|i: int| 0 <= i < fs.nodes.len() implies #[trigger] node_wf(fs.nodes@[i], fs.nodes.len() as int) by {
            if i < old_fs.nodes.len() && i != d {
                assert(node_wf(old_fs.nodes@[i], old_fs.nodes.len() as int));
                assert(fs.nodes@[i] == old_fs.nodes@[i]);
            } else if i == d {
                assert(node_wf(old_fs.nodes@[i], old_fs.nodes.len() as int));
            }
        }
        assert(fs.mounts_same(old_fs));
    }
    res
}

/// Create an empty file `name` in `dir`.
pub fn create_file(fs: &mut Vfs, dir: NodeId, name: &str) -> (r: Result<NodeId, FsError>)
    requires
        old(fs).wf(),
    ensures
        final(fs).wf(),
        match create_error(*old(fs), dir.0, name.spec_bytes()) {
            Some(e) => r == Err::<NodeId, FsError>(e) && *final(fs) == *old(fs),
            None => {
                let n = old(fs).spec_nodes().len();
                let v = final(fs).node(n as usize);
                &&& added_child(*old(fs), *final(fs), dir.0, v)
                &&& !v.is_dir()
                &&& v.spec_name() == name.spec_bytes()
                &&& v.spec_data().len() == 0
                &&& r == match free_slot(old(fs).node(dir.0).spec_children(), 0) {
                    Some(_) => Ok::<NodeId, FsError>(NodeId(n as usize)),
                    None => Err(FsError::NoSpace),
                }
            },
        },
{
    create_node(fs, dir, name, false)
}

/// Create an empty directory `name` in `dir`.
pub fn create_dir(fs: &mut Vfs, dir: NodeId, name: &str) -> (r: Result<NodeId, FsError>)
    requires
        old(fs).wf(),
    ensures
        final(fs).wf(),
        match create_error(*old(fs), dir.0, name.spec_bytes()) {
            Some(e) => r == Err::<NodeId, FsError>(e) && *final(fs) == *old(fs),
            None => {
                let n = old(fs).spec_nodes().len();
                let v = final(fs).node(n as usize);
                &&& added_child(*old(fs), *final(fs), dir.0, v)
                &&& v.is_dir()
                &&& v.spec_name() == name.spec_bytes()
                &&& v.spec_children() == Seq::new(DIR_MAX_ENTRIES as nat, |i: int| None::<NodeId>)
                &&& r == match free_slot(old(fs).node(dir.0).spec_children(), 0) {
                    Some(_) => Ok::<NodeId, FsError>(NodeId(n as usize)),
                    None => Err(FsError::NoSpace),
                }
            },
        },
{
    create_node(fs, dir, name, true)
}

/// Replace the contents of the file `file` with the first
/// [`FILE_MAX_SIZE`] bytes of `data`; returns how many were kept.
pub fn write_file(fs: &mut Vfs, file: NodeId, data: &[u8]) -> (r: Result<usize, FsError>)
    requires
        old(fs).wf(),
    ensures
        final(fs).wf(),
        !old(fs).valid_id(file.0) ==> r == Err::<usize, FsError>(FsError::NotFound) && *final(fs) == *old(fs),
        old(fs).valid_id(file.0) && old(fs).node(file.0).is_dir() ==> r == Err::<usize, FsError>(FsError::IsDirectory)
            && *final(fs) == *old(fs),
        old(fs).valid_id(file.0) && !old(fs).node(file.0).is_dir() ==> {
            let len = if data.len() < FILE_MAX_SIZE { data.len() as int } else { FILE_MAX_SIZE as int };
            &&& r == Ok::<usize, FsError>(len as usize)
            &&& final(fs).spec_nodes().len() == old(fs).spec_nodes().len()
            &&& final(fs).spec_root() == old(fs).spec_root()
            &&& final(fs).mounts_same(*old(fs))
            &&& forall|i: int| 0 <= i < old(fs).spec_nodes().len() && i != file.0 ==> #[trigger] final(fs).spec_nodes()[i]
                == old(fs).spec_nodes()[i]
            &&& !final(fs).node(file.0).is_dir()
            &&& final(fs).node(file.0).spec_name() == old(fs).node(file.0).spec_name()
            &&& final(fs).node(file.0).spec_data() == data@.subrange(0, len)
        },
{
    let f = file.0;
    if f >= fs.nodes.len() {
        return Err(FsError::NotFound);
    }
    if let Vnode::Dir(_) = &fs.nodes[f] {
        return Err(FsError::IsDirectory);
    }
    let ghost old_fs = *fs;
    let mut node = fs.nodes.remove(f);
    let len = match &mut node {
        Vnode::File(fnode) => {
            fnode.data = copy_prefix(data, FILE_MAX_SIZE);
            fnode.data.len()
        },
        Vnode::Dir(_) => 0,
    };
    fs.nodes.insert(f, node);
    proof {
        assert(fs.nodes@ =~= old_fs.nodes@.update(f as int, node));
        assert(node_wf(old_fs.nodes@[f as int], old_fs.nodes.len() as int));
        assert forall|i: int| 0 <= i < fs.nodes.len() implies #[trigger] node_wf(fs.nodes@[i], fs.nodes.len() as int) by {
            if i != f {
                assert(node_wf(old_fs.nodes@[i], old_fs.nodes.len() as int));
            }
        }
        assert(fs.mounts_same(old_fs));
    }
    Ok(len)
}

/// Copy the start of the file `file` into `buf`: as many bytes as both
/// hold; returns how many.
pub fn read_file(fs: &Vfs, file: NodeId, buf: &mut [u8]) -> (r: Result<usize, FsError>)
    requires
        fs.wf(),
    ensures
        final(buf)@.len() == old(buf)@.len(),
        !fs.valid_id(file.0) ==> r == Err::<usize, FsError>(FsError::NotFound) && final(buf)@ == old(buf)@,
        fs.valid_id(file.0) && fs.node(file.0).is_dir() ==> r == Err::<usize, FsError>(FsError::IsDirectory)
            && final(buf)@ == old(buf)@,
        fs.valid_id(file.0) && !fs.node(file.0).is_dir() ==> {
            let data = fs.node(file.0).spec_data();
            let len = if data.len() < old(buf)@.len() { data.len() as int } else { old(buf)@.len() as int };
            &&& r == Ok::<usize, FsError>(len as usize)
            &&& final(buf)@.subrange(0, len) == data.subrange(0, len)
            &&& final(buf)@.subrange(len, old(buf)@.len() as int) == old(buf)@.subrange(len, old(buf)@.len() as int)
        },
{
    let f = file.0;
    if f >= fs.nodes.len() {
        return Err(FsError::NotFound);
    }
    match &fs.nodes[f] {
        Vnode::File(fnode) => {
            let len = if fnode.data.len() < buf.len() { fnode.data.len() } else { buf.len() };
            let mut k: usize = 0;
            while k < len
                invariant
                    len <= fnode.data.len(),
                    len <= buf@.len(),
                    buf@.len() == old(buf)@.len(),
                    k <= len,
                    forall|j: int| 0 <= j < k ==> buf@[j] == fnode.data@[j],
                    forall|j: int| k <= j < buf@.len() ==> buf@[j] == old(buf)@[j],
                decreases len - k,
            {
                buf[k] = fnode.data[k];
                k += 1;
            }
            proof {
                assert(buf@.subrange(0, len as int) =~= fnode.data@.subrange(0, len as int));
                assert(buf@.subrange(len as int, old(buf)@.len() as int) =~= old(buf)@.subrange(len as int, old(buf)@.len() as int));
            }
            Ok(len)
        },
        Vnode::Dir(_) => Err(FsError::IsDirectory),
    }
}

/// The listing of a directory: each child, in slot order.
pub open spec fn listing(fs: Vfs, ch: Seq<Option<NodeId>>, k: int) -> Seq<(Seq<u8>, FileType)>
    decreases ch.len() - k,
{
    if k >= ch.len() || k < 0 {
        Seq::empty()
    } else if ch[k] is Some {
        let v = fs.node(ch[k].unwrap().0);
        seq![(v.spec_name(), if v.is_dir() { FileType::Directory } else { FileType::File })] + listing(fs, ch, k + 1)
    } else {
        listing(fs, ch, k + 1)
    }
}

pub open spec fn dir_entry_views(s: Seq<DirEntry>) -> Seq<(Seq<u8>, FileType)> {
    s.map_values(|e: DirEntry| (e.name@, e.file_type))
}

/// The children of `dir`, in slot order.
pub fn list_dir(fs: &Vfs, dir: NodeId) -> (r: Result<Vec<DirEntry>, FsError>)
    requires
        fs.wf(),
    ensures
        !fs.valid_id(dir.0) ==> r is Err && r->Err_0 == FsError::NotFound,
        fs.valid_id(dir.0) && !fs.node(dir.0).is_dir() ==> r is Err && r->Err_0 == FsError::NotDirectory,
        fs.valid_id(dir.0) && fs.node(dir.0).is_dir() ==> r is Ok && dir_entry_views(r->Ok_0@)
            == listing(*fs, fs.node(dir.0).spec_children(), 0),
{
    let d = dir.0;
    if d >= fs.nodes.len() {
        return Err(FsError::NotFound);
    }
    proof {
        assert(node_wf(fs.nodes@[d as int], fs.nodes.len() as int));
    }
    match &fs.nodes[d] {
        Vnode::Dir(dn) => {
            let ch = &dn.children;
            let mut out: Vec<DirEntry> = Vec::new();
            let mut k: usize = 0;
            let ghost total = listing(*fs, ch@, 0);
            proof {
                assert(dir_entry_views(out@) =~= Seq::<(Seq<u8>, FileType)>::empty());
            }
            while k < ch.len()
                invariant
                    fs.wf(),
                    k <= ch.len(),
                    forall|j: int| 0 <= j < ch.len() && (#[trigger] ch@[j]) is Some ==> ch@[j].unwrap().0 < fs.spec_nodes().len(),
                    total == dir_entry_views(out@) + listing(*fs, ch@, k as int),
                decreases ch.len() - k,
            {
                let ghost before = dir_entry_views(out@);
                if let Some(id) = ch[k] {
                    let child = &fs.nodes[id.0];
                    let (name, ft) = match child {
                        Vnode::File(f) => (copy_prefix(f.name.as_slice(), NAME_MAX), FileType::File),
                        Vnode::Dir(dd) => (copy_prefix(dd.name.as_slice(), NAME_MAX), FileType::Directory),
                    };
                    proof {
                        assert(node_wf(fs.nodes@[id.0 as int], fs.nodes.len() as int));
                        assert(name@ =~= child.spec_name());
                    }
                    let e = DirEntry { name, file_type: ft };
                    out.push(e);
                    proof {
                        assert(dir_entry_views(out@) =~= before + seq![(e.name@, e.file_type)]);
                    }
                } else {
                    proof {
                        assert(before =~= before + Seq::<(Seq<u8>, FileType)>::empty());
                    }
                }
                k += 1;
            }
            proof {
                assert(dir_entry_views(out@) =~= total);
            }
            Ok(out)
        },
        Vnode::File(_) => Err(FsError::NotDirectory),
    }
}

/// The node reached from `cur` by the components of `rest` (pieces between
/// slashes; empty pieces are skipped).
pub open spec fn resolve_from(fs: Vfs, cur: usize, rest: Seq<u8>) -> Result<usize, FsError>
    decreases rest.len(),
{
    if rest.len() == 0 {
        Ok(cur)
    } else if rest[0] == 47 {
        resolve_from(fs, cur, rest.drop_first())
    } else {
        let e = exfat::slash_from(rest, 0);
        if e <= 0 || e > rest.len() {
            Err(FsError::NotFound)
        } else {
            match lookup_spec(fs, cur, rest.subrange(0, e)) {
                Ok(n) => resolve_from(fs, n, rest.subrange(e, rest.len() as int)),
                Err(err) => Err(err),
            }
        }
    }
}

/// The node at `path`, from the root.
pub open spec fn resolve_spec(fs: Vfs, path: Seq<u8>) -> Result<usize, FsError> {
    match fs.spec_root() {
        None => Err(FsError::NotFound),
        Some(r) => resolve_from(fs, r, path),
    }
}

/// The node at `path` (components between slashes, from the root).
pub fn resolve_path(fs: &Vfs, path: &str) -> (r: Result<NodeId, FsError>)
    requires
        fs.wf(),
    ensures
        id_result(r) == resolve_spec(*fs, path.spec_bytes()),
        r is Ok ==> fs.valid_id(r.unwrap().0),
{
    resolve_bytes(fs, path.as_bytes())
}

pub(crate) fn resolve_bytes(fs: &Vfs, path: &[u8]) -> (r: Result<NodeId, FsError>)
    requires
        fs.wf(),
    ensures
        id_result(r) == resolve_spec(*fs, path@),
        r is Ok ==> fs.valid_id(r.unwrap().0),
{
    let mut cur = match fs.root {
        Some(r) => r,
        None => return Err(FsError::NotFound),
    };
    let mut i: usize = 0;
    proof {
        assert(path@.subrange(0, path@.len() as int) =~= path@);
    }
    while i < path.len()
        invariant
            fs.wf(),
            i <= path.len(),
            fs.valid_id(cur),
            resolve_spec(*fs, path@) == resolve_from(*fs, cur, path@.subrange(i as int, path@.len() as int)),
        decreases path.len() - i,
    {
        let ghost rest = path@.subrange(i as int, path@.len() as int);
        if path[i] == 47u8 {
            proof {
                assert(rest.drop_first() =~= path@.subrange(i + 1, path@.len() as int));
            }
            i += 1;
            continue;
        }
        let mut e = i;
        while e < path.len() && path[e] != 47u8
            invariant
                i <= e <= path.len(),
                rest == path@.subrange(i as int, path@.len() as int),
                exfat::slash_from(rest, 0) == exfat::slash_from(rest, (e - i) as int),
            decreases path.len() - e,
        {
            proof {
                assert(rest[(e - i) as int] == path@[e as int]);
            }
            e += 1;
        }
        proof {
            exfat::lemma_slash_from(rest, 0);
            assert(exfat::slash_from(rest, 0) == e - i);
            assert(rest.subrange(0, (e - i) as int) =~= path@.subrange(i as int, e as int));
            assert(rest.subrange((e - i) as int, rest.len() as int) =~= path@.subrange(e as int, path@.len() as int));
        }
        let comp = vstd::slice::slice_subrange(path, i, e);
        match lookup_bytes(fs, cur, comp) {
            Ok(n) => {
                cur = n.0;
            },
            Err(err) => return Err(err),
        }
        i = e;
    }
    proof {
        assert(path@.subrange(i as int, path@.len() as int) =~= Seq::<u8>::empty());
    }
    Ok(NodeId(cur))
}

/// Set up the tree: a root directory holding `dev`, `proc` and `mnt`
/// (nothing is done when a root exists).
pub fn init(fs: &mut Vfs)
    requires
        old(fs).wf(),
    ensures
        final(fs).wf(),
        old(fs).spec_root() is Some ==> *final(fs) == *old(fs),
        old(fs).spec_root() is None && old(fs).spec_nodes().len() < NODE_POOL_CAP ==> final(fs).spec_root()
            == Some(old(fs).spec_nodes().len() as usize),
        old(fs).spec_root() is None && old(fs).spec_nodes().len() + 4 <= NODE_POOL_CAP ==> fresh_tree(
            *old(fs),
            *final(fs),
        ),
{
    if fs.root.is_some() {
        return;
    }
    if fs.nodes.len() >= NODE_POOL_CAP {
        return;
    }
    let id = fs.nodes.len();
    let ghost old_fs = *fs;
    fs.nodes.push(Vnode::new_dir("/"));
    fs.root = Some(id);
    proof {
        assert forall|i: int| 0 <= i < fs.nodes.len() implies #[trigger] node_wf(fs.nodes@[i], fs.nodes.len() as int) by {
            if i < old_fs.nodes.len() {
                assert(node_wf(old_fs.nodes@[i], old_fs.nodes.len() as int));
            } else {
                reveal_strlit("/");
            }
        }
    }
    let ghost f0 = *fs;
    let ghost empty = Seq::new(DIR_MAX_ENTRIES as nat, |i: int| None::<NodeId>);
    proof {
        reveal_strlit("dev");
        reveal_strlit("proc");
        reveal_strlit("mnt");
        reveal_strlit("/");
        vstd::string::is_ascii_spec_bytes("/");
        vstd::string::is_ascii_spec_bytes("dev");
        vstd::string::is_ascii_spec_bytes("proc");
        vstd::string::is_ascii_spec_bytes("mnt");
        assert(f0.node(id).spec_children() == empty);
        lemma_child_named_none(f0, empty, "dev".spec_bytes(), 0);
        if old_fs.nodes.len() + 4 <= NODE_POOL_CAP {
            assert(create_error(f0, id, "dev".spec_bytes()) is None);
        }
    }
    let _ = create_dir(fs, NodeId(id), "dev");
    let ghost f1 = *fs;
    let ghost ch1 = empty.update(0, Some(NodeId((id + 1) as usize)));
    proof {
        if old_fs.nodes.len() + 4 <= NODE_POOL_CAP {
            assert(free_slot(empty, 0) == Some(0int));
            assert(f1.node(id).spec_children() == ch1);
            assert(f1.node((id + 1) as usize).spec_name() == "dev".spec_bytes());
            lemma_child_named_none(f1, ch1, "proc".spec_bytes(), 0);
        }
    }
    let _ = create_dir(fs, NodeId(id), "proc");
    let ghost f2 = *fs;
    let ghost ch2 = ch1.update(1, Some(NodeId((id + 2) as usize)));
    proof {
        if old_fs.nodes.len() + 4 <= NODE_POOL_CAP {
            reveal_with_fuel(free_slot, 3);
            assert(free_slot(ch1, 0) == Some(1int));
            assert(f2.node(id).spec_children() == ch2);
            assert(f2.node((id + 1) as usize) == f1.node((id + 1) as usize));
            assert(f2.node((id + 2) as usize).spec_name() == "proc".spec_bytes());
            lemma_child_named_none(f2, ch2, "mnt".spec_bytes(), 0);
        }
    }
    let _ = create_dir(fs, NodeId(id), "mnt");
    proof {
        if old_fs.nodes.len() + 4 <= NODE_POOL_CAP {
            reveal_with_fuel(free_slot, 4);
            assert(free_slot(ch2, 0) == Some(2int));
            assert(fs.node((id + 1) as usize) == f1.node((id + 1) as usize));
            assert(fs.node((id + 2) as usize) == f2.node((id + 2) as usize));
            assert(forall|i: int| 0 <= i < old_fs.spec_nodes().len() ==> fs.spec_nodes()[i] == old_fs.spec_nodes()[i]);
        }
    }
}

/// `after` is `before` with a root directory appended whose children are
/// the three empty directories `dev`, `proc` and `mnt`, appended after it
/// in that order.
pub open spec fn fresh_tree(before: Vfs, after: Vfs) -> bool {
    let n = before.spec_nodes().len();
    let empty = Seq::new(DIR_MAX_ENTRIES as nat, |i: int| None::<NodeId>);
    &&& after.spec_nodes().len() == n + 4
    &&& after.spec_root() == Some(n as usize)
    &&& forall|i: int| 0 <= i < n ==> #[trigger] after.spec_nodes()[i] == before.spec_nodes()[i]
    &&& after.node(n as usize).is_dir()
    &&& after.node(n as usize).spec_name() == "/".spec_bytes()
    &&& after.node(n as usize).spec_children() == empty.update(0, Some(NodeId((n + 1) as usize))).update(
        1,
        Some(NodeId((n + 2) as usize)),
    ).update(2, Some(NodeId((n + 3) as usize)))
    &&& after.node((n + 1) as usize).is_dir()
    &&& after.node((n + 1) as usize).spec_name() == "dev".spec_bytes()
    &&& after.node((n + 1) as usize).spec_children() == empty
    &&& after.node((n + 2) as usize).is_dir()
    &&& after.node((n + 2) as usize).spec_name() == "proc".spec_bytes()
    &&& after.node((n + 2) as usize).spec_children() == empty
    &&& after.node((n + 3) as usize).is_dir()
    &&& after.node((n + 3) as usize).spec_name() == "mnt".spec_bytes()
    &&& after.node((n + 3) as usize).spec_children() == empty
}

/// After the tree was first set up, `dev`, `proc` and `mnt` are found in
/// its root.
pub proof fn lemma_init_then_lookup(before: Vfs, after: Vfs)
    requires
        fresh_tree(before, after),
    ensures
        ({
            let n = before.spec_nodes().len();
            &&& lookup_spec(after, n as usize, "dev".spec_bytes()) == Ok::<usize, FsError>((n + 1) as usize)
            &&& lookup_spec(after, n as usize, "proc".spec_bytes()) == Ok::<usize, FsError>((n + 2) as usize)
            &&& lookup_spec(after, n as usize, "mnt".spec_bytes()) == Ok::<usize, FsError>((n + 3) as usize)
            &&& resolve_spec(after, "/dev".spec_bytes()) == Ok::<usize, FsError>((n + 1) as usize)
            &&& resolve_spec(after, "/proc".spec_bytes()) == Ok::<usize, FsError>((n + 2) as usize)
            &&& resolve_spec(after, "/mnt".spec_bytes()) == Ok::<usize, FsError>((n + 3) as usize)
        }),
{
    reveal_strlit("dev");
    reveal_strlit("proc");
    reveal_strlit("mnt");
    vstd::string::is_ascii_spec_bytes("dev");
    vstd::string::is_ascii_spec_bytes("proc");
    vstd::string::is_ascii_spec_bytes("mnt");
    vstd::utf8::encode_utf8_valid_utf8("dev"@);
    vstd::utf8::encode_utf8_valid_utf8("proc"@);
    vstd::utf8::encode_utf8_valid_utf8("mnt"@);
    reveal_with_fuel(child_named, 4);
    reveal_strlit("/dev");
    reveal_strlit("/proc");
    reveal_strlit("/mnt");
    vstd::string::is_ascii_spec_bytes("/dev");
    vstd::string::is_ascii_spec_bytes("/proc");
    vstd::string::is_ascii_spec_bytes("/mnt");
    let n = before.spec_nodes().len();
    let names: Seq<Seq<u8>> = seq!["dev".spec_bytes(), "proc".spec_bytes(), "mnt".spec_bytes()];
    let paths: Seq<Seq<u8>> = seq!["/dev".spec_bytes(), "/proc".spec_bytes(), "/mnt".spec_bytes()];
    assert forall|i: int| 0 <= i < 3 implies resolve_spec(after, #[trigger] paths[i]) == Ok::<usize, FsError>((n + 1 + i) as usize) by {
        let p = paths[i];
        let rest = p.drop_first();
        assert(rest =~= names[i]);
        reveal_with_fuel(exfat::slash_from, 5);
        assert(exfat::slash_from(rest, 0) == rest.len());
        assert(rest.subrange(0, rest.len() as int) =~= rest);
        assert(rest.subrange(rest.len() as int, rest.len() as int) =~= Seq::<u8>::empty());
        reveal_with_fuel(resolve_from, 3);
    }
    assert(resolve_spec(after, paths[0]) == Ok::<usize, FsError>((n + 1) as usize));
    assert(resolve_spec(after, paths[1]) == Ok::<usize, FsError>((n + 2) as usize));
    assert(resolve_spec(after, paths[2]) == Ok::<usize, FsError>((n + 3) as usize));
}

/// No slot of `ch` from `k` on holds a node whose name reads `name`.
proof fn lemma_child_named_none(fs: Vfs, ch: Seq<Option<NodeId>>, name: Seq<u8>, k: int)
    requires
        forall|j: int| k <= j < ch.len() ==> #[trigger] ch[j] is None || utf8_text(fs.node(ch[j].unwrap().0).spec_name()) != name,
    ensures
        child_named(fs, ch, name, k) is None,
    decreases ch.len() - k,
{
    if 0 <= k < ch.len() {
        lemma_child_named_none(fs, ch, name, k + 1);
    }
}

/// `b` is `a` with some empty child slots filled.
pub open spec fn children_only_filled(a: Seq<Option<NodeId>>, b: Seq<Option<NodeId>>) -> bool {
    &&& b.len() == a.len()
    &&& forall|k: int| 0 <= k < a.len() ==> #[trigger] b[k] == a[k] || (a[k] is None && b[k] is Some)
}

/// `after` grew from `before` only below directory `dir`: nodes were
/// added, `dir` only had empty child slots filled, every other node, the
/// root and the mount table stayed.
pub open spec fn grew_under(before: Vfs, after: Vfs, dir: usize) -> bool {
    &&& before.spec_nodes().len() <= after.spec_nodes().len()
    &&& after.spec_root() == before.spec_root()
    &&& after.mounts_same(before)
    &&& forall|i: int| 0 <= i < before.spec_nodes().len() && i != dir ==> #[trigger] after.spec_nodes()[i]
        == before.spec_nodes()[i]
    &&& dir < before.spec_nodes().len() ==> {
        &&& after.node(dir).spec_name() == before.node(dir).spec_name()
        &&& after.node(dir).is_dir() == before.node(dir).is_dir()
        &&& children_only_filled(before.node(dir).spec_children(), after.node(dir).spec_children())
    }
}

pub proof fn lemma_grew_refl(fs: Vfs, dir: usize)
    ensures
        grew_under(fs, fs, dir),
{
}

pub proof fn lemma_grew_trans(a: Vfs, b: Vfs, c: Vfs, dir: usize)
    requires
        grew_under(a, b, dir),
        grew_under(b, c, dir),
    ensures
        grew_under(a, c, dir),
{
    assert forall|i: int| 0 <= i < a.spec_nodes().len() && i != dir implies #[trigger] c.spec_nodes()[i]
        == a.spec_nodes()[i] by {
        assert(b.spec_nodes()[i] == a.spec_nodes()[i]);
    }
    if dir < a.spec_nodes().len() {
        let ca = a.node(dir).spec_children();
        let cb = b.node(dir).spec_children();
        let cc = c.node(dir).spec_children();
        assert forall|k: int| 0 <= k < ca.len() implies #[trigger] cc[k] == ca[k] || (ca[k] is None && cc[k] is Some) by {
            assert(cb[k] == ca[k] || (ca[k] is None && cb[k] is Some));
            assert(cc[k] == cb[k] || (cb[k] is None && cc[k] is Some));
        }
    }
}

/// A node created in `dir` grows the tree only below `dir`.
pub proof fn lemma_added_child_grew(before: Vfs, after: Vfs, dir: usize, name: Seq<u8>, v: Vnode)
    requires
        before.wf(),
        create_error(before, dir, name) is None,
        added_child(before, after, dir, v),
    ensures
        grew_under(before, after, dir),
{
    let ch = before.node(dir).spec_children();
    lemma_free_slot_opt(ch);
}

proof fn lemma_free_slot_opt(ch: Seq<Option<NodeId>>)
    ensures
        free_slot(ch, 0) is Some ==> 0 <= free_slot(ch, 0).unwrap() < ch.len() && ch[free_slot(ch, 0).unwrap()] is None,
{
    if free_slot(ch, 0) is Some {
        lemma_free_slot(ch, 0);
    }
}

/// What a write stores, a read gives back: after `data` was written to a
/// file, a read into a buffer of `n` bytes returns the first bytes of
/// `data`, as many as the file keeps ([`FILE_MAX_SIZE`]) and the buffer
/// holds.
pub proof fn lemma_write_then_read(before: Vfs, after: Vfs, file: usize, data: Seq<u8>, n: nat)
    requires
        before.wf(),
        before.valid_id(file),
        !before.node(file).is_dir(),
        after.spec_nodes().len() == before.spec_nodes().len(),
        !after.node(file).is_dir(),
        after.node(file).spec_data() == data.subrange(
            0,
            if data.len() < FILE_MAX_SIZE { data.len() as int } else { FILE_MAX_SIZE as int },
        ),
    ensures
        after.valid_id(file),
        ({
            let stored = after.node(file).spec_data();
            let len = if stored.len() < n { stored.len() as int } else { n as int };
            let kept = if data.len() < FILE_MAX_SIZE { data.len() as int } else { FILE_MAX_SIZE as int };
            &&& len == if kept < n { kept } else { n as int }
            &&& stored.subrange(0, len) == data.subrange(0, len)
        }),
{
}

/// After a successful creation of `name` in `dir`, looking `name` up in
/// `dir` gives the new node.
pub proof fn lemma_create_then_lookup(before: Vfs, after: Vfs, dir: usize, name: Seq<u8>, v: Vnode)
    requires
        before.wf(),
        create_error(before, dir, name) is None,
        free_slot(before.node(dir).spec_children(), 0) is Some,
        added_child(before, after, dir, v),
        utf8_text(v.spec_name()) == name,
    ensures
        lookup_spec(after, dir, name) == Ok::<usize, FsError>(before.spec_nodes().len() as usize),
{
    let ch = before.node(dir).spec_children();
    let k = free_slot(ch, 0).unwrap();
    let n = before.spec_nodes().len();
    let ch2 = after.node(dir).spec_children();
    lemma_free_slot(ch, 0);
    assert(ch2 == ch.update(k, Some(NodeId(n as usize))));
    assert(after.node(n as usize) == v);
    lemma_child_named_skip(before, after, ch, ch2, name, 0, k, n as usize, dir);
}

proof fn lemma_free_slot(ch: Seq<Option<NodeId>>, j: int)
    requires
        0 <= j,
        free_slot(ch, j) is Some,
    ensures
        j <= free_slot(ch, j).unwrap() < ch.len(),
        ch[free_slot(ch, j).unwrap()] is None,
        forall|i: int| j <= i < free_slot(ch, j).unwrap() ==> ch[i] is Some,
    decreases ch.len() - j,
{
    if j < ch.len() && ch[j] is Some {
        lemma_free_slot(ch, j + 1);
    }
}

/// The slots before the first free one hold other names; the free one now
/// holds the new node.
proof fn lemma_child_named_skip(
    before: Vfs,
    after: Vfs,
    ch: Seq<Option<NodeId>>,
    ch2: Seq<Option<NodeId>>,
    name: Seq<u8>,
    j: int,
    k: int,
    n: usize,
    dir: usize,
)
    requires
        before.wf(),
        0 <= j <= k < ch.len(),
        ch2 == ch.update(k, Some(NodeId(n))),
        ch[k] is None,
        forall|i: int| j <= i < k ==> ch[i] is Some,
        child_named(before, ch, name, j) is None,
        ch == before.node(dir).spec_children(),
        before.valid_id(dir),
        before.node(dir).is_dir(),
        n == before.spec_nodes().len(),
        after.spec_nodes().len() == n + 1,
        forall|i: int| 0 <= i < n && i != dir ==> #[trigger] after.spec_nodes()[i] == before.spec_nodes()[i],
        after.node(dir).spec_name() == before.node(dir).spec_name(),
        utf8_text(after.node(n).spec_name()) == name,
    ensures
        child_named(after, ch2, name, j) == Some(n),
    decreases k - j,
{
    if j < k {
        let c = ch[j].unwrap().0;
        assert(node_wf(before.spec_nodes()[dir as int], n as int));
        assert(c < n);
        if c != dir {
            assert(after.node(c) == before.node(c));
        }
        assert(after.node(c).spec_name() == before.node(c).spec_name());
        lemma_child_named_skip(before, after, ch, ch2, name, j + 1, k, n, dir);
    }
}

/// `dir` can take no more children: the node pool or its slots are full.
pub open spec fn dir_full(fs: Vfs, dir: usize) -> bool {
    fs.spec_nodes().len() >= NODE_POOL_CAP || free_slot(fs.node(dir).spec_children(), 0) is None
}

proof fn lemma_free_slot_none(ch: Seq<Option<NodeId>>, j: int)
    requires
        0 <= j,
    ensures
        (free_slot(ch, j) is None) == (forall|k: int| j <= k < ch.len() ==> (#[trigger] ch[k]) is Some),
    decreases ch.len() - j,
{
    if j < ch.len() {
        lemma_free_slot_none(ch, j + 1);
        if ch[j] is Some {
            assert forall|k: int| j <= k < ch.len() && (forall|m: int| j + 1 <= m < ch.len() ==> (#[trigger] ch[m]) is Some)
                implies (#[trigger] ch[k]) is Some by {
                if k > j {
                    assert(ch[k] is Some);
                }
            }
        }
    }
}

proof fn lemma_child_named_some(fs: Vfs, ch: Seq<Option<NodeId>>, name: Seq<u8>, j: int, k: int)
    requires
        0 <= j <= k < ch.len(),
        ch[k] is Some,
        utf8_text(fs.node(ch[k].unwrap().0).spec_name()) == name,
    ensures
        child_named(fs, ch, name, j) is Some,
    decreases k - j,
{
    if j < k && !(ch[j] is Some && utf8_text(fs.node(ch[j].unwrap().0).spec_name()) == name) {
        lemma_child_named_some(fs, ch, name, j + 1, k);
    }
}

proof fn lemma_child_named_witness(fs: Vfs, ch: Seq<Option<NodeId>>, name: Seq<u8>, j: int) -> (k: int)
    requires
        0 <= j,
        child_named(fs, ch, name, j) is Some,
    ensures
        j <= k < ch.len(),
        ch[k] is Some,
        utf8_text(fs.node(ch[k].unwrap().0).spec_name()) == name,
    decreases ch.len() - j,
{
    if ch[j] is Some && utf8_text(fs.node(ch[j].unwrap().0).spec_name()) == name {
        j
    } else {
        lemma_child_named_witness(fs, ch, name, j + 1)
    }
}

/// Growth below `dir` keeps every name found in it, and a full `dir`
/// stays full.
pub proof fn lemma_grew_keeps(before: Vfs, after: Vfs, dir: usize, name: Seq<u8>)
    requires
        before.wf(),
        before.valid_id(dir),
        before.node(dir).is_dir(),
        grew_under(before, after, dir),
    ensures
        lookup_spec(before, dir, name) is Ok ==> lookup_spec(after, dir, name) is Ok,
        dir_full(before, dir) ==> dir_full(after, dir),
{
    let a = before.node(dir).spec_children();
    let b = after.node(dir).spec_children();
    if lookup_spec(before, dir, name) is Ok {
        let k = lemma_child_named_witness(before, a, name, 0);
        let x = a[k].unwrap().0;
        assert(node_wf(before.nodes@[dir as int], before.nodes.len() as int));
        assert(x < before.spec_nodes().len());
        assert(b[k] == a[k]);
        if x != dir {
            assert(after.spec_nodes()[x as int] == before.spec_nodes()[x as int]);
        }
        lemma_child_named_some(after, b, name, 0, k);
    }
    if dir_full(before, dir) && before.spec_nodes().len() < NODE_POOL_CAP {
        lemma_free_slot_none(a, 0);
        lemma_free_slot_none(b, 0);
        assert forall|k: int| 0 <= k < b.len() implies (#[trigger] b[k]) is Some by {
            assert(a[k] is Some);
        }
    }
}

} // verus!
