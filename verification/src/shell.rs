//! The built-in shell's logic: its working directory and last command,
//! path normalisation, the splitting of a command line, command name
//! completion, and the line editor that turns received bytes into edits.

use vstd::prelude::*;
use vstd::string::StringSliceAdditionalSpecFns;
use crate::fs::exfat::{slash_parts, slash_from, lemma_slash_from};
use crate::text::{bytes_eq, copy_prefix, has_prefix, last_index_of, rfind_byte, starts_with, utf8_or_empty, utf8_text};
use crate::fs::mount::lemma_last_index;
use crate::fs::{DirEntry, FileType, dir_entry_views};

verus! {

pub const BUILTIN_SHELL_STACK_SIZE: usize = 32 * 1024;
pub const LS_BUF_CAP: usize = 32;
pub const PATH_CAP: usize = 256;
pub const LAST_CMD_CAP: usize = 128;
pub const INPUT_CAP: usize = 128;

/// The shell's working directory and last command.
pub struct ShellState {
    cwd: Vec<u8>,
    last_cmd: Vec<u8>,
}

impl ShellState {
    pub closed spec fn spec_cwd(self) -> Seq<u8> {
        self.cwd@
    }

    pub closed spec fn spec_last_cmd(self) -> Seq<u8> {
        self.last_cmd@
    }

    /// At `/`, with no last command.
    pub fn new() -> (r: Self)
        ensures
            r.spec_cwd() == seq![47u8],
            r.spec_last_cmd().len() == 0,
    {
        let mut cwd: Vec<u8> = Vec::new();
        cwd.push(47u8);
        proof {
            assert(cwd@ =~= seq![47u8]);
        }
        ShellState { cwd, last_cmd: Vec::new() }
    }

    /// The working directory as text (`/` when it is not valid UTF-8).
    pub fn cwd_str(&self) -> (r: &str)
        ensures
            r.spec_bytes() == cwd_text(self.spec_cwd()),
    {
        let t = utf8_or_empty(self.cwd.as_slice());
        if t.as_bytes().len() == 0 && self.cwd.len() != 0 {
            proof {
                reveal_strlit("/");
                vstd::string::is_ascii_spec_bytes("/");
                assert("/".spec_bytes() =~= seq![47u8]);
            }
            "/"
        } else {
            t
        }
    }

    /// Remember `cmd` (its first [`LAST_CMD_CAP`] bytes).
    pub fn remember_cmd(&mut self, cmd: &str)
        ensures
            final(self).spec_last_cmd() == cmd.spec_bytes().subrange(0,
                if cmd.spec_bytes().len() < LAST_CMD_CAP { cmd.spec_bytes().len() as int } else { LAST_CMD_CAP as int }),
            final(self).spec_cwd() == old(self).spec_cwd(),
    {
        self.last_cmd = copy_prefix(cmd.as_bytes(), LAST_CMD_CAP);
    }

    /// The last command.
    pub fn last_cmd(&self) -> (r: &[u8])
        ensures
            r@ == self.spec_last_cmd(),
    {
        self.last_cmd.as_slice()
    }

    /// Move to `path`; refused when it is empty or longer than
    /// [`PATH_CAP`].
    pub fn set_cwd(&mut self, path: &str) -> (r: bool)
        ensures
            r == (path.spec_bytes().len() > 0 && path.spec_bytes().len() <= PATH_CAP),
            r ==> final(self).spec_cwd() == path.spec_bytes(),
            !r ==> final(self).spec_cwd() == old(self).spec_cwd(),
            final(self).spec_last_cmd() == old(self).spec_last_cmd(),
    {
        let b = path.as_bytes();
        if b.len() == 0 || b.len() > PATH_CAP {
            return false;
        }
        self.cwd = copy_prefix(b, b.len());
        proof {
            assert(self.cwd@ =~= b@);
        }
        true
    }
}

/// The text of the working directory `cwd`: itself, or `/` when it is not
/// valid UTF-8 (and not empty).
pub open spec fn cwd_text(cwd: Seq<u8>) -> Seq<u8> {
    if utf8_text(cwd).len() == 0 && cwd.len() != 0 { seq![47u8] } else { utf8_text(cwd) }
}

/// An absolute path being built: `/`, then components separated by `/`,
/// at most [`PATH_CAP`] bytes.
pub struct ShellPath {
    buf: Vec<u8>,
}

/// The path `s` without its last component (`/` stays `/`).
pub open spec fn pop_spec(s: Seq<u8>) -> Seq<u8> {
    match last_index_of(s, 47) {
        Some(i) => if i == 0 { seq![47u8] } else { s.subrange(0, i) },
        None => s,
    }
}

/// The path `s` after the component `c`: `.` and empty ones change
/// nothing, `..` goes up, others are appended; none when the result would
/// be longer than [`PATH_CAP`].
pub open spec fn push_spec(s: Seq<u8>, c: Seq<u8>) -> Option<Seq<u8>> {
    if c.len() == 0 || c == seq![46u8] {
        Some(s)
    } else if c == seq![46u8, 46u8] {
        Some(pop_spec(s))
    } else {
        let extra = if s.len() > 1 { 1int } else { 0int };
        if s.len() + extra + c.len() > PATH_CAP {
            None
        } else if extra == 1 {
            Some(s + seq![47u8] + c)
        } else {
            Some(s + c)
        }
    }
}

/// The path `s` after the components `cs` from the `k`-th on.
pub open spec fn push_all(s: Seq<u8>, cs: Seq<Seq<u8>>) -> Option<Seq<u8>>
    decreases cs.len(),
{
    if cs.len() == 0 {
        Some(s)
    } else {
        match push_spec(s, cs[0]) {
            None => None,
            Some(t) => push_all(t, cs.drop_first()),
        }
    }
}

/// Going into a directory and back up returns to where one was: after
/// the plain name `c` (no `/`, not `.` or `..`) is added to a path that
/// does not end in `/`, removing the last component gives the path back.
pub proof fn lemma_push_then_pop(s: Seq<u8>, c: Seq<u8>)
    requires
        s.len() >= 1,
        s[0] == 47,
        s.len() > 1 ==> s.last() != 47,
        c.len() > 0,
        c != seq![46u8],
        c != seq![46u8, 46u8],
        forall|i: int| 0 <= i < c.len() ==> c[i] != 47,
        push_spec(s, c) is Some,
    ensures
        pop_spec(push_spec(s, c).unwrap()) == s,
{
    let t = push_spec(s, c).unwrap();
    lemma_last_index(t, 47u8);
    if s.len() > 1 {
        assert(t == s + seq![47u8] + c);
        assert(t[s.len() as int] == 47);
        assert(last_index_of(t, 47) is Some);
        let i = last_index_of(t, 47).unwrap();
        if i < s.len() {
            assert(t[s.len() as int] != 47);
        }
        if i > s.len() {
            assert(t[i] == c[i - s.len() - 1]);
        }
        assert(i == s.len());
        assert(t.subrange(0, i) =~= s);
    } else {
        assert(t == s + c);
        assert(s =~= seq![47u8]);
        assert(t[0] == 47);
        assert(last_index_of(t, 47) is Some);
        let i = last_index_of(t, 47).unwrap();
        if i > 0 {
            assert(t[i] == c[i - 1]);
        }
        assert(i == 0);
    }
}

impl ShellPath {
    pub closed spec fn view(self) -> Seq<u8> {
        self.buf@
    }

    pub closed spec fn wf(self) -> bool {
        1 <= self.buf.len() <= PATH_CAP && self.buf@[0] == 47
    }

    /// `/`.
    pub fn root() -> (r: Self)
        ensures
            r.wf(),
            r.view() == seq![47u8],
    {
        let mut buf: Vec<u8> = Vec::new();
        buf.push(47u8);
        proof {
            assert(buf@ =~= seq![47u8]);
        }
        ShellPath { buf }
    }

    /// The path as text (`/` when it is not valid UTF-8).
    pub fn as_bytes(&self) -> (r: &[u8])
        ensures
            r@ == self.view(),
    {
        self.buf.as_slice()
    }

    /// Go up one component.
    pub fn pop_component(&mut self)
        requires
            old(self).wf(),
        ensures
            final(self).wf(),
            final(self).view() == pop_spec(old(self).view()),
    {
        proof {
            lemma_last_index(self.buf@, 47u8);
        }
        let ghost s = self.buf@;
        let mut len = self.buf.len();
        proof {
            assert(s.subrange(0, len as int) =~= s);
        }
        while len > 1 && self.buf[len - 1] != 47u8
            invariant
                1 <= len <= self.buf.len(),
                self.buf@ == s,
                s[0] == 47,
                last_index_of(s, 47) == last_index_of(s.subrange(0, len as int), 47),
            decreases len,
        {
            proof {
                assert(s.subrange(0, len as int).drop_last() =~= s.subrange(0, len - 1));
            }
            len -= 1;
        }
        proof {
            lemma_last_index(s.subrange(0, len as int), 47u8);
            if len == 1 {
                assert(s.subrange(0, 1)[0] == 47);
                assert(last_index_of(s.subrange(0, 1), 47) == Some(0int)) by {
                    assert(s.subrange(0, 1).last() == 47);
                }
            } else {
                assert(s.subrange(0, len as int).last() == 47);
            }
        }
        if len > 1 {
            len -= 1;
        }
        self.buf.truncate(len);
        proof {
            if len == 1 {
                assert(self.buf@ =~= seq![47u8]);
            } else {
                assert(self.buf@ =~= s.subrange(0, len as int));
            }
        }
    }

    /// Add the component `c`; false (and no change) when the path would be
    /// too long.
    pub fn push_component(&mut self, c: &[u8]) -> (r: bool)
        requires
            old(self).wf(),
        ensures
            final(self).wf(),
            r == push_spec(old(self).view(), c@) is Some,
            r ==> final(self).view() == push_spec(old(self).view(), c@).unwrap(),
            !r ==> final(self).view() == old(self).view(),
    {
        let dot: [u8; 1] = [46u8];
        let dotdot: [u8; 2] = [46u8, 46u8];
        proof {
            assert(dot@ =~= seq![46u8]);
            assert(dotdot@ =~= seq![46u8, 46u8]);
        }
        if c.len() == 0 || bytes_eq(c, dot.as_slice()) {
            return true;
        }
        if bytes_eq(c, dotdot.as_slice()) {
            self.pop_component();
            return true;
        }
        let extra: usize = if self.buf.len() > 1 { 1 } else { 0 };
        if c.len() > PATH_CAP || self.buf.len() + extra > PATH_CAP - c.len() {
            return false;
        }
        let ghost s = self.buf@;
        if extra == 1 {
            self.buf.push(47u8);
        }
        let mut i: usize = 0;
        let ghost base = self.buf@;
        while i < c.len()
            invariant
                i <= c.len(),
                self.buf@ == base + c@.subrange(0, i as int),
                base.len() + c.len() <= PATH_CAP,
            decreases c.len() - i,
        {
            self.buf.push(c[i]);
            i += 1;
            proof {
                assert(self.buf@ =~= base + c@.subrange(0, i as int));
            }
        }
        proof {
            assert(c@.subrange(0, c@.len() as int) =~= c@);
            if extra == 1 {
                assert(base =~= s + seq![47u8]);
            } else {
                assert(base =~= s);
            }
        }
        true
    }

    /// Add every component of `p` in order; false as soon as one does not
    /// fit (the components before it stay).
    pub fn push_components(&mut self, p: &[u8]) -> (r: bool)
        requires
            old(self).wf(),
        ensures
            final(self).wf(),
            r == push_all(old(self).view(), slash_parts(p@)) is Some,
            r ==> final(self).view() == push_all(old(self).view(), slash_parts(p@)).unwrap(),
    {
        let mut rest: &[u8] = p;
        let ghost goal = push_all(self.buf@, slash_parts(p@));
        while rest.len() > 0
            invariant
                self.wf(),
                goal == push_all(self.buf@, slash_parts(rest@)),
                goal == push_all(old(self).view(), slash_parts(p@)),
            decreases rest.len(),
        {
            let mut e: usize = 0;
            while e < rest.len() && rest[e] != 47u8
                invariant
                    e <= rest.len(),
                    slash_from(rest@, 0) == slash_from(rest@, e as int),
                decreases rest.len() - e,
            {
                e += 1;
            }
            proof {
                lemma_slash_from(rest@, 0);
            }
            let piece = vstd::slice::slice_subrange(rest, 0, e);
            let ghost old_rest = rest@;
            let ghost cur = self.buf@;
            rest = if e < rest.len() { vstd::slice::slice_subrange(rest, e + 1, rest.len()) } else { vstd::slice::slice_subrange(rest, 0, 0) };
            proof {
                if e >= old_rest.len() {
                    assert(rest@ =~= Seq::<u8>::empty());
                }
            }
            if e > 0 {
                if !self.push_component(piece) {
                    proof {
                        assert(slash_parts(old_rest) == seq![piece@] + slash_parts(rest@));
                        assert((seq![piece@] + slash_parts(rest@))[0] == piece@);
                        assert(push_spec(cur, piece@) is None);
                        assert(push_all(cur, slash_parts(old_rest)) is None);
                    }
                    return false;
                }
                proof {
                    assert(slash_parts(old_rest) == seq![piece@] + slash_parts(rest@));
                    assert((seq![piece@] + slash_parts(rest@))[0] == piece@);
                    assert((seq![piece@] + slash_parts(rest@)).drop_first() =~= slash_parts(rest@));
                }
            }
        }
        true
    }
}

/// The absolute path of `path` from the directory `cwd`: the working
/// directory for an empty path; a relative path goes on from it.
pub open spec fn normalize_spec(cwd: Seq<u8>, path: Seq<u8>) -> Option<Seq<u8>> {
    let input = if path.len() == 0 { cwd_text(cwd) } else { path };
    if !has_prefix(input, seq![47u8]) {
        match push_all(seq![47u8], slash_parts(cwd_text(cwd))) {
            None => None,
            Some(base) => push_all(base, slash_parts(input)),
        }
    } else {
        push_all(seq![47u8], slash_parts(input))
    }
}

/// The cwd text as bytes.
fn cwd_bytes(state: &ShellState) -> (r: Vec<u8>)
    ensures
        r@ == cwd_text(state.spec_cwd()),
{
    let t = utf8_or_empty(state.cwd.as_slice());
    if t.as_bytes().len() == 0 && state.cwd.len() != 0 {
        let mut v: Vec<u8> = Vec::new();
        v.push(47u8);
        proof {
            assert(v@ =~= seq![47u8]);
        }
        v
    } else {
        copy_prefix(t.as_bytes(), t.as_bytes().len())
    }
}

/// The absolute path of `path` from the working directory.
pub fn normalize_path(state: &ShellState, path: &[u8]) -> (r: Option<ShellPath>)
    ensures
        r is Some == normalize_spec(state.spec_cwd(), path@) is Some,
        r is Some ==> r.unwrap().wf() && r.unwrap().view() == normalize_spec(state.spec_cwd(), path@).unwrap(),
{
    let cwd = cwd_bytes(state);
    let input: &[u8] = if path.len() == 0 { cwd.as_slice() } else { path };
    let slash: [u8; 1] = [47u8];
    proof {
        assert(slash@ =~= seq![47u8]);
        if path@.len() == 0 {
            assert(input@ == cwd@);
        }
    }
    let mut out = ShellPath::root();
    if !starts_with(input, slash.as_slice()) {
        if !out.push_components(cwd.as_slice()) {
            return None;
        }
    }
    if !out.push_components(input) {
        return None;
    }
    Some(out)
}

/// Where the name being completed starts: the directory part (`/` for a
/// top-level name), the name's prefix, and the offset of the prefix.
pub fn split_completion_path(path: &[u8]) -> (r: (&[u8], &[u8], usize))
    ensures
        match last_index_of(path@, 47) {
            None => r.0@.len() == 0 && r.1@ == path@ && r.2 == 0,
            Some(pos) => {
                &&& r.0@ == path@.subrange(0, if pos == 0 { 1 } else { pos })
                &&& r.1@ == path@.subrange(pos + 1, path@.len() as int)
                &&& r.2 == pos + 1
            },
        },
{
    proof {
        lemma_last_index(path@, 47u8);
    }
    match rfind_byte(path, 47u8) {
        Some(pos) => {
            let dir_end = if pos == 0 { 1 } else { pos };
            (vstd::slice::slice_subrange(path, 0, dir_end), vstd::slice::slice_subrange(path, pos + 1, path.len()), pos + 1)
        },
        None => (vstd::slice::slice_subrange(path, 0, 0), path, 0),
    }
}

/// The parent directory (normalised) and the new name of `path`, for
/// creating `path`; none when the name is empty or the parent does not
/// normalise.
pub fn split_parent_child<'a>(state: &ShellState, path: &'a [u8]) -> (r: Option<(ShellPath, &'a [u8])>)
    ensures
        ({
            let (parent, child) = match last_index_of(path@, 47) {
                Some(i) => (if i == 0 { seq![47u8] } else { path@.subrange(0, i) }, path@.subrange(i + 1, path@.len() as int)),
                None => (Seq::<u8>::empty(), path@),
            };
            if child.len() == 0 {
                r is None
            } else {
                match normalize_spec(state.spec_cwd(), parent) {
                    None => r is None,
                    Some(p) => r is Some && r.unwrap().0.view() == p && r.unwrap().1@ == child,
                }
            }
        }),
{
    proof {
        lemma_last_index(path@, 47u8);
    }
    let root: [u8; 1] = [47u8];
    proof {
        assert(root@ =~= seq![47u8]);
    }
    let (parent, child): (&[u8], &[u8]) = match rfind_byte(path, 47u8) {
        Some(0) => (root.as_slice(), vstd::slice::slice_subrange(path, 1, path.len())),
        Some(pos) => (vstd::slice::slice_subrange(path, 0, pos), vstd::slice::slice_subrange(path, pos + 1, path.len())),
        None => (vstd::slice::slice_subrange(path, 0, 0), path),
    };
    if child.len() == 0 {
        return None;
    }
    match normalize_path(state, parent) {
        Some(p) => Some((p, child)),
        None => None,
    }
}

pub open spec fn is_space(b: u8) -> bool {
    b == 32 || (9 <= b <= 13)
}

/// `s` without leading and trailing ASCII white space.
pub open spec fn trim_spec(s: Seq<u8>) -> Seq<u8>
    decreases s.len(),
{
    if s.len() > 0 && is_space(s[0]) {
        trim_spec(s.drop_first())
    } else if s.len() > 0 && is_space(s.last()) {
        trim_spec(s.drop_last())
    } else {
        s
    }
}

/// `s` without leading and trailing ASCII white space.
pub fn trim(s: &[u8]) -> (r: &[u8])
    ensures
        r@ == trim_spec(s@),
{
    let mut a: usize = 0;
    let mut b: usize = s.len();
    proof {
        assert(s@.subrange(0, s@.len() as int) =~= s@);
    }
    while a < b && (s[a] == 32u8 || (9u8 <= s[a] && s[a] <= 13u8))
        invariant
            a <= b <= s.len(),
            b == s.len(),
            trim_spec(s@) == trim_spec(s@.subrange(a as int, b as int)),
        decreases b - a,
    {
        proof {
            assert(s@.subrange(a as int, b as int).drop_first() =~= s@.subrange(a + 1, b as int));
        }
        a += 1;
    }
    while a < b && (s[b - 1] == 32u8 || (9u8 <= s[b - 1] && s[b - 1] <= 13u8))
        invariant
            a <= b <= s.len(),
            a == b || !is_space(s@[a as int]),
            trim_spec(s@) == trim_spec(s@.subrange(a as int, b as int)),
        decreases b - a,
    {
        proof {
            assert(s@.subrange(a as int, b as int).drop_last() =~= s@.subrange(a as int, b - 1));
            assert(s@.subrange(a as int, b as int)[0] == s@[a as int]);
        }
        b -= 1;
    }
    proof {
        if a < b {
            assert(s@.subrange(a as int, b as int)[0] == s@[a as int]);
            assert(s@.subrange(a as int, b as int).last() == s@[b - 1]);
        }
    }
    vstd::slice::slice_subrange(s, a, b)
}

/// The first space of `s` from `i` on, if any.
pub open spec fn space_from(s: Seq<u8>, i: int) -> Option<int>
    decreases s.len() - i,
{
    if i >= s.len() || i < 0 {
        None
    } else if s[i] == 32 {
        Some(i)
    } else {
        space_from(s, i + 1)
    }
}

/// A command line split into the command and its arguments: up to the
/// first space, and the rest without surrounding white space.
pub fn parse_command(input: &[u8]) -> (r: (&[u8], &[u8]))
    ensures
        match space_from(input@, 0) {
            None => r.0@ == input@ && r.1@.len() == 0,
            Some(pos) => r.0@ == input@.subrange(0, pos) && r.1@ == trim_spec(input@.subrange(pos + 1, input@.len() as int)),
        },
{
    let mut i: usize = 0;
    while i < input.len() && input[i] != 32u8
        invariant
            i <= input.len(),
            space_from(input@, 0) == space_from(input@, i as int),
        decreases input.len() - i,
    {
        i += 1;
    }
    if i < input.len() {
        (vstd::slice::slice_subrange(input, 0, i), trim(vstd::slice::slice_subrange(input, i + 1, input.len())))
    } else {
        proof {
            assert(input@.subrange(0, input@.len() as int) =~= input@);
        }
        (vstd::slice::slice_subrange(input, 0, input.len()), vstd::slice::slice_subrange(input, 0, 0))
    }
}

/// The shell's commands.
#[derive(Debug, Clone, Copy, PartialEq, Eq, Structural)]
pub enum ShellCommand {
    Help,
    Version,
    Clear,
    Uptime,
    Ls,
    Cd,
    Cat,
    Mkdir,
    Touch,
    Echo,
    Vm,
    Mount,
    Mem,
    Tasks,
    Unknown,
}

/// The command names, in completion order, as bytes.
pub open spec fn command_name_bytes() -> Seq<Seq<u8>> {
    seq![
        seq![104u8, 101u8, 108u8, 112u8],
        seq![118u8, 101u8, 114u8, 115u8, 105u8, 111u8, 110u8],
        seq![118u8, 101u8, 114u8],
        seq![99u8, 108u8, 101u8, 97u8, 114u8],
        seq![117u8, 112u8, 116u8, 105u8, 109u8, 101u8],
        seq![108u8, 115u8],
        seq![99u8, 100u8],
        seq![99u8, 97u8, 116u8],
        seq![109u8, 107u8, 100u8, 105u8, 114u8],
        seq![116u8, 111u8, 117u8, 99u8, 104u8],
        seq![101u8, 99u8, 104u8, 111u8],
        seq![118u8, 109u8],
        seq![109u8, 111u8, 117u8, 110u8, 116u8],
        seq![109u8, 101u8, 109u8],
        seq![116u8, 97u8, 115u8, 107u8, 115u8],
        seq![112u8, 115u8],
    ]
}

/// The command each name of [`command_name_bytes`] stands for.
pub open spec fn command_kinds() -> Seq<ShellCommand> {
    seq![
        ShellCommand::Help,
        ShellCommand::Version,
        ShellCommand::Version,
        ShellCommand::Clear,
        ShellCommand::Uptime,
        ShellCommand::Ls,
        ShellCommand::Cd,
        ShellCommand::Cat,
        ShellCommand::Mkdir,
        ShellCommand::Touch,
        ShellCommand::Echo,
        ShellCommand::Vm,
        ShellCommand::Mount,
        ShellCommand::Mem,
        ShellCommand::Tasks,
        ShellCommand::Tasks,
    ]
}

/// The position of the first command name equal to `cmd`, from `k` on.
pub open spec fn name_index(cmd: Seq<u8>, k: int) -> Option<int>
    decreases 16 - k,
{
    if k < 0 || k >= 16 {
        None
    } else if command_name_bytes()[k] == cmd {
        Some(k)
    } else {
        name_index(cmd, k + 1)
    }
}

/// The command of the name `cmd`.
pub open spec fn command_of(cmd: Seq<u8>) -> ShellCommand {
    match name_index(cmd, 0) {
        Some(i) => command_kinds()[i],
        None => ShellCommand::Unknown,
    }
}

/// Each command name stands for the command of that name: `help`,
/// `version` and its short form `ver`, `clear`, `uptime`, `ls`, `cd`,
/// `cat`, `mkdir`, `touch`, `echo`, `vm`, `mount`, `mem`, and `tasks` with
/// its alias `ps`; any other word is unknown.
pub proof fn lemma_command_of(cmd: Seq<u8>)
    ensures
        (command_of(cmd) == ShellCommand::Help) == (cmd == seq![104u8, 101u8, 108u8, 112u8]),
        (command_of(cmd) == ShellCommand::Version) == (cmd == seq![118u8, 101u8, 114u8, 115u8, 105u8, 111u8, 110u8] || cmd == seq![118u8, 101u8, 114u8]),
        (command_of(cmd) == ShellCommand::Clear) == (cmd == seq![99u8, 108u8, 101u8, 97u8, 114u8]),
        (command_of(cmd) == ShellCommand::Uptime) == (cmd == seq![117u8, 112u8, 116u8, 105u8, 109u8, 101u8]),
        (command_of(cmd) == ShellCommand::Ls) == (cmd == seq![108u8, 115u8]),
        (command_of(cmd) == ShellCommand::Cd) == (cmd == seq![99u8, 100u8]),
        (command_of(cmd) == ShellCommand::Cat) == (cmd == seq![99u8, 97u8, 116u8]),
        (command_of(cmd) == ShellCommand::Mkdir) == (cmd == seq![109u8, 107u8, 100u8, 105u8, 114u8]),
        (command_of(cmd) == ShellCommand::Touch) == (cmd == seq![116u8, 111u8, 117u8, 99u8, 104u8]),
        (command_of(cmd) == ShellCommand::Echo) == (cmd == seq![101u8, 99u8, 104u8, 111u8]),
        (command_of(cmd) == ShellCommand::Vm) == (cmd == seq![118u8, 109u8]),
        (command_of(cmd) == ShellCommand::Mount) == (cmd == seq![109u8, 111u8, 117u8, 110u8, 116u8]),
        (command_of(cmd) == ShellCommand::Mem) == (cmd == seq![109u8, 101u8, 109u8]),
        (command_of(cmd) == ShellCommand::Tasks) == (cmd == seq![116u8, 97u8, 115u8, 107u8, 115u8] || cmd == seq![112u8, 115u8]),
        (command_of(cmd) == ShellCommand::Unknown) == (cmd != seq![104u8, 101u8, 108u8, 112u8] && cmd != seq![118u8, 101u8, 114u8, 115u8, 105u8, 111u8, 110u8] && cmd != seq![118u8, 101u8, 114u8] && cmd != seq![99u8, 108u8, 101u8, 97u8, 114u8] && cmd != seq![117u8, 112u8, 116u8, 105u8, 109u8, 101u8] && cmd != seq![108u8, 115u8] && cmd != seq![99u8, 100u8] && cmd != seq![99u8, 97u8, 116u8] && cmd != seq![109u8, 107u8, 100u8, 105u8, 114u8] && cmd != seq![116u8, 111u8, 117u8, 99u8, 104u8] && cmd != seq![101u8, 99u8, 104u8, 111u8] && cmd != seq![118u8, 109u8] && cmd != seq![109u8, 111u8, 117u8, 110u8, 116u8] && cmd != seq![109u8, 101u8, 109u8] && cmd != seq![116u8, 97u8, 115u8, 107u8, 115u8] && cmd != seq![112u8, 115u8]),
{
    reveal_with_fuel(name_index, 17);
}

/// The names from the `k`-th on that begin with `p`, in order.
pub open spec fn names_with_prefix(p: Seq<u8>, k: int) -> Seq<Seq<u8>>
    decreases 16 - k,
{
    if k < 0 || k >= 16 {
        Seq::empty()
    } else if has_prefix(command_name_bytes()[k], p) {
        seq![command_name_bytes()[k]] + names_with_prefix(p, k + 1)
    } else {
        names_with_prefix(p, k + 1)
    }
}

/// The command names, in completion order.
pub fn command_names() -> (r: Vec<&'static str>)
    ensures
        r.len() == 16,
        forall|i: int| 0 <= i < 16 ==> (#[trigger] r@[i]).spec_bytes() == command_name_bytes()[i],
{
    let r = vec!["help", "version", "ver", "clear", "uptime", "ls", "cd", "cat", "mkdir", "touch", "echo", "vm", "mount", "mem", "tasks", "ps"];
    proof {
        reveal_strlit("help");
        assert("help"@ =~= seq!['h', 'e', 'l', 'p']);
        assert(vstd::string::is_ascii("help"));
        vstd::string::is_ascii_spec_bytes("help");
        assert(r@[0].spec_bytes() =~= command_name_bytes()[0]);
        reveal_strlit("version");
        assert("version"@ =~= seq!['v', 'e', 'r', 's', 'i', 'o', 'n']);
        assert(vstd::string::is_ascii("version"));
        vstd::string::is_ascii_spec_bytes("version");
        assert(r@[1].spec_bytes() =~= command_name_bytes()[1]);
        reveal_strlit("ver");
        assert("ver"@ =~= seq!['v', 'e', 'r']);
        assert(vstd::string::is_ascii("ver"));
        vstd::string::is_ascii_spec_bytes("ver");
        assert(r@[2].spec_bytes() =~= command_name_bytes()[2]);
        reveal_strlit("clear");
        assert("clear"@ =~= seq!['c', 'l', 'e', 'a', 'r']);
        assert(vstd::string::is_ascii("clear"));
        vstd::string::is_ascii_spec_bytes("clear");
        assert(r@[3].spec_bytes() =~= command_name_bytes()[3]);
        reveal_strlit("uptime");
        assert("uptime"@ =~= seq!['u', 'p', 't', 'i', 'm', 'e']);
        assert(vstd::string::is_ascii("uptime"));
        vstd::string::is_ascii_spec_bytes("uptime");
        assert(r@[4].spec_bytes() =~= command_name_bytes()[4]);
        reveal_strlit("ls");
        assert("ls"@ =~= seq!['l', 's']);
        assert(vstd::string::is_ascii("ls"));
        vstd::string::is_ascii_spec_bytes("ls");
        assert(r@[5].spec_bytes() =~= command_name_bytes()[5]);
        reveal_strlit("cd");
        assert("cd"@ =~= seq!['c', 'd']);
        assert(vstd::string::is_ascii("cd"));
        vstd::string::is_ascii_spec_bytes("cd");
        assert(r@[6].spec_bytes() =~= command_name_bytes()[6]);
        reveal_strlit("cat");
        assert("cat"@ =~= seq!['c', 'a', 't']);
        assert(vstd::string::is_ascii("cat"));
        vstd::string::is_ascii_spec_bytes("cat");
        assert(r@[7].spec_bytes() =~= command_name_bytes()[7]);
        reveal_strlit("mkdir");
        assert("mkdir"@ =~= seq!['m', 'k', 'd', 'i', 'r']);
        assert(vstd::string::is_ascii("mkdir"));
        vstd::string::is_ascii_spec_bytes("mkdir");
        assert(r@[8].spec_bytes() =~= command_name_bytes()[8]);
        reveal_strlit("touch");
        assert("touch"@ =~= seq!['t', 'o', 'u', 'c', 'h']);
        assert(vstd::string::is_ascii("touch"));
        vstd::string::is_ascii_spec_bytes("touch");
        assert(r@[9].spec_bytes() =~= command_name_bytes()[9]);
        reveal_strlit("echo");
        assert("echo"@ =~= seq!['e', 'c', 'h', 'o']);
        assert(vstd::string::is_ascii("echo"));
        vstd::string::is_ascii_spec_bytes("echo");
        assert(r@[10].spec_bytes() =~= command_name_bytes()[10]);
        reveal_strlit("vm");
        assert("vm"@ =~= seq!['v', 'm']);
        assert(vstd::string::is_ascii("vm"));
        vstd::string::is_ascii_spec_bytes("vm");
        assert(r@[11].spec_bytes() =~= command_name_bytes()[11]);
        reveal_strlit("mount");
        assert("mount"@ =~= seq!['m', 'o', 'u', 'n', 't']);
        assert(vstd::string::is_ascii("mount"));
        vstd::string::is_ascii_spec_bytes("mount");
        assert(r@[12].spec_bytes() =~= command_name_bytes()[12]);
        reveal_strlit("mem");
        assert("mem"@ =~= seq!['m', 'e', 'm']);
        assert(vstd::string::is_ascii("mem"));
        vstd::string::is_ascii_spec_bytes("mem");
        assert(r@[13].spec_bytes() =~= command_name_bytes()[13]);
        reveal_strlit("tasks");
        assert("tasks"@ =~= seq!['t', 'a', 's', 'k', 's']);
        assert(vstd::string::is_ascii("tasks"));
        vstd::string::is_ascii_spec_bytes("tasks");
        assert(r@[14].spec_bytes() =~= command_name_bytes()[14]);
        reveal_strlit("ps");
        assert("ps"@ =~= seq!['p', 's']);
        assert(vstd::string::is_ascii("ps"));
        vstd::string::is_ascii_spec_bytes("ps");
        assert(r@[15].spec_bytes() =~= command_name_bytes()[15]);
    }
    r
}

/// The command of the name `cmd`.
pub fn classify_command(cmd: &[u8]) -> (r: ShellCommand)
    ensures
        r == command_of(cmd@),
        (r == ShellCommand::Help) == (cmd@ == seq![104u8, 101u8, 108u8, 112u8]),
        (r == ShellCommand::Version) == (cmd@ == seq![118u8, 101u8, 114u8, 115u8, 105u8, 111u8, 110u8] || cmd@ == seq![118u8, 101u8, 114u8]),
        (r == ShellCommand::Clear) == (cmd@ == seq![99u8, 108u8, 101u8, 97u8, 114u8]),
        (r == ShellCommand::Uptime) == (cmd@ == seq![117u8, 112u8, 116u8, 105u8, 109u8, 101u8]),
        (r == ShellCommand::Ls) == (cmd@ == seq![108u8, 115u8]),
        (r == ShellCommand::Cd) == (cmd@ == seq![99u8, 100u8]),
        (r == ShellCommand::Cat) == (cmd@ == seq![99u8, 97u8, 116u8]),
        (r == ShellCommand::Mkdir) == (cmd@ == seq![109u8, 107u8, 100u8, 105u8, 114u8]),
        (r == ShellCommand::Touch) == (cmd@ == seq![116u8, 111u8, 117u8, 99u8, 104u8]),
        (r == ShellCommand::Echo) == (cmd@ == seq![101u8, 99u8, 104u8, 111u8]),
        (r == ShellCommand::Vm) == (cmd@ == seq![118u8, 109u8]),
        (r == ShellCommand::Mount) == (cmd@ == seq![109u8, 111u8, 117u8, 110u8, 116u8]),
        (r == ShellCommand::Mem) == (cmd@ == seq![109u8, 101u8, 109u8]),
        (r == ShellCommand::Tasks) == (cmd@ == seq![116u8, 97u8, 115u8, 107u8, 115u8] || cmd@ == seq![112u8, 115u8]),
        (r == ShellCommand::Unknown) == (cmd@ != seq![104u8, 101u8, 108u8, 112u8] && cmd@ != seq![118u8, 101u8, 114u8, 115u8, 105u8, 111u8, 110u8] && cmd@ != seq![118u8, 101u8, 114u8] && cmd@ != seq![99u8, 108u8, 101u8, 97u8, 114u8] && cmd@ != seq![117u8, 112u8, 116u8, 105u8, 109u8, 101u8] && cmd@ != seq![108u8, 115u8] && cmd@ != seq![99u8, 100u8] && cmd@ != seq![99u8, 97u8, 116u8] && cmd@ != seq![109u8, 107u8, 100u8, 105u8, 114u8] && cmd@ != seq![116u8, 111u8, 117u8, 99u8, 104u8] && cmd@ != seq![101u8, 99u8, 104u8, 111u8] && cmd@ != seq![118u8, 109u8] && cmd@ != seq![109u8, 111u8, 117u8, 110u8, 116u8] && cmd@ != seq![109u8, 101u8, 109u8] && cmd@ != seq![116u8, 97u8, 115u8, 107u8, 115u8] && cmd@ != seq![112u8, 115u8]),
{
    proof {
        lemma_command_of(cmd@);
    }
    let names = command_names();
    let kinds: [ShellCommand; 16] = [ShellCommand::Help, ShellCommand::Version, ShellCommand::Version, ShellCommand::Clear, ShellCommand::Uptime, ShellCommand::Ls, ShellCommand::Cd, ShellCommand::Cat, ShellCommand::Mkdir, ShellCommand::Touch, ShellCommand::Echo, ShellCommand::Vm, ShellCommand::Mount, ShellCommand::Mem, ShellCommand::Tasks, ShellCommand::Tasks];
    proof {
        assert(kinds@ =~= command_kinds());
    }
    let mut i: usize = 0;
    while i < 16
        invariant
            i <= 16,
            names.len() == 16,
            forall|j: int| 0 <= j < 16 ==> (#[trigger] names@[j]).spec_bytes() == command_name_bytes()[j],
            kinds@ == command_kinds(),
            name_index(cmd@, 0) == name_index(cmd@, i as int),
        decreases 16 - i,
    {
        if bytes_eq(names[i].as_bytes(), cmd) {
            return kinds[i];
        }
        i += 1;
    }
    ShellCommand::Unknown
}

/// The command names that begin with `input`, in order.
pub fn complete_command(input: &[u8]) -> (r: Vec<&'static str>)
    ensures
        r@.map_values(|n: &'static str| n.spec_bytes()) == names_with_prefix(input@, 0),
{
    let names = command_names();
    let mut out: Vec<&'static str> = Vec::new();
    let mut i: usize = 0;
    while i < 16
        invariant
            i <= 16,
            names.len() == 16,
            forall|j: int| 0 <= j < 16 ==> (#[trigger] names@[j]).spec_bytes() == command_name_bytes()[j],
            out@.map_values(|n: &'static str| n.spec_bytes()) + names_with_prefix(input@, i as int)
                == names_with_prefix(input@, 0),
        decreases 16 - i,
    {
        let ghost before = out@.map_values(|n: &'static str| n.spec_bytes());
        if starts_with(names[i].as_bytes(), input) {
            out.push(names[i]);
            proof {
                assert(out@.map_values(|n: &'static str| n.spec_bytes()) =~= before + seq![command_name_bytes()[i as int]]);
                assert(before + names_with_prefix(input@, i as int) =~= (before + seq![command_name_bytes()[i as int]])
                    + names_with_prefix(input@, i + 1));
            }
        } else {
            proof {
                assert(out@.map_values(|n: &'static str| n.spec_bytes()) =~= before);
            }
        }
        i += 1;
    }
    proof {
        assert(out@.map_values(|n: &'static str| n.spec_bytes()) + names_with_prefix(input@, 16) =~= out@.map_values(|n: &'static str| n.spec_bytes()));
    }
    out
}

/// Where the line editor is within an escape sequence.
#[derive(Debug, Clone, Copy, PartialEq, Eq, Structural)]
pub enum EscState {
    Normal,
    SawEsc,
    SawBracket,
    Saw3,
}

/// What the shell does after a byte: nothing, redraw the line, run the
/// line, or complete the word at the cursor.
#[derive(Debug, Clone, PartialEq, Eq)]
pub enum EditAction {
    Nothing,
    Redraw,
    Submit(Vec<u8>),
    Complete,
}

/// What an input byte asks of the shell, as [`edit_step`] reports it.
pub enum StepAction {
    Nothing,
    Redraw,
    Submit,
    Complete,
}

/// One input byte `c` on the line `t` with the cursor at `p` in escape
/// state `esc`, with `last` the command that the up arrow recalls: the new
/// text, cursor and escape state, and what the shell is to do.
/// - Escape starts a sequence; `ESC [` then selects: `A` (up) recalls
///   `last` when it is non-empty and shorter than [`INPUT_CAP`], `C` and
///   `D` move the cursor right and left, `H` and `F` go to the start and
///   the end, and `3 ~` deletes the byte under the cursor.
/// - Carriage return or line feed submits the line and empties it;
///   backspace or DEL removes the byte before the cursor; tab asks for a
///   completion; a printable byte is inserted at the cursor while the line
///   has room.
pub open spec fn edit_step(t: Seq<u8>, p: int, esc: EscState, c: u8, last: Seq<u8>) -> (Seq<u8>, int, EscState, StepAction) {
    match esc {
        EscState::SawEsc => (t, p, if c == 91 { EscState::SawBracket } else { EscState::Normal }, StepAction::Nothing),
        EscState::SawBracket => if c == 65 {
            if 0 < last.len() < INPUT_CAP {
                (last, last.len() as int, EscState::Normal, StepAction::Redraw)
            } else {
                (t, p, EscState::Normal, StepAction::Nothing)
            }
        } else if c == 67 {
            if p < t.len() { (t, p + 1, EscState::Normal, StepAction::Redraw) } else { (t, p, EscState::Normal, StepAction::Nothing) }
        } else if c == 68 {
            if p > 0 { (t, p - 1, EscState::Normal, StepAction::Redraw) } else { (t, p, EscState::Normal, StepAction::Nothing) }
        } else if c == 72 {
            (t, 0, EscState::Normal, StepAction::Redraw)
        } else if c == 70 {
            (t, t.len() as int, EscState::Normal, StepAction::Redraw)
        } else if c == 51 {
            (t, p, EscState::Saw3, StepAction::Nothing)
        } else {
            (t, p, EscState::Normal, StepAction::Nothing)
        },
        EscState::Saw3 => if c == 126 && p < t.len() {
            (t.subrange(0, p) + t.subrange(p + 1, t.len() as int), p, EscState::Normal, StepAction::Redraw)
        } else {
            (t, p, EscState::Normal, StepAction::Nothing)
        },
        EscState::Normal => if c == 0x1b {
            (t, p, EscState::SawEsc, StepAction::Nothing)
        } else if c == 13 || c == 10 {
            (Seq::empty(), 0, EscState::Normal, StepAction::Submit)
        } else if c == 8 || c == 127 {
            if p > 0 {
                (t.subrange(0, p - 1) + t.subrange(p, t.len() as int), p - 1, EscState::Normal, StepAction::Redraw)
            } else {
                (t, p, EscState::Normal, StepAction::Nothing)
            }
        } else if c == 9 {
            (t, p, EscState::Normal, StepAction::Complete)
        } else if 0x20 <= c < 0x7f && t.len() < INPUT_CAP {
            (t.subrange(0, p) + seq![c] + t.subrange(p, t.len() as int), p + 1, EscState::Normal, StepAction::Redraw)
        } else {
            (t, p, EscState::Normal, StepAction::Nothing)
        },
    }
}

/// What the editing keys do to the line `t` with the cursor at `p`:
/// Home puts the cursor at the start and End at the end of the line;
/// Right and Left move it one byte while there is room; Up brings back
/// `last` with the cursor after it; Delete removes the byte under the
/// cursor and Backspace the byte before it, the rest closing up; a
/// printable byte goes in at the cursor, which moves past it; Enter hands
/// the line over and leaves it empty. The text is otherwise unchanged.
pub proof fn lemma_edit_keys(t: Seq<u8>, p: int, last: Seq<u8>, c: u8)
    requires
        0 <= p <= t.len(),
    ensures
        ({
            let r = edit_step(t, p, EscState::SawBracket, 72, last);
            r.0 == t && r.1 == 0
        }),
        ({
            let r = edit_step(t, p, EscState::SawBracket, 70, last);
            r.0 == t && r.1 == t.len()
        }),
        ({
            let r = edit_step(t, p, EscState::SawBracket, 67, last);
            r.0 == t && r.1 == if p < t.len() { p + 1 } else { p }
        }),
        ({
            let r = edit_step(t, p, EscState::SawBracket, 68, last);
            r.0 == t && r.1 == if p > 0 { p - 1 } else { p }
        }),
        0 < last.len() < INPUT_CAP ==> ({
            let r = edit_step(t, p, EscState::SawBracket, 65, last);
            r.0 == last && r.1 == last.len()
        }),
        p < t.len() ==> ({
            let r = edit_step(t, p, EscState::Saw3, 126, last);
            &&& r.1 == p
            &&& r.0.len() == t.len() - 1
            &&& forall|i: int| 0 <= i < p ==> r.0[i] == t[i]
            &&& forall|i: int| p <= i < t.len() - 1 ==> r.0[i] == t[i + 1]
        }),
        p > 0 ==> ({
            let r = edit_step(t, p, EscState::Normal, 127, last);
            &&& r.1 == p - 1
            &&& r.0.len() == t.len() - 1
            &&& forall|i: int| 0 <= i < p - 1 ==> r.0[i] == t[i]
            &&& forall|i: int| p - 1 <= i < t.len() - 1 ==> r.0[i] == t[i + 1]
        }),
        0x20 <= c < 0x7f && t.len() < INPUT_CAP ==> ({
            let r = edit_step(t, p, EscState::Normal, c, last);
            &&& r.1 == p + 1
            &&& r.0.len() == t.len() + 1
            &&& r.0[p] == c
            &&& forall|i: int| 0 <= i < p ==> r.0[i] == t[i]
            &&& forall|i: int| p < i < t.len() + 1 ==> r.0[i] == t[i - 1]
        }),
        ({
            let r = edit_step(t, p, EscState::Normal, 13, last);
            r.0.len() == 0 && r.1 == 0 && r.3 == StepAction::Submit
        }),
{
}

/// The input line: its text, the cursor and the escape state.
pub struct LineEditor {
    text: Vec<u8>,
    pos: usize,
    esc: EscState,
}

impl LineEditor {
    pub closed spec fn spec_text(self) -> Seq<u8> {
        self.text@
    }

    pub closed spec fn spec_pos(self) -> usize {
        self.pos
    }

    pub closed spec fn spec_esc(self) -> EscState {
        self.esc
    }

    pub closed spec fn wf(self) -> bool {
        self.text.len() <= INPUT_CAP && self.pos <= self.text.len()
    }

    pub fn new() -> (r: Self)
        ensures
            r.wf(),
            r.spec_text().len() == 0,
            r.spec_pos() == 0,
            r.spec_esc() == EscState::Normal,
    {
        LineEditor { text: Vec::new(), pos: 0, esc: EscState::Normal }
    }

    pub fn text(&self) -> (r: &[u8])
        ensures
            r@ == self.spec_text(),
    {
        self.text.as_slice()
    }

    pub fn pos(&self) -> (r: usize)
        ensures
            r == self.spec_pos(),
    {
        self.pos
    }

    /// Set the line to `text` with the cursor at its end (after a
    /// completion).
    pub fn set_line(&mut self, text: &[u8])
        requires
            text@.len() <= INPUT_CAP,
        ensures
            final(self).wf(),
            final(self).spec_text() == text@,
            final(self).spec_pos() == text@.len(),
            final(self).spec_esc() == old(self).spec_esc(),
    {
        self.text = copy_prefix(text, text.len());
        proof {
            assert(self.text@ =~= text@);
        }
        self.pos = text.len();
    }

    /// Take the byte `c` of input; `last_cmd` is the command recalled by
    /// the up arrow. The line, cursor and escape state change as
    /// [`edit_step`] says; a submitted line carries the text before.
    pub fn feed(&mut self, c: u8, last_cmd: &[u8]) -> (r: EditAction)
        requires
            old(self).wf(),
        ensures
            final(self).wf(),
            ({
                let st = edit_step(old(self).spec_text(), old(self).spec_pos() as int, old(self).spec_esc(), c, last_cmd@);
                &&& final(self).spec_text() == st.0
                &&& final(self).spec_pos() == st.1
                &&& final(self).spec_esc() == st.2
                &&& match st.3 {
                    StepAction::Nothing => r == EditAction::Nothing,
                    StepAction::Redraw => r == EditAction::Redraw,
                    StepAction::Complete => r == EditAction::Complete,
                    StepAction::Submit => r matches EditAction::Submit(v) && v@ == old(self).spec_text(),
                }
            }),
    {
        match self.esc {
            EscState::SawBracket => {
                self.esc = EscState::Normal;
                if c == 65u8 {
                    let n = last_cmd.len();
                    if n > 0 && n < INPUT_CAP {
                        self.text = copy_prefix(last_cmd, n);
                        self.pos = n;
                        return EditAction::Redraw;
                    }
                    return EditAction::Nothing;
                } else if c == 67u8 {
                    if self.pos < self.text.len() {
                        self.pos += 1;
                        return EditAction::Redraw;
                    }
                    return EditAction::Nothing;
                } else if c == 68u8 {
                    if self.pos > 0 {
                        self.pos -= 1;
                        return EditAction::Redraw;
                    }
                    return EditAction::Nothing;
                } else if c == 72u8 {
                    self.pos = 0;
                    return EditAction::Redraw;
                } else if c == 70u8 {
                    self.pos = self.text.len();
                    return EditAction::Redraw;
                } else if c == 51u8 {
                    self.esc = EscState::Saw3;
                }
                return EditAction::Nothing;
            },
            EscState::Saw3 => {
                self.esc = EscState::Normal;
                if c == 126u8 && self.pos < self.text.len() {
                    self.text.remove(self.pos);
                    return EditAction::Redraw;
                }
                return EditAction::Nothing;
            },
            EscState::SawEsc => {
                self.esc = if c == 91u8 { EscState::SawBracket } else { EscState::Normal };
                return EditAction::Nothing;
            },
            EscState::Normal => {},
        }
        if c == 0x1bu8 {
            self.esc = EscState::SawEsc;
            return EditAction::Nothing;
        }
        if c == 13u8 || c == 10u8 {
            let mut line: Vec<u8> = Vec::new();
            std::mem::swap(&mut line, &mut self.text);
            self.pos = 0;
            return EditAction::Submit(line);
        }
        if c == 8u8 || c == 127u8 {
            if self.pos > 0 {
                let ghost t = self.text@;
                self.text.remove(self.pos - 1);
                self.pos -= 1;
                proof {
                    assert(self.text@ =~= t.subrange(0, self.pos as int) + t.subrange(self.pos + 1, t.len() as int));
                }
                return EditAction::Redraw;
            }
            return EditAction::Nothing;
        }
        if c == 9u8 {
            return EditAction::Complete;
        }
        if c >= 0x20u8 && c < 0x7fu8 {
            if self.text.len() < INPUT_CAP {
                let ghost t = self.text@;
                self.text.insert(self.pos, c);
                self.pos += 1;
                proof {
                    assert(self.text@ =~= t.subrange(0, self.pos - 1) + seq![c] + t.subrange(self.pos - 1, t.len() as int));
                }
                return EditAction::Redraw;
            }
        }
        EditAction::Nothing
    }
}

/// The start of the argument that holds the cursor at `pos`: just after the
/// last space before it, or none when the cursor is still in the command.
pub open spec fn arg_start_spec(line: Seq<u8>, pos: int) -> Option<int>
    decreases pos,
{
    if pos <= 0 {
        None
    } else if line[pos - 1] == 32 {
        Some(pos)
    } else {
        arg_start_spec(line, pos - 1)
    }
}

/// Where the word being completed starts (see [`arg_start_spec`]).
pub fn tab_arg_start(line: &[u8], pos: usize) -> (r: Option<usize>)
    requires
        pos <= line.len(),
    ensures
        r == (match arg_start_spec(line@, pos as int) {
            Some(i) => Some(i as usize),
            None => None::<usize>,
        }),
{
    let mut i: usize = pos;
    while i > 0 && line[i - 1] != 32u8
        invariant
            i <= pos <= line.len(),
            arg_start_spec(line@, pos as int) == arg_start_spec(line@, i as int),
        decreases i,
    {
        i -= 1;
    }
    if i == 0 {
        None
    } else {
        Some(i)
    }
}

/// The first `>` of `s` from `i` on, if any.
pub open spec fn gt_from(s: Seq<u8>, i: int) -> Option<int>
    decreases s.len() - i,
{
    if i >= s.len() || i < 0 {
        None
    } else if s[i] == 62 {
        Some(i)
    } else {
        gt_from(s, i + 1)
    }
}

/// The `echo` arguments split at the first `>`: the text and the file
/// name, each without surrounding white space; none without a `>`.
pub fn split_redirect(args: &[u8]) -> (r: Option<(&[u8], &[u8])>)
    ensures
        match gt_from(args@, 0) {
            None => r is None,
            Some(pos) => r is Some && r.unwrap().0@ == trim_spec(args@.subrange(0, pos))
                && r.unwrap().1@ == trim_spec(args@.subrange(pos + 1, args@.len() as int)),
        },
{
    let mut i: usize = 0;
    while i < args.len() && args[i] != 62u8
        invariant
            i <= args.len(),
            gt_from(args@, 0) == gt_from(args@, i as int),
        decreases args.len() - i,
    {
        i += 1;
    }
    if i >= args.len() {
        return None;
    }
    let text = trim(vstd::slice::slice_subrange(args, 0, i));
    let file = trim(vstd::slice::slice_subrange(args, i + 1, args.len()));
    Some((text, file))
}

/// The first byte of `s` from `i` on that is not white space.
pub open spec fn skip_spaces(s: Seq<u8>, i: int) -> int
    decreases s.len() - i,
{
    if i >= s.len() || i < 0 {
        if i < 0 { 0 } else { i }
    } else if is_space(s[i]) {
        skip_spaces(s, i + 1)
    } else {
        i
    }
}

/// The first white space byte of `s` from `i` on (or its end).
pub open spec fn word_end(s: Seq<u8>, i: int) -> int
    decreases s.len() - i,
{
    if i >= s.len() || i < 0 {
        if i < 0 { 0 } else { i }
    } else if is_space(s[i]) {
        i
    } else {
        word_end(s, i + 1)
    }
}

pub proof fn lemma_skip_spaces(s: Seq<u8>, i: int)
    requires
        0 <= i,
    ensures
        i <= skip_spaces(s, i),
        i <= s.len() ==> skip_spaces(s, i) <= s.len(),
        skip_spaces(s, i) < s.len() ==> !is_space(s[skip_spaces(s, i)]),
    decreases s.len() - i,
{
    if i < s.len() && is_space(s[i]) {
        lemma_skip_spaces(s, i + 1);
    }
}

pub proof fn lemma_word_end(s: Seq<u8>, i: int)
    requires
        0 <= i,
    ensures
        i <= word_end(s, i),
        i <= s.len() ==> word_end(s, i) <= s.len(),
        word_end(s, i) < s.len() ==> is_space(s[word_end(s, i)]),
    decreases s.len() - i,
{
    if i < s.len() && !is_space(s[i]) {
        lemma_word_end(s, i + 1);
    }
}

/// The words of `s` from `i` on: the runs of bytes that are not ASCII
/// white space.
pub open spec fn words_from(s: Seq<u8>, i: int) -> Seq<Seq<u8>>
    decreases s.len() - i,
{
    if i < 0 || i >= s.len() {
        Seq::empty()
    } else {
        let a = skip_spaces(s, i);
        if a >= s.len() {
            Seq::empty()
        } else {
            let e = word_end(s, a);
            proof {
                lemma_skip_spaces(s, i);
                lemma_word_end(s, a);
            }
            if e <= i {
                Seq::empty()
            } else {
                seq![s.subrange(a, e)] + words_from(s, e)
            }
        }
    }
}

/// The first three words of `s`, and whether it has more.
pub fn first_words(s: &[u8]) -> (r: (Vec<&[u8]>, bool))
    ensures
        r.0@.map_values(|w: &[u8]| w@) == words_from(s@, 0).take(
            if words_from(s@, 0).len() < 3 { words_from(s@, 0).len() as int } else { 3 },
        ),
        r.1 == (words_from(s@, 0).len() > 3),
{
    let mut out: Vec<&[u8]> = Vec::new();
    let mut i: usize = 0;
    let ghost all = words_from(s@, 0);
    loop
        invariant
            i <= s.len(),
            out.len() <= 3,
            all == words_from(s@, 0),
            out@.map_values(|w: &[u8]| w@) + words_from(s@, i as int) == all,
        decreases s.len() - i,
    {
        let mut a: usize = i;
        while a < s.len() && (s[a] == 32u8 || (9u8 <= s[a] && s[a] <= 13u8))
            invariant
                i <= a <= s.len(),
                skip_spaces(s@, i as int) == skip_spaces(s@, a as int),
            decreases s.len() - a,
        {
            a += 1;
        }
        proof {
            lemma_skip_spaces(s@, i as int);
        }
        if a >= s.len() {
            proof {
                assert(words_from(s@, i as int) =~= Seq::<Seq<u8>>::empty());
                assert(out@.map_values(|w: &[u8]| w@) =~= all);
            }
            return (out, false);
        }
        if out.len() == 3 {
            proof {
                lemma_word_end(s@, a as int);
                assert(words_from(s@, i as int).len() > 0);
            }
            return (out, true);
        }
        let mut e: usize = a;
        while e < s.len() && !(s[e] == 32u8 || (9u8 <= s[e] && s[e] <= 13u8))
            invariant
                a <= e <= s.len(),
                word_end(s@, a as int) == word_end(s@, e as int),
            decreases s.len() - e,
        {
            e += 1;
        }
        proof {
            lemma_word_end(s@, a as int);
        }
        let ghost before = out@.map_values(|w: &[u8]| w@);
        let w = vstd::slice::slice_subrange(s, a, e);
        out.push(w);
        proof {
            assert(out@.map_values(|w: &[u8]| w@) =~= before + seq![s@.subrange(a as int, e as int)]);
            assert(words_from(s@, i as int) == seq![s@.subrange(a as int, e as int)] + words_from(s@, e as int));
            assert(before + words_from(s@, i as int) =~= (before + seq![s@.subrange(a as int, e as int)]) + words_from(s@, e as int));
        }
        i = e;
    }
}

/// What a `mount` command line asks for.
#[derive(Debug, Clone, Copy, PartialEq, Eq)]
pub enum MountCommand<'a> {
    /// List the mounts.
    List,
    /// Unmount the target.
    Unmount(&'a [u8]),
    /// Mount the source at the target.
    Mount(&'a [u8], &'a [u8]),
    /// `-u` without a target.
    MissingUnmountTarget,
    /// `-u` with more than one target.
    UnmountUsage,
    /// More than two arguments.
    MountUsage,
    /// A source without a target.
    MissingTarget,
}

/// The request of the `mount` arguments `args`.
pub open spec fn mount_command_spec(args: Seq<u8>) -> Option<(int, Seq<u8>, Seq<u8>)> {
    let w = words_from(args, 0);
    if w.len() == 0 {
        Some((0, Seq::empty(), Seq::empty()))
    } else if w[0] == seq![45u8, 117u8] {
        if w.len() < 2 {
            Some((3, Seq::empty(), Seq::empty()))
        } else if w.len() > 2 {
            Some((4, Seq::empty(), Seq::empty()))
        } else {
            Some((1, w[1], Seq::empty()))
        }
    } else if w.len() > 2 {
        Some((5, Seq::empty(), Seq::empty()))
    } else if w.len() < 2 {
        Some((6, Seq::empty(), Seq::empty()))
    } else {
        Some((2, w[0], w[1]))
    }
}

/// The number and fields that stand for a [`MountCommand`] in
/// [`mount_command_spec`].
pub open spec fn mount_command_view(c: MountCommand) -> Option<(int, Seq<u8>, Seq<u8>)> {
    match c {
        MountCommand::List => Some((0, Seq::empty(), Seq::empty())),
        MountCommand::Unmount(t) => Some((1, t@, Seq::empty())),
        MountCommand::Mount(a, b) => Some((2, a@, b@)),
        MountCommand::MissingUnmountTarget => Some((3, Seq::empty(), Seq::empty())),
        MountCommand::UnmountUsage => Some((4, Seq::empty(), Seq::empty())),
        MountCommand::MountUsage => Some((5, Seq::empty(), Seq::empty())),
        MountCommand::MissingTarget => Some((6, Seq::empty(), Seq::empty())),
    }
}

/// Read the arguments of `mount`.
pub fn parse_mount_args(args: &[u8]) -> (r: MountCommand)
    ensures
        mount_command_view(r) == mount_command_spec(args@),
{
    let (parts, more) = first_words(args);
    let ghost w = words_from(args@, 0);
    proof {
        let m = parts@.map_values(|x: &[u8]| x@);
        assert(m.len() == parts@.len());
        assert(parts.len() == if w.len() < 3 { w.len() as int } else { 3 });
        if w.len() >= 1 {
            assert(parts@.map_values(|x: &[u8]| x@)[0] == w[0]);
        }
        if w.len() >= 2 {
            assert(parts@.map_values(|x: &[u8]| x@)[1] == w[1]);
        }
    }
    let n = parts.len();
    if n == 0 {
        return MountCommand::List;
    }
    let dash_u: [u8; 2] = [45u8, 117u8];
    proof {
        assert(dash_u@ =~= seq![45u8, 117u8]);
    }
    if bytes_eq(parts[0], dash_u.as_slice()) {
        if n < 2 {
            MountCommand::MissingUnmountTarget
        } else if n > 2 || more {
            MountCommand::UnmountUsage
        } else {
            MountCommand::Unmount(parts[1])
        }
    } else if n > 2 || more {
        MountCommand::MountUsage
    } else if n < 2 {
        MountCommand::MissingTarget
    } else {
        MountCommand::Mount(parts[0], parts[1])
    }
}

/// What completing a file name gives: nothing matched, the one match
/// completes the line, or several matches to show.
pub enum PathCompletion {
    NoMatch,
    Single(Vec<u8>),
    Several(Vec<DirEntry>),
}

/// The entries whose name, read as text, begins with `name_prefix`, in
/// order.
pub open spec fn completion_hits(entries: Seq<(Seq<u8>, FileType)>, name_prefix: Seq<u8>) -> Seq<(Seq<u8>, FileType)>
    decreases entries.len(),
{
    if entries.len() == 0 {
        Seq::empty()
    } else {
        completion_hits(entries.drop_last(), name_prefix) + if has_prefix(utf8_text(entries.last().0), name_prefix) {
            seq![entries.last()]
        } else {
            Seq::empty()
        }
    }
}

/// The line after completing to entry `e`: the line up to `start +
/// replace`, the entry's name (at most 63 bytes), a slash for a directory,
/// kept to [`INPUT_CAP`] bytes.
pub open spec fn completed_line(line: Seq<u8>, start: int, replace: int, e: (Seq<u8>, FileType)) -> Seq<u8> {
    let name = utf8_text(e.0);
    let kept = if name.len() < 64 { name } else { name.subrange(0, 63) };
    let all = line.subrange(0, start + replace) + kept + if e.1 == FileType::Directory {
        seq![47u8]
    } else {
        Seq::empty()
    };
    if all.len() <= INPUT_CAP { all } else { all.subrange(0, INPUT_CAP as int) }
}

/// Complete the file name that starts at `start` in `line`, whose last
/// component begins `replace` bytes further and reads `name_prefix`,
/// against the entries of its directory.
pub fn complete_path(line: &[u8], start: usize, replace: usize, name_prefix: &[u8], entries: &[DirEntry]) -> (r: PathCompletion)
    requires
        start + replace <= line.len(),
    ensures
        ({
            let hits = completion_hits(dir_entry_views(entries@), name_prefix@);
            match r {
                PathCompletion::NoMatch => hits.len() == 0,
                PathCompletion::Single(v) => hits.len() == 1 && v@ == completed_line(line@, start as int, replace as int, hits[0]),
                PathCompletion::Several(es) => hits.len() > 1 && dir_entry_views(es@) == hits,
            }
        }),
{
    let ghost all = dir_entry_views(entries@);
    let mut hits: Vec<DirEntry> = Vec::new();
    let mut i: usize = 0;
    proof {
        assert(all.subrange(0, 0) =~= Seq::<(Seq<u8>, FileType)>::empty());
        assert(dir_entry_views(hits@) =~= Seq::<(Seq<u8>, FileType)>::empty());
    }
    while i < entries.len()
        invariant
            i <= entries.len(),
            all == dir_entry_views(entries@),
            dir_entry_views(hits@) == completion_hits(all.subrange(0, i as int), name_prefix@),
        decreases entries.len() - i,
    {
        let e = &entries[i];
        let text = utf8_or_empty(e.name.as_slice());
        let ghost before = hits@;
        proof {
            assert(all.subrange(0, i + 1).drop_last() =~= all.subrange(0, i as int));
            assert(all.subrange(0, i + 1).last() == (e.name@, e.file_type));
        }
        if starts_with(text.as_bytes(), name_prefix) {
            let copy = DirEntry { name: copy_prefix(e.name.as_slice(), e.name.len()), file_type: e.file_type };
            proof {
                assert(copy.name@ =~= e.name@);
            }
            hits.push(copy);
            proof {
                assert(dir_entry_views(hits@) =~= dir_entry_views(before).push((e.name@, e.file_type)));
            }
        } else {
            proof {
                assert(dir_entry_views(hits@) =~= dir_entry_views(before));
            }
        }
        i += 1;
    }
    proof {
        assert(all.subrange(0, all.len() as int) =~= all);
    }
    if hits.len() == 0 {
        return PathCompletion::NoMatch;
    }
    if hits.len() > 1 {
        return PathCompletion::Several(hits);
    }
    let hit = &hits[0];
    proof {
        assert(dir_entry_views(hits@)[0] == (hit.name@, hit.file_type));
    }
    let name = utf8_or_empty(hit.name.as_slice()).as_bytes();
    let kept = copy_prefix(name, 63);
    let mut out = copy_prefix(line, start + replace);
    let ghost head = out@;
    let mut k: usize = 0;
    while k < kept.len()
        invariant
            k <= kept.len(),
            out@ == head + kept@.subrange(0, k as int),
        decreases kept.len() - k,
    {
        out.push(kept[k]);
        k += 1;
        proof {
            assert(out@ =~= head + kept@.subrange(0, k as int));
        }
    }
    if hit.file_type == FileType::Directory {
        out.push(47u8);
    }
    proof {
        assert(kept@.subrange(0, kept@.len() as int) =~= kept@);
        assert(head =~= line@.subrange(0, start + replace));
        let name_t = utf8_text(hit.name@);
        assert(kept@ =~= if name_t.len() < 64 { name_t } else { name_t.subrange(0, 63) });
        assert(out@ =~= line@.subrange(0, start + replace) + kept@ + if hit.file_type == FileType::Directory {
            seq![47u8]
        } else {
            Seq::<u8>::empty()
        });
    }
    let res = copy_prefix(out.as_slice(), INPUT_CAP);
    PathCompletion::Single(res)
}

} // verus!
