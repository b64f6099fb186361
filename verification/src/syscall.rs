//! The system call interface: numbers, error codes, argument checks and
//! the dispatch of each call.

use vstd::prelude::*;
use crate::driver::{DriverErr, DriverResult};

verus! {

pub type SysResult = isize;

pub const NR_WRITE: usize = 1;
pub const NR_READ: usize = 2;
pub const NR_EXIT: usize = 3;
pub const NR_YIELD: usize = 4;

pub const EPERM: isize = 1;
pub const ENOENT: isize = 2;
pub const EIO: isize = 5;
pub const EBADF: isize = 9;
pub const EAGAIN: isize = 11;
pub const ENOMEM: isize = 12;
pub const EFAULT: isize = 14;
pub const EINVAL: isize = 22;
pub const ENOSYS: isize = 38;
pub const ENOTSUP: isize = 95;

pub const STDIN_FILENO: usize = 0;
pub const STDOUT_FILENO: usize = 1;
pub const STDERR_FILENO: usize = 2;

/// A call: its number and six arguments.
#[derive(Debug, Clone, Copy)]
pub struct SyscallArgs {
    pub nr: usize,
    pub args: [usize; 6],
}

impl SyscallArgs {
    pub fn new(nr: usize, args: [usize; 6]) -> (r: Self)
        ensures
            r.nr == nr,
            r.args == args,
    {
        SyscallArgs { nr, args }
    }
}

/// A call's value, and whether the scheduler must run after it.
#[derive(Debug, Clone, Copy, PartialEq, Eq, Structural)]
pub struct SyscallReturn {
    pub value: SysResult,
    pub schedule: bool,
}

impl SyscallReturn {
    pub fn new(value: SysResult) -> (r: Self)
        ensures
            r == (SyscallReturn { value, schedule: false }),
    {
        SyscallReturn { value, schedule: false }
    }

    pub fn schedule(value: SysResult) -> (r: Self)
        ensures
            r == (SyscallReturn { value, schedule: true }),
    {
        SyscallReturn { value, schedule: true }
    }
}

/// The return value of a failure with `errno`.
pub fn err(errno: isize) -> (r: SysResult)
    requires
        errno > isize::MIN,
    ensures
        r == -errno,
{
    -errno
}

/// The errno of a driver error.
pub open spec fn driver_errno(e: DriverErr) -> isize {
    match e {
        DriverErr::Timeout | DriverErr::Busy => EAGAIN,
        DriverErr::InvalidConfig => EINVAL,
        DriverErr::HardwareFault | DriverErr::InitFailed | DriverErr::Custom => EIO,
        DriverErr::NotSupported => ENOTSUP,
        DriverErr::RegistryFull => ENOMEM,
        DriverErr::NotFound => ENOENT,
    }
}

/// The return value of a driver error.
pub fn driver_err(e: DriverErr) -> (r: SysResult)
    ensures
        r == -driver_errno(e),
{
    match e {
        DriverErr::Timeout | DriverErr::Busy => err(EAGAIN),
        DriverErr::InvalidConfig => err(EINVAL),
        DriverErr::HardwareFault | DriverErr::InitFailed | DriverErr::Custom => err(EIO),
        DriverErr::NotSupported => err(ENOTSUP),
        DriverErr::RegistryFull => err(ENOMEM),
        DriverErr::NotFound => err(ENOENT),
    }
}

/// A user buffer of `len` bytes at `ptr` may be used: an empty one
/// always, else a non-null one that does not wrap around.
pub open spec fn user_range_ok(ptr: usize, len: usize) -> bool {
    len == 0 || (ptr != 0 && ptr + len <= usize::MAX)
}

pub fn user_slice_ok(ptr: usize, len: usize) -> (r: bool)
    ensures
        r == user_range_ok(ptr, len),
{
    if len == 0 {
        return true;
    }
    ptr != 0 && ptr.checked_add(len).is_some()
}

/// A request that a call made of its host, with the answer.
pub enum HostCall {
    TerminalWrite(usize, usize, Option<DriverResult<usize>>),
    ConsoleWrite(usize, usize, bool),
    ReadByte(Option<u8>),
    StoreByte(usize, u8),
    Terminate,
    Schedule,
}

/// What the calls reach outside the kernel core: user memory, the
/// terminal and console, the receive ring and the scheduler.
pub trait SyscallHost {
    /// The requests made so far, with their answers, for a host that keeps
    /// such a record; `None` for one that does not.
    open spec fn spec_calls(&self) -> Option<Seq<HostCall>> {
        None
    }

    /// Write the user buffer to the first terminal device: `None` when
    /// there is none, else what the device returned.
    fn terminal_write(&mut self, ptr: usize, len: usize) -> (r: Option<DriverResult<usize>>)
        ensures
            old(self).spec_calls() matches Some(l) ==> final(self).spec_calls() == Some(l.push(HostCall::TerminalWrite(ptr, len, r))),
            old(self).spec_calls() is None ==> final(self).spec_calls() is None,
    ;

    /// Write the user buffer to the log console; whether there is one.
    fn console_write(&mut self, ptr: usize, len: usize) -> (r: bool)
        ensures
            old(self).spec_calls() matches Some(l) ==> final(self).spec_calls() == Some(l.push(HostCall::ConsoleWrite(ptr, len, r))),
            old(self).spec_calls() is None ==> final(self).spec_calls() is None,
    ;

    /// The next received byte, if any.
    fn read_byte(&mut self) -> (r: Option<u8>)
        ensures
            old(self).spec_calls() matches Some(l) ==> final(self).spec_calls() == Some(l.push(HostCall::ReadByte(r))),
            old(self).spec_calls() is None ==> final(self).spec_calls() is None,
    ;

    /// Store a byte into user memory.
    fn store_byte(&mut self, addr: usize, byte: u8)
        ensures
            old(self).spec_calls() matches Some(l) ==> final(self).spec_calls() == Some(l.push(HostCall::StoreByte(addr, byte))),
            old(self).spec_calls() is None ==> final(self).spec_calls() is None,
    ;

    /// End the current task.
    fn terminate_current(&mut self)
        ensures
            old(self).spec_calls() matches Some(l) ==> final(self).spec_calls() == Some(l.push(HostCall::Terminate)),
            old(self).spec_calls() is None ==> final(self).spec_calls() is None,
    ;

    /// Run the scheduler.
    fn schedule(&mut self)
        ensures
            old(self).spec_calls() matches Some(l) ==> final(self).spec_calls() == Some(l.push(HostCall::Schedule)),
            old(self).spec_calls() is None ==> final(self).spec_calls() is None,
    ;
}

/// The requests of a `write` of `len` bytes at `ptr` that passed its
/// checks, and its value: the terminal is asked first; with no terminal
/// the console is asked.
pub open spec fn write_exchange(tail: Seq<HostCall>, ptr: usize, len: usize) -> Option<SysResult> {
    if tail.len() == 1 {
        match tail[0] {
            HostCall::TerminalWrite(p, n, Some(res)) => if p == ptr && n == len { Some(terminal_value(res)) } else { None },
            _ => None,
        }
    } else if tail.len() == 2 {
        match (tail[0], tail[1]) {
            (HostCall::TerminalWrite(p, n, None), HostCall::ConsoleWrite(p2, n2, w)) => if p == ptr && n == len && p2 == ptr
                && n2 == len {
                Some(if w { if len <= isize::MAX { len as isize } else { isize::MAX } } else { (-EIO) as isize })
            } else {
                None
            },
            _ => None,
        }
    } else {
        None
    }
}

/// The requests of a `read` of up to `len` bytes into `ptr` that passed
/// its checks: `k` received bytes, each stored at the next address, then a
/// poll that found nothing unless the buffer is full.
pub open spec fn read_exchange(tail: Seq<HostCall>, ptr: usize, len: usize, k: int) -> bool {
    &&& 0 <= k <= len
    &&& tail.len() == 2 * k || (tail.len() == 2 * k + 1 && k < len && tail[2 * k] == HostCall::ReadByte(None))
    &&& tail.len() == 2 * k ==> k == len
    &&& forall|i: int| 0 <= i < k ==> read_pair(#[trigger] tail[2 * i], tail[2 * i + 1], (ptr + i) as usize)
}

/// The value of a `read` of up to `len` bytes whose requests were `tail`:
/// how many bytes it stored (at most `isize::MAX`), "try again" when none
/// came, 0 for an empty buffer.
pub open spec fn read_value(tail: Seq<HostCall>, len: usize) -> int {
    let k = (tail.len() / 2) as int;
    if k == 0 {
        if len == 0 { 0 } else { -EAGAIN }
    } else if k > isize::MAX {
        isize::MAX as int
    } else {
        k
    }
}

/// A byte was received and then stored at `addr`.
pub open spec fn read_pair(a: HostCall, b: HostCall, addr: usize) -> bool {
    match a {
        HostCall::ReadByte(Some(x)) => b == HostCall::StoreByte(addr, x),
        _ => false,
    }
}

/// `len` as a call's value (which cannot be negative).
fn count_value(len: usize) -> (r: SysResult)
    ensures
        len <= isize::MAX ==> r == len,
        len > isize::MAX ==> r == isize::MAX,
{
    if len > isize::MAX as usize { isize::MAX } else { len as isize }
}

/// The value of a `write` that the terminal device answered with `res`.
pub open spec fn terminal_value(res: DriverResult<usize>) -> SysResult {
    match res {
        Ok(n) => if n <= isize::MAX { n as isize } else { isize::MAX },
        Err(e) => (-driver_errno(e)) as isize,
    }
}

/// The value of a `write` of `len` bytes that the terminal device answered
/// with `res`.
pub fn terminal_write_value(res: DriverResult<usize>) -> (r: SysResult)
    ensures
        r == terminal_value(res),
{
    match res {
        Ok(n) => count_value(n),
        Err(e) => driver_err(e),
    }
}

/// The value of a `write` of `len` bytes with no terminal: the length when
/// the console took it, else an I/O error.
pub fn console_write_value(written: bool, len: usize) -> (r: SysResult)
    ensures
        written ==> r == (if len <= isize::MAX { len as isize } else { isize::MAX }),
        !written ==> r == -EIO,
{
    if written {
        count_value(len)
    } else {
        err(EIO)
    }
}

/// `write(fd, buf, len)`: to the terminal if there is one, else the
/// console, else an I/O error.
fn sys_write<H: SyscallHost>(host: &mut H, fd: usize, ptr: usize, len: usize) -> (r: SysResult)
    ensures
        !user_range_ok(ptr, len) ==> r == -EFAULT,
        user_range_ok(ptr, len) && fd != STDOUT_FILENO && fd != STDERR_FILENO ==> r == -EBADF,
        old(host).spec_calls() is None ==> final(host).spec_calls() is None,
        old(host).spec_calls() matches Some(l0) ==> ({
            let l = final(host).spec_calls().unwrap();
            &&& final(host).spec_calls() is Some
            &&& l.len() >= l0.len()
            &&& l.subrange(0, l0.len() as int) == l0
            &&& !(user_range_ok(ptr, len) && (fd == STDOUT_FILENO || fd == STDERR_FILENO)) ==> l == l0
            &&& user_range_ok(ptr, len) && (fd == STDOUT_FILENO || fd == STDERR_FILENO) ==> write_exchange(
                l.subrange(l0.len() as int, l.len() as int),
                ptr,
                len,
            ) == Some(r)
        }),
{
    let ghost l0 = host.spec_calls();
    if !user_slice_ok(ptr, len) {
        return err(EFAULT);
    }
    if fd != STDOUT_FILENO && fd != STDERR_FILENO {
        return err(EBADF);
    }
    let t = host.terminal_write(ptr, len);
    proof {
        if l0 is Some {
            let l = host.spec_calls().unwrap();
            assert(l.subrange(0, l0.unwrap().len() as int) =~= l0.unwrap());
            assert(l.subrange(l0.unwrap().len() as int, l.len() as int) =~= seq![HostCall::TerminalWrite(ptr, len, t)]);
        }
    }
    match t {
        Some(res) => terminal_write_value(res),
        None => {
            let w = host.console_write(ptr, len);
            proof {
                if l0 is Some {
                    let l = host.spec_calls().unwrap();
                    assert(l.subrange(0, l0.unwrap().len() as int) =~= l0.unwrap());
                    assert(l.subrange(l0.unwrap().len() as int, l.len() as int) =~= seq![
                        HostCall::TerminalWrite(ptr, len, t),
                        HostCall::ConsoleWrite(ptr, len, w),
                    ]);
                }
            }
            console_write_value(w, len)
        },
    }
}

/// `read(fd, buf, len)`: the received bytes that are there at once, at
/// least one (else "try again").
fn sys_read<H: SyscallHost>(host: &mut H, fd: usize, ptr: usize, len: usize) -> (r: SysResult)
    ensures
        !user_range_ok(ptr, len) ==> r == -EFAULT,
        user_range_ok(ptr, len) && fd != STDIN_FILENO ==> r == -EBADF,
        user_range_ok(ptr, len) && fd == STDIN_FILENO && len == 0 ==> r == 0,
        user_range_ok(ptr, len) && fd == STDIN_FILENO && len > 0 ==> r == -EAGAIN || 1 <= r <= len,
        old(host).spec_calls() is None ==> final(host).spec_calls() is None,
        old(host).spec_calls() matches Some(l0) ==> ({
            let l = final(host).spec_calls().unwrap();
            let tail = l.subrange(l0.len() as int, l.len() as int);
            &&& final(host).spec_calls() is Some
            &&& l.len() >= l0.len()
            &&& l.subrange(0, l0.len() as int) == l0
            &&& !(user_range_ok(ptr, len) && fd == STDIN_FILENO) ==> l == l0
            &&& user_range_ok(ptr, len) && fd == STDIN_FILENO ==> read_exchange(tail, ptr, len, (tail.len() / 2) as int)
                && r as int == read_value(tail, len)
        }),
{
    let ghost l0 = host.spec_calls();
    if !user_slice_ok(ptr, len) {
        return err(EFAULT);
    }
    if fd != STDIN_FILENO {
        return err(EBADF);
    }
    if len == 0 {
        return 0;
    }
    let mut count: usize = 0;
    let mut stopped = false;
    proof {
        if l0 is Some {
            assert(host.spec_calls().unwrap().subrange(0, l0.unwrap().len() as int) =~= l0.unwrap());
        }
    }
    while count < len && !stopped
        invariant
            count <= len,
            stopped ==> count < len,
            ptr + len <= usize::MAX,
            l0 == old(host).spec_calls(),
            l0 is None ==> host.spec_calls() is None,
            l0 matches Some(z) ==> ({
                let l = host.spec_calls().unwrap();
                let tail = l.subrange(z.len() as int, l.len() as int);
                &&& host.spec_calls() is Some
                &&& l.len() == z.len() + 2 * count + (if stopped { 1int } else { 0int })
                &&& l.subrange(0, z.len() as int) == z
                &&& stopped ==> tail[2 * count] == HostCall::ReadByte(None)
                &&& forall|i: int| 0 <= i < count ==> read_pair(#[trigger] tail[2 * i], tail[2 * i + 1], (ptr + i) as usize)
            }),
        decreases len - count + (if stopped { 0int } else { 1int }),
    {
        let ghost before = host.spec_calls();
        match host.read_byte() {
            Some(b) => {
                host.store_byte(ptr + count, b);
                proof {
                    if l0 is Some {
                        let z = l0.unwrap();
                        let bl = before.unwrap();
                        let l = host.spec_calls().unwrap();
                        assert(l == bl.push(HostCall::ReadByte(Some(b))).push(HostCall::StoreByte((ptr + count) as usize, b)));
                        assert(l.subrange(0, z.len() as int) =~= bl.subrange(0, z.len() as int));
                        let tb = bl.subrange(z.len() as int, bl.len() as int);
                        let tail = l.subrange(z.len() as int, l.len() as int);
                        assert forall|i: int| 0 <= i < count + 1 implies read_pair(#[trigger] tail[2 * i], tail[2 * i + 1], (ptr + i) as usize) by {
                            if i < count {
                                assert(tail[2 * i] == tb[2 * i]);
                                assert(tail[2 * i + 1] == tb[2 * i + 1]);
                            } else {
                                assert(tail[2 * i] == HostCall::ReadByte(Some(b)));
                            }
                        }
                    }
                }
                count += 1;
            },
            None => {
                proof {
                    if l0 is Some {
                        let z = l0.unwrap();
                        let bl = before.unwrap();
                        let l = host.spec_calls().unwrap();
                        assert(l.subrange(0, z.len() as int) =~= bl.subrange(0, z.len() as int));
                        let tb = bl.subrange(z.len() as int, bl.len() as int);
                        let tail = l.subrange(z.len() as int, l.len() as int);
                        assert forall|i: int| 0 <= i < count implies read_pair(#[trigger] tail[2 * i], tail[2 * i + 1], (ptr + i) as usize) by {
                            assert(tail[2 * i] == tb[2 * i]);
                            assert(tail[2 * i + 1] == tb[2 * i + 1]);
                        }
                        assert(tail[2 * count] == HostCall::ReadByte(None));
                    }
                }
                stopped = true;
            },
        }
    }
    proof {
        if l0 is Some {
            let z = l0.unwrap();
            let l = host.spec_calls().unwrap();
            let tail = l.subrange(z.len() as int, l.len() as int);
            assert(tail.len() / 2 == count);
            assert(read_exchange(tail, ptr, len, count as int));
        }
    }
    if count == 0 {
        err(EAGAIN)
    } else {
        count_value(count)
    }
}

/// Carry out a call.
pub fn dispatch<H: SyscallHost>(host: &mut H, call: SyscallArgs) -> (r: SyscallReturn)
    ensures
        call.nr == NR_EXIT || call.nr == NR_YIELD ==> r == (SyscallReturn { value: 0, schedule: true }),
        call.nr != NR_WRITE && call.nr != NR_READ && call.nr != NR_EXIT && call.nr != NR_YIELD ==> r
            == (SyscallReturn { value: (-ENOSYS) as isize, schedule: false }),
        call.nr == NR_WRITE ==> {
            &&& !r.schedule
            &&& !user_range_ok(call.args[1], call.args[2]) ==> r.value == -EFAULT
            &&& user_range_ok(call.args[1], call.args[2]) && call.args[0] != STDOUT_FILENO
                && call.args[0] != STDERR_FILENO ==> r.value == -EBADF
        },
        old(host).spec_calls() is None ==> final(host).spec_calls() is None,
        old(host).spec_calls() matches Some(l0) ==> ({
            let l = final(host).spec_calls().unwrap();
            let tail = l.subrange(l0.len() as int, l.len() as int);
            let a = call.args;
            &&& final(host).spec_calls() is Some
            &&& l.len() >= l0.len()
            &&& l.subrange(0, l0.len() as int) == l0
            &&& call.nr == NR_EXIT ==> tail == seq![HostCall::Terminate]
            &&& call.nr == NR_YIELD ==> tail == seq![HostCall::Schedule]
            &&& call.nr != NR_WRITE && call.nr != NR_READ && call.nr != NR_EXIT && call.nr != NR_YIELD ==> tail.len() == 0
            &&& call.nr == NR_WRITE ==> if user_range_ok(a[1], a[2]) && (a[0] == STDOUT_FILENO || a[0] == STDERR_FILENO) {
                write_exchange(tail, a[1], a[2]) == Some(r.value)
            } else {
                tail.len() == 0
            }
            &&& call.nr == NR_READ ==> if user_range_ok(a[1], a[2]) && a[0] == STDIN_FILENO {
                &&& read_exchange(tail, a[1], a[2], (tail.len() / 2) as int)
                &&& r.value as int == read_value(tail, a[2])
            } else {
                tail.len() == 0
            }
        }),
        call.nr == NR_READ ==> {
            &&& !r.schedule
            &&& !user_range_ok(call.args[1], call.args[2]) ==> r.value == -EFAULT
            &&& user_range_ok(call.args[1], call.args[2]) && call.args[0] != STDIN_FILENO ==> r.value == -EBADF
            &&& user_range_ok(call.args[1], call.args[2]) && call.args[0] == STDIN_FILENO && call.args[2] == 0
                ==> r.value == 0
            &&& user_range_ok(call.args[1], call.args[2]) && call.args[0] == STDIN_FILENO && call.args[2] > 0
                ==> r.value == -EAGAIN || 1 <= r.value <= call.args[2]
        },
{
    let a = call.args;
    let ghost l0 = host.spec_calls();
    proof {
        if l0 is Some {
            assert(host.spec_calls().unwrap().subrange(0, l0.unwrap().len() as int) =~= l0.unwrap());
            assert(l0.unwrap().subrange(l0.unwrap().len() as int, l0.unwrap().len() as int) =~= Seq::<HostCall>::empty());
        }
    }
    if call.nr == NR_WRITE {
        SyscallReturn::new(sys_write(host, a[0], a[1], a[2]))
    } else if call.nr == NR_READ {
        SyscallReturn::new(sys_read(host, a[0], a[1], a[2]))
    } else if call.nr == NR_EXIT {
        host.terminate_current();
        proof {
            if l0 is Some {
                let l = host.spec_calls().unwrap();
                assert(l.subrange(0, l0.unwrap().len() as int) =~= l0.unwrap());
                assert(l.subrange(l0.unwrap().len() as int, l.len() as int) =~= seq![HostCall::Terminate]);
            }
        }
        SyscallReturn::schedule(0)
    } else if call.nr == NR_YIELD {
        host.schedule();
        proof {
            if l0 is Some {
                let l = host.spec_calls().unwrap();
                assert(l.subrange(0, l0.unwrap().len() as int) =~= l0.unwrap());
                assert(l.subrange(l0.unwrap().len() as int, l.len() as int) =~= seq![HostCall::Schedule]);
            }
        }
        SyscallReturn::schedule(0)
    } else {
        SyscallReturn::new(err(ENOSYS))
    }
}

} // verus!
