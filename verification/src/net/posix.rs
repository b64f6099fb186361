//! The POSIX-style socket interface that network stacks implement, and
//! the descriptor table that maps descriptors to a stack's handles.

use vstd::prelude::*;
use crate::slots::{find_none, first_none, lemma_first_none, put_first_free};

verus! {

#[derive(Debug, Clone, Copy, PartialEq, Eq, Structural)]
pub enum PosixError {
    EACCES,
    EAFNOSUPPORT,
    EINVAL,
    ENOMEM,
    EAGAIN,
    EWOULDBLOCK,
    ENOTCONN,
    ECONNREFUSED,
    EADDRINUSE,
    ENOBUFS,
    EBADF,
}

#[derive(Debug, Clone, Copy, PartialEq, Eq, Structural)]
pub enum AddressFamily {
    Inet,
    Inet6,
}

#[derive(Debug, Clone, Copy, PartialEq, Eq, Structural)]
pub enum SocketType {
    Stream,
    Dgram,
    Raw,
}

#[derive(Debug, Clone, Copy, PartialEq, Eq, Structural)]
pub enum Protocol {
    Tcp,
    Udp,
    Icmp,
    Any,
}

/// An IPv4 address.
#[derive(Debug, Clone, Copy)]
pub struct Ipv4Addr(pub [u8; 4]);

/// The decimal digits of `n`.
pub open spec fn dec_digits(n: nat) -> Seq<u8>
    decreases n,
{
    if n < 10 {
        seq![(48 + n) as u8]
    } else {
        dec_digits(n / 10).push((48 + n % 10) as u8)
    }
}

/// The decimal digits of `n`.
pub fn dec_digits_exec(n: u32) -> (r: Vec<u8>)
    ensures
        r@ == dec_digits(n as nat),
    decreases n,
{
    if n < 10 {
        let mut v: Vec<u8> = Vec::new();
        v.push(48u8 + n as u8);
        v
    } else {
        let mut v = dec_digits_exec(n / 10);
        v.push(48u8 + (n % 10) as u8);
        v
    }
}

impl Ipv4Addr {
    /// The dotted-decimal text of the address.
    pub fn to_text(&self) -> (r: Vec<u8>)
        ensures
            r@ == dec_digits(self.0[0] as nat) + seq![46u8] + dec_digits(self.0[1] as nat) + seq![46u8]
                + dec_digits(self.0[2] as nat) + seq![46u8] + dec_digits(self.0[3] as nat),
    {
        let mut out = dec_digits_exec(self.0[0] as u32);
        out.push(46u8);
        let mut b = dec_digits_exec(self.0[1] as u32);
        out.append(&mut b);
        out.push(46u8);
        let mut c = dec_digits_exec(self.0[2] as u32);
        out.append(&mut c);
        out.push(46u8);
        let mut d = dec_digits_exec(self.0[3] as u32);
        out.append(&mut d);
        out
    }
}

/// A socket address: IPv4 address and port.
#[derive(Debug, Clone, Copy)]
pub struct SocketAddrV4 {
    pub ip: Ipv4Addr,
    pub port: u16,
}

/// A network stack's socket calls.
pub trait SocketProvider {
    fn socket(&self, domain: AddressFamily, ty: SocketType, proto: Protocol) -> Result<usize, PosixError>;

    fn bind(&self, fd: usize, addr: SocketAddrV4) -> Result<(), PosixError>;

    fn connect(&self, fd: usize, addr: SocketAddrV4) -> Result<(), PosixError>;

    fn listen(&self, fd: usize, backlog: usize) -> Result<(), PosixError>;

    fn accept(&self, fd: usize) -> Result<(usize, SocketAddrV4), PosixError>;

    fn send(&self, fd: usize, buf: &[u8]) -> Result<usize, PosixError>;

    fn recv(&self, fd: usize, buf: &mut [u8]) -> Result<usize, PosixError>;

    fn send_to(&self, fd: usize, buf: &[u8], addr: SocketAddrV4) -> Result<usize, PosixError>;

    fn recv_from(&self, fd: usize, buf: &mut [u8]) -> Result<(usize, SocketAddrV4), PosixError>;

    fn close(&self, fd: usize) -> Result<(), PosixError>;
}

/// Whether a UDP stack serves a request for a socket of this domain, type
/// and protocol: IPv4 datagrams, UDP or any protocol.
pub fn udp_socket_supported(domain: AddressFamily, ty: SocketType, proto: Protocol) -> (r: Result<(), PosixError>)
    ensures
        r is Ok <==> (domain == AddressFamily::Inet && ty == SocketType::Dgram && (proto == Protocol::Udp
            || proto == Protocol::Any)),
        r is Err ==> r->Err_0 == PosixError::EAFNOSUPPORT,
{
    if domain != AddressFamily::Inet {
        return Err(PosixError::EAFNOSUPPORT);
    }
    match (ty, proto) {
        (SocketType::Dgram, Protocol::Udp) | (SocketType::Dgram, Protocol::Any) => Ok(()),
        _ => Err(PosixError::EAFNOSUPPORT),
    }
}

/// Closing the descriptor just handed out gives back the table as it was.
pub proof fn lemma_allocate_then_free_fd<H>(v: Seq<Option<H>>, handle: H)
    requires
        first_none(v, 0) is Some,
    ensures
        put_first_free(v, handle).update(first_none(v, 0).unwrap(), None) == v,
{
    lemma_first_none(v, 0);
    assert(put_first_free(v, handle).update(first_none(v, 0).unwrap(), None) =~= v);
}

pub const SOCKET_FDS: usize = 4;

/// Socket descriptors: each of [`SOCKET_FDS`] slots holds a stack handle or
/// nothing.
pub struct FdTable<H> {
    slots: Vec<Option<H>>,
}

impl<H: Copy> FdTable<H> {
    pub closed spec fn view(self) -> Seq<Option<H>> {
        self.slots@
    }

    pub fn new() -> (r: Self)
        ensures
            r.view().len() == SOCKET_FDS,
            forall|i: int| 0 <= i < SOCKET_FDS ==> (#[trigger] r.view()[i]) is None,
    {
        FdTable { slots: crate::slots::empty_slots(SOCKET_FDS) }
    }

    /// Give `handle` the lowest free descriptor; out of memory when none is
    /// free.
    pub fn allocate_fd(&mut self, handle: H) -> (r: Result<usize, PosixError>)
        ensures
            first_none(old(self).view(), 0) is Some ==> r == Ok::<usize, PosixError>(first_none(old(self).view(), 0).unwrap() as usize)
                && final(self).view() == put_first_free(old(self).view(), handle),
            first_none(old(self).view(), 0) is None ==> r == Err::<usize, PosixError>(PosixError::ENOMEM)
                && final(self).view() == old(self).view(),
    {
        match find_none(&self.slots) {
            Some(i) => {
                self.slots.set(i, Some(handle));
                Ok(i)
            },
            None => Err(PosixError::ENOMEM),
        }
    }

    /// The handle of descriptor `fd`; a bad descriptor when it has none.
    pub fn get_handle(&self, fd: usize) -> (r: Result<H, PosixError>)
        ensures
            fd < self.view().len() && self.view()[fd as int] is Some ==> r == Ok::<H, PosixError>(self.view()[fd as int].unwrap()),
            !(fd < self.view().len() && self.view()[fd as int] is Some) ==> r == Err::<H, PosixError>(PosixError::EBADF),
    {
        if fd < self.slots.len() {
            if let Some(h) = self.slots[fd] {
                return Ok(h);
            }
        }
        Err(PosixError::EBADF)
    }

    /// Free descriptor `fd`.
    pub fn free_fd(&mut self, fd: usize)
        ensures
            fd < old(self).view().len() ==> final(self).view() == old(self).view().update(fd as int, None),
            fd >= old(self).view().len() ==> final(self).view() == old(self).view(),
    {
        if fd < self.slots.len() {
            self.slots.set(fd, None);
        }
    }
}

} // verus!
