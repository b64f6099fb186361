//! Character devices and the receive ring that the UART interrupt fills
//! and the console drains.

use vstd::prelude::*;
use crate::driver::{Driver, DriverResult};

verus! {

/// Byte-oriented character device, such as UART, USB CDC or a virtual
/// console.
pub trait CharDevice: Driver {
    /// Read one byte without blocking.
    fn read_byte(&self) -> DriverResult<u8>;

    /// Write one byte without sleeping.
    fn write_byte(&self, byte: u8) -> DriverResult<()>;

    /// Read the bytes that are available at once, up to `buf.len()`:
    /// always succeeds, with how many were read into the front of `buf`;
    /// the rest of `buf` is left as it was.
    fn read_buffer(&self, buf: &mut [u8]) -> (r: DriverResult<usize>)
        ensures
            r is Ok,
            r->Ok_0 <= old(buf)@.len(),
            final(buf)@.len() == old(buf)@.len(),
            final(buf)@.subrange(r->Ok_0 as int, old(buf)@.len() as int) == old(buf)@.subrange(
                r->Ok_0 as int,
                old(buf)@.len() as int,
            ),
    {
        let mut count: usize = 0;
        while count < buf.len()
            invariant
                count <= buf@.len(),
                buf@.len() == old(buf)@.len(),
                buf@.subrange(count as int, buf@.len() as int) == old(buf)@.subrange(count as int, old(buf)@.len() as int),
            decreases buf.len() - count,
        {
            match self.read_byte() {
                Ok(byte) => {
                    let ghost before = buf@;
                    buf[count] = byte;
                    proof {
                        assert(buf@.subrange(count + 1, buf@.len() as int) =~= before.subrange(count + 1, before.len() as int));
                        assert(before.subrange(count + 1, before.len() as int) =~= before.subrange(count as int, before.len() as int).drop_first());
                        assert(old(buf)@.subrange(count + 1, old(buf)@.len() as int) =~= old(buf)@.subrange(count as int, old(buf)@.len() as int).drop_first());
                    }
                    count += 1;
                },
                Err(_) => break,
            }
        }
        Ok(count)
    }

    /// Write bytes of `buf` while the device takes them: always succeeds,
    /// with how many of the first bytes were written.
    fn write_buffer(&self, buf: &[u8]) -> (r: DriverResult<usize>)
        ensures
            r is Ok,
            r->Ok_0 <= buf@.len(),
    {
        let mut count: usize = 0;
        while count < buf.len()
            invariant
                count <= buf@.len(),
            decreases buf.len() - count,
        {
            if self.write_byte(buf[count]).is_ok() {
                count += 1;
            } else {
                break;
            }
        }
        Ok(count)
    }
}

pub const BUF_SIZE: usize = 128;

/// A ring of received bytes: at most [`BUF_SIZE`]` - 1` of them, taken out
/// in the order they came in.
pub struct RxBuffer {
    data: Vec<u8>,
    head: usize,
    tail: usize,
}

impl RxBuffer {
    pub closed spec fn wf(self) -> bool {
        &&& self.data.len() == BUF_SIZE
        &&& self.head < BUF_SIZE
        &&& self.tail < BUF_SIZE
    }

    /// The bytes held, oldest first.
    pub closed spec fn view(self) -> Seq<u8> {
        let n = ((self.head + BUF_SIZE - self.tail) % (BUF_SIZE as int)) as nat;
        Seq::new(n, |i: int| self.data@[(self.tail + i) % (BUF_SIZE as int)])
    }

    pub fn new() -> (r: Self)
        ensures
            r.wf(),
            r.view().len() == 0,
    {
        RxBuffer { data: vec![0u8; BUF_SIZE], head: 0, tail: 0 }
    }

    /// Store `val` unless the ring is full; whether it was stored.
    pub fn push(&mut self, val: u8) -> (r: bool)
        requires
            old(self).wf(),
        ensures
            final(self).wf(),
            r == (old(self).view().len() < BUF_SIZE - 1),
            r ==> final(self).view() == old(self).view().push(val),
            !r ==> final(self).view() == old(self).view(),
    {
        let next_head = (self.head + 1) % BUF_SIZE;
        if next_head == self.tail {
            return false;
        }
        let ghost before = self.view();
        self.data.set(self.head, val);
        self.head = next_head;
        proof {
            assert(self.view().len() == before.len() + 1);
            assert forall|i: int| 0 <= i < before.len() implies #[trigger] self.view()[i] == before[i] by {
                assert((self.tail + i) % (BUF_SIZE as int) != (self.head + BUF_SIZE - 1) % (BUF_SIZE as int));
            }
            assert(self.view()[before.len() as int] == val);
            assert(self.view() =~= before.push(val));
        }
        true
    }

    /// Take the oldest byte, if any.
    pub fn pop(&mut self) -> (r: Option<u8>)
        requires
            old(self).wf(),
        ensures
            final(self).wf(),
            old(self).view().len() == 0 ==> r is None && final(self).view() == old(self).view(),
            old(self).view().len() > 0 ==> r == Some(old(self).view()[0]) && final(self).view()
                == old(self).view().drop_first(),
    {
        if self.tail == self.head {
            return None;
        }
        let ghost before = self.view();
        let val = self.data[self.tail];
        self.tail = (self.tail + 1) % BUF_SIZE;
        proof {
            assert(before[0] == val);
            assert(self.view() =~= before.drop_first());
        }
        Some(val)
    }
}

/// A source of received bytes that is polled when the ring is empty.
pub trait RxPoll {
    /// The bytes that polls gave so far (`None` for a poll that found
    /// nothing), for a source that keeps such a record; `None` for one
    /// that does not.
    open spec fn spec_polls(&self) -> Option<Seq<Option<u8>>> {
        None
    }

    /// A received byte, if one is waiting; a source that keeps a record
    /// adds the answer to it.
    fn poll(&mut self) -> (r: Option<u8>)
        ensures
            old(self).spec_polls() matches Some(l) ==> final(self).spec_polls() == Some(l.push(r)),
            old(self).spec_polls() is None ==> final(self).spec_polls() is None,
    ;
}

/// The receive side of the console: the ring, and whether a poll source
/// is set.
pub struct RxPort {
    pub buf: RxBuffer,
    pub has_poll: bool,
}

impl RxPort {
    pub fn new() -> (r: Self)
        ensures
            r.buf.wf(),
            r.buf.view().len() == 0,
            !r.has_poll,
    {
        RxPort { buf: RxBuffer::new(), has_poll: false }
    }
}

/// Record that a poll source is set.
pub fn set_rx_poll_fn(port: &mut RxPort)
    ensures
        final(port).has_poll,
        final(port).buf == old(port).buf,
{
    port.has_poll = true;
}

pub fn has_rx_poll_fn(port: &RxPort) -> (r: bool)
    ensures
        r == port.has_poll,
{
    port.has_poll
}

/// Store a received byte; whether it was stored (the ring may be full).
pub fn push_to_rx_buf(port: &mut RxPort, byte: u8) -> (r: bool)
    requires
        old(port).buf.wf(),
    ensures
        final(port).buf.wf(),
        final(port).has_poll == old(port).has_poll,
        r == (old(port).buf.view().len() < BUF_SIZE - 1),
        r ==> final(port).buf.view() == old(port).buf.view().push(byte),
        !r ==> final(port).buf.view() == old(port).buf.view(),
{
    port.buf.push(byte)
}

/// The next received byte: from the ring, else from the poll source (and
/// then the ring again, which the poll may have filled).
pub fn pop_from_rx_buf<P: RxPoll>(port: &mut RxPort, poll: &mut P) -> (r: Option<u8>)
    requires
        old(port).buf.wf(),
    ensures
        final(port).buf.wf(),
        final(port).has_poll == old(port).has_poll,
        old(port).buf.view().len() > 0 ==> r == Some(old(port).buf.view()[0]) && final(port).buf.view()
            == old(port).buf.view().drop_first(),
        old(port).buf.view().len() == 0 && !old(port).has_poll ==> r is None && final(port).buf.view()
            == old(port).buf.view(),
        old(port).buf.view().len() > 0 || !old(port).has_poll ==> final(poll).spec_polls() == old(poll).spec_polls(),
        old(port).buf.view().len() == 0 && old(port).has_poll ==> final(port).buf.view() == old(port).buf.view() && ({
            old(poll).spec_polls() matches Some(l) ==> final(poll).spec_polls() == Some(l.push(r))
        }),
{
    if let Some(byte) = port.buf.pop() {
        return Some(byte);
    }
    if !port.has_poll {
        return None;
    }
    match poll.poll() {
        Some(b) => Some(b),
        None => port.buf.pop(),
    }
}

} // verus!
