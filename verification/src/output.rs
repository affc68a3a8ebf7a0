//! The bounded, flush-on-write output sink.

use vstd::prelude::*;
use vstd::slice::slice_index_get;
use vstd::slice::slice_subrange;
use vstd::string::StringSliceAdditionalSpecFns;
use vstd::utf8::encode_utf8;

use crate::device::IoDevice;
use crate::device::IoDeviceError;
use crate::errors::MenuError;
use crate::lines::nl;

verus! {

/// An `Output` handle is given to command callbacks so that they can
/// write replies.  It accumulates text in a fixed-capacity buffer and
/// flushes the buffer to the menu's `IoDevice` on demand; a write that
/// would not leave one byte of slack in the buffer fails.
pub struct Output<IO: IoDevice> {
    io_device: IO,
    buffer: Vec<u8>,
    buffer_idx: usize,
    sent: Ghost<Seq<Seq<u8>>>,
    reads: Ghost<Seq<(Result<Seq<u8>, IoDeviceError>, Seq<Seq<u8>>)>>,
}

impl<IO: IoDevice> Output<IO> {
    /// The fixed capacity of the output buffer.
    pub closed spec fn capacity(&self) -> nat {
        self.buffer@.len()
    }

    /// How many buffered bytes are waiting to be flushed.
    pub closed spec fn cursor(&self) -> nat {
        self.buffer_idx as nat
    }

    /// The buffered bytes waiting to be flushed.
    pub closed spec fn pending(&self) -> Seq<u8> {
        self.buffer@.take(self.buffer_idx as int)
    }

    /// Every packet delivered to the device so far, in order.
    pub closed spec fn sent(&self) -> Seq<Seq<u8>> {
        self.sent@
    }

    /// Every answer a read request got from the device so far, in
    /// order, each paired with the packets that had been delivered when
    /// it was asked.
    pub closed spec fn reads(&self) -> Seq<(Result<Seq<u8>, IoDeviceError>, Seq<Seq<u8>>)> {
        self.reads@
    }

    /// The transport the sink flushes to.
    pub closed spec fn device(&self) -> IO {
        self.io_device
    }

    /// The cursor stays strictly below the capacity once anything has
    /// been buffered: one byte of slack is always preserved.
    pub closed spec fn wf(&self) -> bool {
        self.buffer_idx == 0 || self.buffer_idx < self.buffer@.len()
    }

    pub(crate) fn new(io_device: IO, buffer: Vec<u8>) -> (r: Output<IO>)
        ensures
            r.wf(),
            r.capacity() == buffer@.len(),
            r.cursor() == 0,
            r.sent() == Seq::<Seq<u8>>::empty(),
            r.reads() == Seq::<(Result<Seq<u8>, IoDeviceError>, Seq<Seq<u8>>)>::empty(),
            r.device() == io_device,
    {
        Output { io_device, buffer, buffer_idx: 0, sent: Ghost(Seq::empty()), reads: Ghost(Seq::empty()) }
    }

    pub(crate) fn into_device(self) -> (r: IO)
        ensures
            r == self.device(),
    {
        self.io_device
    }

    /// Asks the device for a packet, leaving the buffer alone.
    pub(crate) fn read_packet(&mut self, max_len: usize) -> (r: Result<Vec<u8>, IoDeviceError>)
        requires
            old(self).wf(),
        ensures
            final(self).wf(),
            final(self).capacity() == old(self).capacity(),
            final(self).cursor() == old(self).cursor(),
            final(self).pending() == old(self).pending(),
            final(self).sent() == old(self).sent(),
            r matches Ok(data) ==> data@.len() <= max_len,
            final(self).reads() == old(self).reads().push(
                (
                    match r {
                        Ok(data) => Ok(data@),
                        Err(e) => Err(e),
                    },
                    old(self).sent(),
                ),
            ),
    {
        let r = self.io_device.read_packet(max_len);
        match &r {
            Ok(data) => {
                self.reads = Ghost(self.reads@.push((Ok(data@), self.sent@)));
            },
            Err(e) => {
                self.reads = Ghost(self.reads@.push((Err(*e), self.sent@)));
            },
        }
        r
    }

    /// Writes directly to the menu's `IoDevice`, bypassing the buffer.
    pub fn write(&mut self, s: &str) -> (r: Result<(), IoDeviceError>)
        requires
            old(self).wf(),
        ensures
            final(self).wf(),
            final(self).capacity() == old(self).capacity(),
            final(self).cursor() == old(self).cursor(),
            final(self).pending() == old(self).pending(),
            final(self).reads() == old(self).reads(),
            match r {
                Ok(()) => final(self).sent() == old(self).sent().push(s.spec_bytes()),
                Err(_) => final(self).sent() == old(self).sent(),
            },
    {
        let r = self.io_device.write_packet(s.as_bytes());
        match r {
            Ok(()) => {
                self.sent = Ghost(self.sent@.push(s.spec_bytes()));
                Ok(())
            },
            Err(e) => Err(e),
        }
    }

    /// Flushes the buffered bytes to the menu's `IoDevice` as one packet
    /// (also when there are none) and resets the cursor.
    pub fn flush_buffer(&mut self) -> (r: Result<(), IoDeviceError>)
        requires
            old(self).wf(),
        ensures
            final(self).wf(),
            final(self).capacity() == old(self).capacity(),
            final(self).reads() == old(self).reads(),
            match r {
                Ok(()) => final(self).cursor() == 0 && final(self).sent() == old(
                    self,
                ).sent().push(old(self).pending()),
                Err(_) => final(self).cursor() == old(self).cursor() && final(self).pending()
                    == old(self).pending() && final(self).sent() == old(self).sent(),
            },
    {
        let prefix = slice_subrange(self.buffer.as_slice(), 0, self.buffer_idx);
        match self.io_device.write_packet(prefix) {
            Ok(()) => {
                self.sent = Ghost(self.sent@.push(self.buffer@.take(self.buffer_idx as int)));
                self.buffer_idx = 0;
                Ok(())
            },
            Err(e) => Err(e),
        }
    }

    /// Appends the bytes of `s` to the buffer, only when that leaves at
    /// least one byte of the capacity free; otherwise fails without
    /// changing anything.
    pub fn write_str(&mut self, s: &str) -> (r: Result<(), MenuError>)
        requires
            old(self).wf(),
        ensures
            final(self).wf(),
            final(self).capacity() == old(self).capacity(),
            final(self).sent() == old(self).sent(),
            final(self).reads() == old(self).reads(),
            final(self).device() == old(self).device(),
            if old(self).cursor() + s.spec_bytes().len() < old(self).capacity() {
                &&& r == Ok::<(), MenuError>(())
                &&& final(self).cursor() == old(self).cursor() + s.spec_bytes().len()
                &&& final(self).pending() == old(self).pending() + s.spec_bytes()
            } else {
                &&& r == Err::<(), MenuError>(MenuError::OutputBufferOverflow)
                &&& *final(self) == *old(self)
            },
    {
        let bytes = s.as_bytes();
        let start_idx = self.buffer_idx;
        if start_idx >= self.buffer.len() {
            return Err(MenuError::OutputBufferOverflow);
        }
        if bytes.len() >= self.buffer.len() - start_idx {
            return Err(MenuError::OutputBufferOverflow);
        }
        let end_idx = start_idx + bytes.len();
        let mut k: usize = 0;
        while k < bytes.len()
            invariant
                k <= bytes@.len(),
                bytes@ == s.spec_bytes(),
                start_idx + bytes@.len() == end_idx < self.buffer@.len(),
                self.buffer_idx == start_idx,
                self.buffer@.len() == old(self).buffer@.len(),
                self.io_device == old(self).io_device,
                self.sent == old(self).sent,
                self.reads == old(self).reads,
                forall|j: int|
                    0 <= j < self.buffer@.len() && !(start_idx <= j < start_idx + k)
                        ==> self.buffer@[j] == old(self).buffer@[j],
                forall|j: int| 0 <= j < k ==> self.buffer@[start_idx + j] == bytes@[j],
            decreases bytes@.len() - k,
        {
            let b = *slice_index_get(bytes, k);
            self.buffer[start_idx + k] = b;
            k += 1;
        }
        self.buffer_idx = end_idx;
        proof {
            assert(final(self).pending() =~= old(self).pending() + s.spec_bytes());
        }
        Ok(())
    }

    /// Appends one byte to the buffer under the same overflow rule as
    /// `write_str`.
    fn write_byte(&mut self, b: u8) -> (r: Result<(), MenuError>)
        requires
            old(self).wf(),
        ensures
            final(self).wf(),
            final(self).capacity() == old(self).capacity(),
            final(self).sent() == old(self).sent(),
            final(self).reads() == old(self).reads(),
            final(self).device() == old(self).device(),
            if old(self).cursor() + 1 < old(self).capacity() {
                &&& r == Ok::<(), MenuError>(())
                &&& final(self).cursor() == old(self).cursor() + 1
                &&& final(self).pending() == old(self).pending().push(b)
            } else {
                &&& r == Err::<(), MenuError>(MenuError::OutputBufferOverflow)
                &&& *final(self) == *old(self)
            },
    {
        if self.buffer_idx >= self.buffer.len() {
            return Err(MenuError::OutputBufferOverflow);
        }
        if 1 >= self.buffer.len() - self.buffer_idx {
            return Err(MenuError::OutputBufferOverflow);
        }
        self.buffer[self.buffer_idx] = b;
        self.buffer_idx = self.buffer_idx + 1;
        proof {
            assert(final(self).pending() =~= old(self).pending().push(b));
        }
        Ok(())
    }

    /// Appends `s` and a newline to the buffer, then flushes, so that the
    /// finished reply reaches the transport at once.  On a formatting
    /// failure the error is returned without flushing; on a transport
    /// failure the formatted line stays buffered.
    pub fn write_line(&mut self, s: &str) -> (r: Result<(), MenuError>)
        requires
            old(self).wf(),
        ensures
            final(self).wf(),
            wrote_line(*old(self), *final(self), s@, r),
    {
        match self.write_str(s) {
            Ok(()) => {},
            Err(e) => {
                return Err(e);
            },
        }
        match self.write_byte(10u8) {
            Ok(()) => {},
            Err(e) => {
                proof {
                    assert(final(self).pending() =~= old(self).pending() + encode_utf8(s@));
                }
                return Err(e);
            },
        }
        proof {
            assert(self.pending() =~= old(self).pending() + encode_utf8(s@) + seq![nl()]);
        }
        match self.flush_buffer() {
            Ok(()) => Ok(()),
            Err(e) => Err(MenuError::Io(e)),
        }
    }
}

/// Whatever `write_line` did, the packets the device had already
/// received stay in place.
pub proof fn lemma_wrote_line_prefix<IO: IoDevice>(
    pre: Output<IO>,
    post: Output<IO>,
    msg: Seq<char>,
    r: Result<(), MenuError>,
)
    requires
        wrote_line(pre, post, msg, r),
    ensures
        pre.sent().is_prefix_of(post.sent()),
{
    if post.sent() == pre.sent() {
        assert(pre.sent() =~= post.sent().subrange(0, pre.sent().len() as int));
    } else {
        let full = pre.pending() + encode_utf8(msg) + seq![nl()];
        assert(post.sent() == pre.sent().push(full));
        assert(pre.sent() =~= post.sent().subrange(0, pre.sent().len() as int));
    }
}

/// A sink with its cursor at zero has nothing pending.
pub proof fn lemma_pending_empty<IO: IoDevice>(o: Output<IO>)
    requires
        o.cursor() == 0,
    ensures
        o.pending() == Seq::<u8>::empty(),
{
    assert(o.pending() =~= Seq::<u8>::empty());
}

/// How one call of `write_line` with message `msg` relates the sink
/// before (`pre`) and after (`post`), and what it returns.  When the
/// message and its newline fit below the capacity, either the whole
/// buffered line went out as one packet, or the transport failed and the
/// line stays buffered.  When they do not fit, the call fails with
/// `OutputBufferOverflow`, nothing is flushed, and at most the message
/// text was buffered.
pub open spec fn wrote_line<IO: IoDevice>(
    pre: Output<IO>,
    post: Output<IO>,
    msg: Seq<char>,
    r: Result<(), MenuError>,
) -> bool {
    let bytes = encode_utf8(msg);
    let full = pre.pending() + bytes + seq![nl()];
    &&& post.capacity() == pre.capacity()
    &&& post.reads() == pre.reads()
    &&& if pre.cursor() + bytes.len() + 1 < pre.capacity() {
        match r {
            Ok(()) => post.cursor() == 0 && post.sent() == pre.sent().push(full),
            Err(MenuError::Io(_)) => post.sent() == pre.sent() && post.pending() == full,
            _ => false,
        }
    } else {
        &&& r == Err::<(), MenuError>(MenuError::OutputBufferOverflow)
        &&& post.sent() == pre.sent()
        &&& post.device() == pre.device()
        &&& if pre.cursor() + bytes.len() < pre.capacity() {
            post.pending() == pre.pending() + bytes
        } else {
            post.pending() == pre.pending()
        }
    }
}

} // verus!
