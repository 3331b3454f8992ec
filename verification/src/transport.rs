//! The duplex byte channel a [`crate::SerialManager`] drives, and an
//! in-memory instance of it.

use vstd::prelude::*;

use crate::errors::IoError;

verus! {

/// A duplex byte channel: blocking single-byte reads on one half, writes
/// and a flush on the other.
///
/// `incoming` models the bytes the transport will deliver, in order, and
/// `outgoing` the bytes written so far. Reads deliver the front of
/// `incoming` and fail once it is exhausted; writes append to `outgoing`.
/// Any endpoint honoring this — a socket, a pipe, a physical serial line,
/// a memory buffer — can carry the protocol.
pub trait Transport: Sized {
    /// The bytes this transport has yet to deliver. A transport verified
    /// against this contract overrides the model; an unverified adapter
    /// outside the proofs may leave the default.
    open spec fn incoming(&self) -> Seq<u8> {
        Seq::empty()
    }

    /// The bytes written to this transport so far.
    open spec fn outgoing(&self) -> Seq<u8> {
        Seq::empty()
    }

    /// Deliver the next byte, or fail once the stream is exhausted.
    fn read_byte(&mut self) -> (r: Result<u8, IoError>)
        ensures
            old(self).incoming().len() > 0 ==> (r matches Ok(b) && b == old(self).incoming()[0]
                && final(self).incoming() == old(self).incoming().skip(1)),
            old(self).incoming().len() == 0 ==> r is Err && final(self).incoming() == old(
                self,
            ).incoming(),
            final(self).outgoing() == old(self).outgoing(),
    ;

    /// Append one byte to the outgoing stream; on failure nothing is written.
    fn write_byte(&mut self, byte: u8) -> (r: Result<(), IoError>)
        ensures
            final(self).incoming() == old(self).incoming(),
            r is Ok ==> final(self).outgoing() == old(self).outgoing().push(byte),
            r is Err ==> final(self).outgoing() == old(self).outgoing(),
    ;

    /// Push buffered writes down to the endpoint; neither stream changes.
    fn flush(&mut self) -> (r: Result<(), IoError>)
        ensures
            final(self).incoming() == old(self).incoming(),
            final(self).outgoing() == old(self).outgoing(),
    ;
}

/// An in-memory transport: reads drain a fixed input buffer, writes collect
/// into an output buffer. The memory image of a serial link, for tests and
/// loopback runs.
pub struct MemTransport {
    input: Vec<u8>,
    cursor: usize,
    output: Vec<u8>,
}

impl MemTransport {
    /// A transport that will deliver exactly `input` and has written nothing.
    pub fn new(input: Vec<u8>) -> (r: Self)
        ensures
            r.incoming() == input@,
            r.outgoing() == Seq::<u8>::empty(),
    {
        MemTransport { input, cursor: 0, output: Vec::new() }
    }

    /// Give up the transport and keep only what was written through it.
    pub fn into_written(self) -> (r: Vec<u8>)
        ensures
            r@ == self.outgoing(),
    {
        self.output
    }
}

impl Transport for MemTransport {
    closed spec fn incoming(&self) -> Seq<u8> {
        if self.cursor <= self.input.len() {
            self.input@.skip(self.cursor as int)
        } else {
            Seq::empty()
        }
    }

    closed spec fn outgoing(&self) -> Seq<u8> {
        self.output@
    }

    fn read_byte(&mut self) -> (r: Result<u8, IoError>) {
        if self.cursor < self.input.len() {
            let byte = self.input[self.cursor];
            self.cursor = self.cursor + 1;
            assert(self.incoming() =~= old(self).incoming().skip(1));
            Ok(byte)
        } else {
            Err(IoError::UnexpectedEof)
        }
    }

    fn write_byte(&mut self, byte: u8) -> (r: Result<(), IoError>) {
        self.output.push(byte);
        Ok(())
    }

    fn flush(&mut self) -> (r: Result<(), IoError>) {
        Ok(())
    }
}

} // verus!
