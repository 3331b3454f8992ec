//! Framed, typed message exchange over an unreliable byte-oriented link.
//!
//! A sender serializes a typed [`Message`] into a self-delimited frame; a
//! receiver recovers the next well-formed message from the byte stream,
//! silently skipping garbage between frames and abandoning partial frames
//! that a fresh start byte interrupts.

pub mod errors;
pub mod message;
pub mod messages;
pub mod transport;
pub mod wire;

use vstd::prelude::*;

pub use errors::{DecodeError, IoError, MaybeResyncError, ReceiveError};
pub use message::Message;
pub use transport::{MemTransport, Transport};

use message::decode_spec;
use wire::{
    escape_byte_spec, escape_seq, find_start, frame_bytes, lemma_escape_seq_concat,
    lemma_escape_seq_snoc, lemma_lr_prepend_assoc, lemma_parse_attempt_restart_shrinks,
    lemma_read_logicals_len, lemma_read_logicals_step, lr_prepend, needs_escaping,
    parse_attempt, parse_frames, read_logical, read_logicals, recv_spec, u16_from_bytes,
    u16_from_pair, u16_high_byte, u16_le, u16_low_byte, FrameAttempt, LogicalRead,
    ESCAPE_BYTE, START_BYTE, XOR_BYTE,
};

verus! {

/// A channel: one frame codec bound to one duplex byte transport.
///
/// It owns no state beyond the transport handle: no read buffer and no
/// partial-frame state survives a call, so every `receive` starts by
/// seeking a start byte afresh.
pub struct SerialManager<T: Transport> {
    connection: T,
}

impl<T: Transport> SerialManager<T> {
    /// The bytes the underlying transport has yet to deliver.
    pub closed spec fn incoming(&self) -> Seq<u8> {
        self.connection.incoming()
    }

    /// The bytes written through the underlying transport so far.
    pub closed spec fn outgoing(&self) -> Seq<u8> {
        self.connection.outgoing()
    }

    /// Take exclusive ownership of a transport and speak the protocol on it.
    pub fn new(connection: T) -> (r: Self)
        ensures
            r.incoming() == connection.incoming(),
            r.outgoing() == connection.outgoing(),
    {
        SerialManager { connection }
    }

    /// Give the transport back, for example to read out a memory buffer.
    pub fn into_connection(self) -> (t: T)
        ensures
            t.incoming() == self.incoming(),
            t.outgoing() == self.outgoing(),
    {
        self.connection
    }

    /// Write one logical byte, stuffed: a sensitive byte goes out as the
    /// escape byte and its masked image, any other byte goes out verbatim.
    fn write_escaped_byte(&mut self, byte: u8) -> (r: Result<(), IoError>)
        ensures
            final(self).incoming() == old(self).incoming(),
            r is Ok ==> final(self).outgoing() == old(self).outgoing() + escape_byte_spec(byte),
            r is Err ==> old(self).outgoing().is_prefix_of(final(self).outgoing()),
    {
        if needs_escaping(byte) {
            match self.connection.write_byte(ESCAPE_BYTE) {
                Ok(()) => {},
                Err(e) => {
                    return Err(e);
                },
            }
            match self.connection.write_byte(byte ^ XOR_BYTE) {
                Ok(()) => {},
                Err(e) => {
                    assert(old(self).outgoing().is_prefix_of(self.outgoing()));
                    return Err(e);
                },
            }
            assert(self.outgoing() =~= old(self).outgoing() + escape_byte_spec(byte));
            Ok(())
        } else {
            match self.connection.write_byte(byte) {
                Ok(()) => {},
                Err(e) => {
                    return Err(e);
                },
            }
            assert(self.outgoing() =~= old(self).outgoing() + escape_byte_spec(byte));
            Ok(())
        }
    }

    /// Write a run of logical bytes, each stuffed.
    #[verifier::loop_isolation(false)]
    fn write_escaped_bytes(&mut self, bytes: &[u8]) -> (r: Result<(), IoError>)
        ensures
            final(self).incoming() == old(self).incoming(),
            r is Ok ==> final(self).outgoing() == old(self).outgoing() + escape_seq(bytes@),
            r is Err ==> old(self).outgoing().is_prefix_of(final(self).outgoing()),
    {
        let mut i: usize = 0;
        while i < bytes.len()
            invariant
                i <= bytes.len(),
                self.incoming() == old(self).incoming(),
                self.outgoing() == old(self).outgoing() + escape_seq(bytes@.take(i as int)),
            decreases bytes.len() - i,
        {
            match self.write_escaped_byte(bytes[i]) {
                Ok(()) => {},
                Err(e) => {
                    assert(old(self).outgoing().is_prefix_of(self.outgoing()));
                    return Err(e);
                },
            }
            proof {
                lemma_escape_seq_snoc(bytes@, i as int);
            }
            i = i + 1;
        }
        assert(bytes@.take(bytes@.len() as int) =~= bytes@);
        Ok(())
    }

    /// Send one message: write the start byte raw, then the stuffed length,
    /// tag and payload, and flush. On success the wire grows by exactly one
    /// frame image, so consecutive sends abut with no byte between them.
    #[verifier::rlimit(50)]
    pub fn send(&mut self, message: Message) -> (r: Result<(), IoError>)
        requires
            message@.payload().len() <= 65533,
        ensures
            final(self).incoming() == old(self).incoming(),
            r is Ok ==> final(self).outgoing() == old(self).outgoing() + frame_bytes(
                message@.tag(),
                message@.payload(),
            ),
            r is Err ==> old(self).outgoing().is_prefix_of(final(self).outgoing()),
    {
        let ghost mview = message@;
        let tag = message.message_type();
        let data = message.to_bytes();
        let length = (data.len() + 2) as u16;

        match self.connection.write_byte(START_BYTE) {
            Ok(()) => {},
            Err(e) => {
                return Err(e);
            },
        }
        match self.write_escaped_byte(u16_low_byte(length)) {
            Ok(()) => {},
            Err(e) => {
                assert(old(self).outgoing().is_prefix_of(self.outgoing()));
                return Err(e);
            },
        }
        match self.write_escaped_byte(u16_high_byte(length)) {
            Ok(()) => {},
            Err(e) => {
                assert(old(self).outgoing().is_prefix_of(self.outgoing()));
                return Err(e);
            },
        }
        match self.write_escaped_byte(u16_low_byte(tag)) {
            Ok(()) => {},
            Err(e) => {
                assert(old(self).outgoing().is_prefix_of(self.outgoing()));
                return Err(e);
            },
        }
        match self.write_escaped_byte(u16_high_byte(tag)) {
            Ok(()) => {},
            Err(e) => {
                assert(old(self).outgoing().is_prefix_of(self.outgoing()));
                return Err(e);
            },
        }
        match self.write_escaped_bytes(data.as_slice()) {
            Ok(()) => {},
            Err(e) => {
                assert(old(self).outgoing().is_prefix_of(self.outgoing()));
                return Err(e);
            },
        }
        match self.connection.flush() {
            Ok(()) => {},
            Err(e) => {
                assert(old(self).outgoing().is_prefix_of(self.outgoing()));
                return Err(e);
            },
        }
        proof {
            let body = wire::frame_body(mview.tag(), mview.payload());
            lemma_escape_seq_concat(u16_le(length) + u16_le(tag), mview.payload());
            lemma_escape_seq_concat(u16_le(length), u16_le(tag));
            lemma_escape_u16_pair(length);
            lemma_escape_u16_pair(tag);
            assert(body =~= (u16_le(length) + u16_le(tag)) + mview.payload());
            assert(self.outgoing() =~= old(self).outgoing() + frame_bytes(
                mview.tag(),
                mview.payload(),
            ));
        }
        Ok(())
    }

    /// Read one raw byte; a start byte raises the resync signal instead.
    fn read_byte(&mut self) -> (r: Result<u8, MaybeResyncError<IoError>>)
        ensures
            final(self).outgoing() == old(self).outgoing(),
            old(self).incoming().len() == 0 ==> (r matches Err(MaybeResyncError::Error(_)))
                && final(self).incoming() == old(self).incoming(),
            old(self).incoming().len() > 0 && old(self).incoming()[0] == START_BYTE ==> (
            r matches Err(MaybeResyncError::Resync)) && final(self).incoming() == old(
                self,
            ).incoming().skip(1),
            old(self).incoming().len() > 0 && old(self).incoming()[0] != START_BYTE ==> (
            r matches Ok(b) && b == old(self).incoming()[0]) && final(self).incoming() == old(
                self,
            ).incoming().skip(1),
    {
        match self.connection.read_byte() {
            Err(e) => Err(MaybeResyncError::Error(e)),
            Ok(byte) => {
                if byte == START_BYTE {
                    Err(MaybeResyncError::Resync)
                } else {
                    Ok(byte)
                }
            },
        }
    }

    /// Read one logical byte: undo the stuffing, resyncing on any raw start
    /// byte, also one standing right behind an escape byte.
    fn read_escaped_byte(&mut self) -> (r: Result<u8, MaybeResyncError<IoError>>)
        ensures
            final(self).outgoing() == old(self).outgoing(),
            (match read_logical(old(self).incoming()) {
                LogicalRead::Taken { bytes, rest } => (r matches Ok(b) && seq![b] == bytes)
                    && final(self).incoming() == rest,
                LogicalRead::Restart { rest } => (r matches Err(MaybeResyncError::Resync))
                    && final(self).incoming() == rest,
                LogicalRead::Exhausted => (r matches Err(MaybeResyncError::Error(_)))
                    && final(self).incoming().len() == 0,
            }),
    {
        let ghost s = self.incoming();
        let byte = match self.read_byte() {
            Ok(b) => b,
            Err(e) => {
                return Err(e);
            },
        };
        if byte == ESCAPE_BYTE {
            let next = match self.read_byte() {
                Ok(b) => b,
                Err(e) => {
                    proof {
                        if s.len() >= 2 {
                            assert(s.skip(1).skip(1) =~= s.skip(2));
                        }
                    }
                    return Err(e);
                },
            };
            proof {
                assert(s.skip(1).skip(1) =~= s.skip(2));
            }
            Ok(next ^ XOR_BYTE)
        } else {
            Ok(byte)
        }
    }

    /// Read a run of logical bytes of known length.
    #[verifier::loop_isolation(false)]
    fn read_escaped_bytes(&mut self, length: usize) -> (r: Result<
        Vec<u8>,
        MaybeResyncError<IoError>,
    >)
        ensures
            final(self).outgoing() == old(self).outgoing(),
            (match read_logicals(old(self).incoming(), length as nat) {
                LogicalRead::Taken { bytes, rest } => (r matches Ok(v) && v@ == bytes)
                    && final(self).incoming() == rest,
                LogicalRead::Restart { rest } => (r matches Err(MaybeResyncError::Resync))
                    && final(self).incoming() == rest,
                LogicalRead::Exhausted => (r matches Err(MaybeResyncError::Error(_)))
                    && final(self).incoming().len() == 0,
            }),
    {
        let mut result: Vec<u8> = Vec::new();
        let mut i: usize = 0;
        while i < length
            invariant
                i <= length,
                result@.len() == i,
                self.outgoing() == old(self).outgoing(),
                read_logicals(old(self).incoming(), length as nat) == lr_prepend(
                    result@,
                    read_logicals(self.incoming(), (length - i) as nat),
                ),
            decreases length - i,
        {
            let ghost cur = self.incoming();
            let ghost pre = result@;
            let byte = match self.read_escaped_byte() {
                Ok(b) => b,
                Err(e) => {
                    proof {
                        lemma_read_logicals_step(cur, (length - i) as nat);
                    }
                    return Err(e);
                },
            };
            result.push(byte);
            proof {
                lemma_read_logicals_step(cur, (length - i) as nat);
                lemma_lr_prepend_assoc(
                    pre,
                    seq![byte],
                    read_logicals(self.incoming(), (length - i - 1) as nat),
                );
                assert(pre + seq![byte] =~= result@);
            }
            i = i + 1;
        }
        proof {
            assert(lr_prepend(result@, read_logicals(self.incoming(), 0)) == LogicalRead::Taken {
                bytes: result@ + Seq::<u8>::empty(),
                rest: self.incoming(),
            });
            assert(result@ + Seq::<u8>::empty() =~= result@);
        }
        Ok(result)
    }

    /// Read a stuffed little-endian 16-bit field.
    fn read_u16(&mut self) -> (r: Result<u16, MaybeResyncError<IoError>>)
        ensures
            final(self).outgoing() == old(self).outgoing(),
            (match read_logicals(old(self).incoming(), 2) {
                LogicalRead::Taken { bytes, rest } => (r matches Ok(v) && v == u16_from_pair(
                    bytes[0],
                    bytes[1],
                )) && final(self).incoming() == rest,
                LogicalRead::Restart { rest } => (r matches Err(MaybeResyncError::Resync))
                    && final(self).incoming() == rest,
                LogicalRead::Exhausted => (r matches Err(MaybeResyncError::Error(_)))
                    && final(self).incoming().len() == 0,
            }),
    {
        proof {
            lemma_read_logicals_len(self.incoming(), 2);
        }
        let bytes = match self.read_escaped_bytes(2) {
            Ok(v) => v,
            Err(e) => {
                return Err(e);
            },
        };
        Ok(u16_from_bytes(bytes[0], bytes[1]))
    }

    /// Discard raw bytes until a start byte has been consumed. Garbage
    /// between frames carries no meaning: in particular an escape byte out
    /// there is not an escape, so it cannot hide a start byte.
    #[verifier::loop_isolation(false)]
    fn wait_for_start_byte(&mut self) -> (r: Result<(), IoError>)
        ensures
            final(self).outgoing() == old(self).outgoing(),
            (match find_start(old(self).incoming()) {
                Option::Some(rest) => r is Ok && final(self).incoming() == rest,
                Option::None => r is Err && final(self).incoming().len() == 0,
            }),
    {
        loop
            invariant
                self.outgoing() == old(self).outgoing(),
                find_start(self.incoming()) == find_start(old(self).incoming()),
            decreases self.incoming().len(),
        {
            match self.read_byte() {
                Ok(_) => {},
                Err(MaybeResyncError::Resync) => {
                    return Ok(());
                },
                Err(MaybeResyncError::Error(e)) => {
                    return Err(e);
                },
            }
        }
    }

    /// One frame attempt, entered right after a consumed start byte: read
    /// the length, the tag and the payload, then decode. A length under two
    /// is a frame error; the codec then awaits the next start byte.
    fn read_message(&mut self) -> (r: Result<Message, MaybeResyncError<ReceiveError>>)
        ensures
            final(self).outgoing() == old(self).outgoing(),
            (match parse_attempt(old(self).incoming()) {
                FrameAttempt::Got { tag, data, rest } => final(self).incoming() == rest && (
                match decode_spec(tag, data) {
                    Ok(mv) => r matches Ok(m) && m@ == mv,
                    Err(e) => (r matches Err(MaybeResyncError::Error(ReceiveError::Decode(e2)))
                        && e2 == e),
                }),
                FrameAttempt::Restart { rest } => (r matches Err(MaybeResyncError::Resync))
                    && final(self).incoming() == rest,
                FrameAttempt::Exhausted => (r matches Err(
                    MaybeResyncError::Error(ReceiveError::Io(_)),
                )) && final(self).incoming().len() == 0,
            }),
    {
        let length = match self.read_u16() {
            Ok(v) => v,
            Err(MaybeResyncError::Resync) => {
                return Err(MaybeResyncError::Resync);
            },
            Err(MaybeResyncError::Error(e)) => {
                return Err(MaybeResyncError::Error(ReceiveError::Io(e)));
            },
        };
        if length < 2 {
            match self.wait_for_start_byte() {
                Ok(()) => {
                    return Err(MaybeResyncError::Resync);
                },
                Err(e) => {
                    return Err(MaybeResyncError::Error(ReceiveError::Io(e)));
                },
            }
        }
        let tag = match self.read_u16() {
            Ok(v) => v,
            Err(MaybeResyncError::Resync) => {
                return Err(MaybeResyncError::Resync);
            },
            Err(MaybeResyncError::Error(e)) => {
                return Err(MaybeResyncError::Error(ReceiveError::Io(e)));
            },
        };
        let data = match self.read_escaped_bytes((length - 2) as usize) {
            Ok(v) => v,
            Err(MaybeResyncError::Resync) => {
                return Err(MaybeResyncError::Resync);
            },
            Err(MaybeResyncError::Error(e)) => {
                return Err(MaybeResyncError::Error(ReceiveError::Io(e)));
            },
        };
        match Message::from_bytes(tag, data) {
            Ok(m) => Ok(m),
            Err(e) => Err(MaybeResyncError::Error(ReceiveError::Decode(e))),
        }
    }

    /// Receive the next message: seek the first start byte, then parse
    /// frames, restarting on every raw start byte met mid-frame, until one
    /// frame completes. A complete frame that does not decode is an error
    /// for the caller; no resync is attempted for it.
    #[verifier::loop_isolation(false)]
    pub fn receive(&mut self) -> (r: Result<Message, ReceiveError>)
        ensures
            final(self).outgoing() == old(self).outgoing(),
            (match recv_spec(old(self).incoming()) {
                FrameAttempt::Got { tag, data, rest } => final(self).incoming() == rest && (
                match decode_spec(tag, data) {
                    Ok(mv) => r matches Ok(m) && m@ == mv,
                    Err(e) => (r matches Err(ReceiveError::Decode(e2)) && e2 == e),
                }),
                FrameAttempt::Exhausted => (r matches Err(ReceiveError::Io(_)))
                    && final(self).incoming().len() == 0,
                FrameAttempt::Restart { .. } => true,
            }),
    {
        match self.wait_for_start_byte() {
            Ok(()) => {},
            Err(e) => {
                return Err(ReceiveError::Io(e));
            },
        }
        loop
            invariant
                self.outgoing() == old(self).outgoing(),
                parse_frames(self.incoming()) == recv_spec(old(self).incoming()),
            decreases self.incoming().len(),
        {
            let ghost cur = self.incoming();
            match self.read_message() {
                Ok(m) => {
                    return Ok(m);
                },
                Err(MaybeResyncError::Resync) => {
                    proof {
                        lemma_parse_attempt_restart_shrinks(cur);
                    }
                },
                Err(MaybeResyncError::Error(e)) => {
                    return Err(e);
                },
            }
        }
    }
}

/// The stuffing of a 16-bit field is the stuffed low byte, then the
/// stuffed high byte.
proof fn lemma_escape_u16_pair(v: u16)
    ensures
        escape_seq(u16_le(v)) == escape_byte_spec(wire::u16_lo(v)) + escape_byte_spec(
            wire::u16_hi(v),
        ),
{
    let pair = u16_le(v);
    assert(pair.skip(1) =~= seq![wire::u16_hi(v)]);
    assert(pair.skip(1).skip(1) =~= Seq::<u8>::empty());
    assert(escape_seq(Seq::<u8>::empty()) =~= Seq::<u8>::empty());
    assert(escape_seq(pair.skip(1)) =~= escape_byte_spec(wire::u16_hi(v)));
}

} // verus!

