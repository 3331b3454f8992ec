//! Error types surfaced by the codec and the channel.

use vstd::prelude::*;

verus! {

/// A transport-level failure. The codec never swallows one; it is handed to
/// the caller verbatim and the channel is considered unusable until the
/// caller decides otherwise.
#[derive(Debug, Clone, Copy, PartialEq, Eq, Structural)]
pub enum IoError {
    /// The transport delivered no further bytes (short read or end of stream).
    UnexpectedEof,
    /// Any other failure reported by the transport.
    Other,
}

/// A failure to reconstruct a message from a fully received frame.
///
/// Produced only after a complete frame was read off the wire; whether to
/// call `receive` again afterwards is the caller's choice.
#[derive(Debug, Clone, Copy, PartialEq, Eq, Structural)]
pub enum DecodeError {
    /// The frame's tag names no known message variant.
    InvalidMessageType(u16),
    /// A text section of the payload is not valid UTF-8.
    InvalidUtf8,
    /// A status payload carries a code outside the enumerated set.
    InvalidEnumValue(u8),
    /// The payload is shorter than the variant's fixed shape requires.
    TruncatedPayload,
}

/// Everything that can go wrong while receiving one message.
#[derive(Debug, Clone, Copy, PartialEq, Eq, Structural)]
pub enum ReceiveError {
    /// The transport failed before a complete frame arrived.
    Io(IoError),
    /// A complete frame arrived but did not decode to a message.
    Decode(DecodeError),
}

/// Outcome of a read step that may be interrupted by a fresh start byte.
///
/// `Resync` is an internal signal, never surfaced by `receive`: it means a
/// raw start byte was observed mid-frame, so the frame in progress is
/// abandoned and a new one begins at that byte.
#[derive(Debug)]
pub enum MaybeResyncError<T> {
    /// A raw start byte interrupted the read; parsing restarts there.
    Resync,
    /// The read failed for an unrelated reason.
    Error(T),
}

} // verus!
