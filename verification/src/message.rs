//! The message catalog: a closed set of typed payloads, each with a stable
//! numeric tag and a fixed serialization shape, plus the encode and decode
//! functions between them.

use vstd::prelude::*;
use vstd::string::StrSliceExecFns;
use vstd::utf8::{decode_utf8, encode_utf8, valid_utf8};

use crate::errors::DecodeError;
use crate::messages::{Bytes, Multi, MyString, NoOp, Status, U16, U8};
use crate::wire::{u16_from_bytes, u16_from_pair, u16_high_byte, u16_le, u16_lo, u16_low_byte};

verus! {

/// The mathematical value of a message: what the codec's contracts speak of.
///
/// Text is modelled as the character sequence it denotes; the payload bytes
/// of a text-bearing variant are its UTF-8 encoding.
#[verifier::ext_equal]
pub enum MessageView {
    /// Tag 0: an opaque byte sequence.
    Bytes { data: Seq<u8> },
    /// Tag 1: a single unsigned byte.
    U8 { num: u8 },
    /// Tag 2: UTF-8 text.
    MyString { text: Seq<char> },
    /// Tag 3: one unsigned byte, then UTF-8 text.
    Multi { num: u8, text: Seq<char> },
    /// Tag 4: empty.
    NoOp,
    /// Tag 5: an unsigned 16-bit value, little-endian.
    U16 { num: u16 },
    /// Tag 6: a one-byte status code in `{0, 1, 2}`.
    Status { code: u8 },
}

impl MessageView {
    /// The wire tag of this variant. Tag numbering is stable and dense from
    /// zero; tags are part of the wire contract.
    pub open spec fn tag(self) -> u16 {
        match self {
            MessageView::Bytes { .. } => 0,
            MessageView::U8 { .. } => 1,
            MessageView::MyString { .. } => 2,
            MessageView::Multi { .. } => 3,
            MessageView::NoOp => 4,
            MessageView::U16 { .. } => 5,
            MessageView::Status { .. } => 6,
        }
    }

    /// The serialized payload of this variant, before stuffing.
    pub open spec fn payload(self) -> Seq<u8> {
        match self {
            MessageView::Bytes { data } => data,
            MessageView::U8 { num } => seq![num],
            MessageView::MyString { text } => encode_utf8(text),
            MessageView::Multi { num, text } => seq![num] + encode_utf8(text),
            MessageView::NoOp => Seq::empty(),
            MessageView::U16 { num } => u16_le(num),
            MessageView::Status { code } => seq![code],
        }
    }

    /// Membership in the catalog's valid value space: every variant a
    /// well-formed message can take.
    pub open spec fn wf(self) -> bool {
        match self {
            MessageView::Status { code } => code < 3,
            _ => true,
        }
    }
}

/// What decoding a tag and payload yields: the unique message they stand
/// for, or the error that rejects them.
///
/// The set of tags is closed: unknown tags fail, malformed text fails, an
/// out-of-range status code fails, and a payload shorter than a fixed-shape
/// variant requires fails. Extra bytes beyond a fixed shape are ignored.
pub open spec fn decode_spec(tag: u16, data: Seq<u8>) -> Result<MessageView, DecodeError> {
    if tag == 0 {
        Ok(MessageView::Bytes { data })
    } else if tag == 1 {
        if data.len() < 1 {
            Err(DecodeError::TruncatedPayload)
        } else {
            Ok(MessageView::U8 { num: data[0] })
        }
    } else if tag == 2 {
        if valid_utf8(data) {
            Ok(MessageView::MyString { text: decode_utf8(data) })
        } else {
            Err(DecodeError::InvalidUtf8)
        }
    } else if tag == 3 {
        if data.len() < 1 {
            Err(DecodeError::TruncatedPayload)
        } else if valid_utf8(data.skip(1)) {
            Ok(MessageView::Multi { num: data[0], text: decode_utf8(data.skip(1)) })
        } else {
            Err(DecodeError::InvalidUtf8)
        }
    } else if tag == 4 {
        Ok(MessageView::NoOp)
    } else if tag == 5 {
        if data.len() < 2 {
            Err(DecodeError::TruncatedPayload)
        } else {
            Ok(MessageView::U16 { num: u16_from_pair(data[0], data[1]) })
        }
    } else if tag == 6 {
        if data.len() < 1 {
            Err(DecodeError::TruncatedPayload)
        } else if data[0] < 3 {
            Ok(MessageView::Status { code: data[0] })
        } else {
            Err(DecodeError::InvalidEnumValue(data[0]))
        }
    } else {
        Err(DecodeError::InvalidMessageType(tag))
    }
}

/// A typed message: the closed sum the catalog exchanges.
#[derive(Debug, PartialEq, Clone)]
pub enum Message {
    /// An opaque byte sequence.
    Bytes(Bytes),
    /// A single unsigned byte.
    U8(U8),
    /// UTF-8 text.
    MyString(MyString),
    /// One unsigned byte, then UTF-8 text.
    Multi(Multi),
    /// An empty payload.
    NoOp(NoOp),
    /// An unsigned 16-bit value.
    U16(U16),
    /// A one-byte status report.
    Status(Status),
}

impl View for Message {
    type V = MessageView;

    open spec fn view(&self) -> MessageView {
        match self {
            Message::Bytes(m) => MessageView::Bytes { data: m.data@ },
            Message::U8(m) => MessageView::U8 { num: m.num },
            Message::MyString(m) => MessageView::MyString { text: m.string@ },
            Message::Multi(m) => MessageView::Multi { num: m.num, text: m.string@ },
            Message::NoOp(_) => MessageView::NoOp,
            Message::U16(m) => MessageView::U16 { num: m.num },
            Message::Status(s) => MessageView::Status {
                code: match s {
                    Status::Okay => 0,
                    Status::Error => 1,
                    Status::Pending => 2,
                },
            },
        }
    }
}

impl Message {
    /// The wire tag identifying this message's variant.
    #[must_use]
    pub fn message_type(&self) -> (r: u16)
        ensures
            r == self@.tag(),
    {
        match self {
            Message::Bytes(_) => 0,
            Message::U8(_) => 1,
            Message::MyString(_) => 2,
            Message::Multi(_) => 3,
            Message::NoOp(_) => 4,
            Message::U16(_) => 5,
            Message::Status(_) => 6,
        }
    }

    /// Serialize the payload: exactly the bytes the frame will carry after
    /// the tag, before stuffing. Total; never fails.
    #[must_use]
    pub fn to_bytes(self) -> (r: Vec<u8>)
        ensures
            r@ == self@.payload(),
    {
        match self {
            Message::Bytes(m) => m.data,
            Message::U8(m) => {
                let bytes: Vec<u8> = vec![m.num];
                assert(bytes@ =~= seq![m.num]);
                bytes
            },
            Message::MyString(m) => m.string.as_str().as_bytes_vec(),
            Message::Multi(m) => {
                let mut bytes: Vec<u8> = vec![m.num];
                let mut text_bytes = m.string.as_str().as_bytes_vec();
                bytes.append(&mut text_bytes);
                assert(bytes@ =~= seq![m.num] + encode_utf8(m.string@));
                bytes
            },
            Message::NoOp(_) => Vec::new(),
            Message::U16(m) => {
                let bytes: Vec<u8> = vec![u16_low_byte(m.num), u16_high_byte(m.num)];
                assert(bytes@ =~= u16_le(m.num));
                bytes
            },
            Message::Status(s) => {
                let code: u8 = match s {
                    Status::Okay => 0,
                    Status::Error => 1,
                    Status::Pending => 2,
                };
                let bytes: Vec<u8> = vec![code];
                assert(bytes@ =~= seq![code]);
                bytes
            },
        }
    }

    /// Reconstruct a message from its tag and payload bytes, or report
    /// exactly why they decode to none.
    pub fn from_bytes(message_type: u16, data: Vec<u8>) -> (r: Result<Self, DecodeError>)
        ensures
            (match decode_spec(message_type, data@) {
                Ok(mv) => r matches Ok(m) && m@ == mv,
                Err(e) => r matches Err(e2) && e2 == e,
            }),
    {
        let ghost data_view = data@;
        match message_type {
            0 => Ok(Message::Bytes(Bytes { data })),
            1 => {
                if data.len() < 1 {
                    Err(DecodeError::TruncatedPayload)
                } else {
                    Ok(Message::U8(U8 { num: data[0] }))
                }
            },
            2 => {
                match vec_into_string(data) {
                    Some(s) => {
                        proof {
                            vstd::utf8::encode_utf8_decode_utf8(s@);
                        }
                        Ok(Message::MyString(MyString { string: s }))
                    },
                    None => Err(DecodeError::InvalidUtf8),
                }
            },
            3 => {
                if data.len() < 1 {
                    Err(DecodeError::TruncatedPayload)
                } else {
                    let mut head = data;
                    let tail = head.split_off(1);
                    let num: u8 = head[0];
                    assert(tail@ =~= data_view.skip(1));
                    match vec_into_string(tail) {
                        Some(s) => {
                            proof {
                                vstd::utf8::encode_utf8_decode_utf8(s@);
                            }
                            Ok(Message::Multi(Multi { num, string: s }))
                        },
                        None => Err(DecodeError::InvalidUtf8),
                    }
                }
            },
            4 => Ok(Message::NoOp(NoOp {})),
            5 => {
                if data.len() < 2 {
                    Err(DecodeError::TruncatedPayload)
                } else {
                    Ok(Message::U16(U16 { num: u16_from_bytes(data[0], data[1]) }))
                }
            },
            6 => {
                if data.len() < 1 {
                    Err(DecodeError::TruncatedPayload)
                } else if data[0] == 0 {
                    Ok(Message::Status(Status::Okay))
                } else if data[0] == 1 {
                    Ok(Message::Status(Status::Error))
                } else if data[0] == 2 {
                    Ok(Message::Status(Status::Pending))
                } else {
                    Err(DecodeError::InvalidEnumValue(data[0]))
                }
            },
            _ => Err(DecodeError::InvalidMessageType(message_type)),
        }
    }
}

/// Relies on `String::from_utf8`: it succeeds exactly on valid UTF-8, and
/// the string it returns is carried by exactly the input bytes.
#[verifier::external_body]
fn vec_into_string(bytes: Vec<u8>) -> (r: Option<String>)
    ensures
        r is Some <==> valid_utf8(bytes@),
        r matches Some(s) ==> encode_utf8(s@) == bytes@,
{
    match String::from_utf8(bytes) {
        Ok(s) => Some(s),
        Err(_) => None,
    }
}

/// Codec round trip: decoding what encode produced yields the original
/// message, for every message in the catalog's valid value space.
pub proof fn lemma_codec_round_trip(m: MessageView)
    requires
        m.wf(),
    ensures
        decode_spec(m.tag(), m.payload()) == Ok::<MessageView, DecodeError>(m),
{
    match m {
        MessageView::Bytes { data } => {},
        MessageView::U8 { num } => {},
        MessageView::MyString { text } => {
            vstd::utf8::encode_utf8_valid_utf8(text);
            vstd::utf8::encode_utf8_decode_utf8(text);
        },
        MessageView::Multi { num, text } => {
            vstd::utf8::encode_utf8_valid_utf8(text);
            vstd::utf8::encode_utf8_decode_utf8(text);
            assert((seq![num] + encode_utf8(text)).skip(1) =~= encode_utf8(text));
        },
        MessageView::NoOp => {},
        MessageView::U16 { num } => {
            crate::wire::lemma_u16_le_round_trip(num);
        },
        MessageView::Status { code } => {},
    }
}

/// The view of every constructible message lies in the catalog's valid
/// value space.
pub proof fn lemma_message_wf(m: Message)
    ensures
        m@.wf(),
{
}

/// Frame round trip: a receiver handed exactly what `send` wrote for a
/// message scans out that frame whole and decodes it back to the message,
/// leaving the stream right behind the frame.
pub proof fn lemma_frame_round_trip(m: MessageView, rest: Seq<u8>)
    requires
        m.wf(),
        m.payload().len() <= 65533,
    ensures
        (crate::wire::recv_spec(crate::wire::frame_bytes(m.tag(), m.payload()) + rest)
            == crate::wire::FrameAttempt::Got { tag: m.tag(), data: m.payload(), rest }),
        decode_spec(m.tag(), m.payload()) == Ok::<MessageView, DecodeError>(m),
{
    crate::wire::lemma_receive_frame(m.tag(), m.payload(), rest);
    lemma_codec_round_trip(m);
}

/// Idempotent resync: garbage free of start bytes ahead of a frame is
/// discarded without a trace, and the frame behind it is received as if
/// the garbage had never been on the wire.
pub proof fn lemma_garbage_then_frame(g: Seq<u8>, m: MessageView, rest: Seq<u8>)
    requires
        forall|i: int| 0 <= i < g.len() ==> g[i] != crate::wire::START_BYTE,
        m.wf(),
        m.payload().len() <= 65533,
    ensures
        (crate::wire::recv_spec(g + crate::wire::frame_bytes(m.tag(), m.payload()) + rest)
            == crate::wire::FrameAttempt::Got { tag: m.tag(), data: m.payload(), rest }),
        decode_spec(m.tag(), m.payload()) == Ok::<MessageView, DecodeError>(m),
{
    let frame_and_rest = crate::wire::frame_bytes(m.tag(), m.payload()) + rest;
    assert(g + crate::wire::frame_bytes(m.tag(), m.payload()) + rest =~= g + frame_and_rest);
    crate::wire::lemma_receive_skips_garbage(g, frame_and_rest);
    lemma_frame_round_trip(m, rest);
}

/// Mid-frame resync, stated over messages: any nonempty strict prefix of
/// one message's frame, interrupted by a second message's complete frame,
/// is abandoned and the second message is received. The prefix must be
/// strict: handed the whole first frame, the receiver yields the first
/// message instead.
pub proof fn lemma_interrupted_frame(
    m1: MessageView,
    p: Seq<u8>,
    m2: MessageView,
    rest: Seq<u8>,
)
    requires
        m1.payload().len() <= 65533,
        m2.wf(),
        m2.payload().len() <= 65533,
        p.is_prefix_of(crate::wire::frame_bytes(m1.tag(), m1.payload())),
        1 <= p.len() < crate::wire::frame_bytes(m1.tag(), m1.payload()).len(),
    ensures
        (crate::wire::recv_spec(p + crate::wire::frame_bytes(m2.tag(), m2.payload()) + rest)
            == crate::wire::FrameAttempt::Got { tag: m2.tag(), data: m2.payload(), rest }),
        decode_spec(m2.tag(), m2.payload()) == Ok::<MessageView, DecodeError>(m2),
{
    crate::wire::lemma_mid_frame_resync(
        m1.tag(),
        m1.payload(),
        p,
        m2.tag(),
        m2.payload(),
        rest,
    );
    lemma_codec_round_trip(m2);
}

} // verus!
