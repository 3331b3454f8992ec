//! The on-wire byte layer: start sentinel, byte stuffing, and the scanner
//! that recovers frames from a raw byte stream.
//!
//! A frame is one raw `START_BYTE` followed by the stuffed encoding of
//! `[len_lo, len_hi, tag_lo, tag_hi, payload...]`, where `len` counts the
//! pre-stuffing bytes of the tag-plus-payload section.

use vstd::prelude::*;

verus! {

/// First byte of every frame. Its raw appearance anywhere else on the wire
/// abandons the frame in progress and starts a new one.
pub const START_BYTE: u8 = 0x58;

/// In-frame prefix announcing that the next raw byte is XOR-masked.
pub const ESCAPE_BYTE: u8 = 0x42;

/// Mask applied to the raw byte that follows an escape.
pub const XOR_BYTE: u8 = 0x69;

/// A byte that may not appear verbatim inside a frame body.
pub open spec fn is_sensitive(b: u8) -> bool {
    b == START_BYTE || b == ESCAPE_BYTE
}

/// The stuffed encoding of one logical byte.
pub open spec fn escape_byte_spec(b: u8) -> Seq<u8> {
    if is_sensitive(b) {
        seq![ESCAPE_BYTE, b ^ XOR_BYTE]
    } else {
        seq![b]
    }
}

/// The stuffed encoding of a logical byte sequence.
pub open spec fn escape_seq(s: Seq<u8>) -> Seq<u8>
    decreases s.len(),
{
    if s.len() == 0 {
        Seq::empty()
    } else {
        escape_byte_spec(s[0]) + escape_seq(s.skip(1))
    }
}

/// Low byte of a little-endian 16-bit value.
pub open spec fn u16_lo(v: u16) -> u8 {
    (v % 256) as u8
}

/// High byte of a little-endian 16-bit value.
pub open spec fn u16_hi(v: u16) -> u8 {
    (v / 256) as u8
}

/// The two-byte little-endian encoding of a 16-bit value.
pub open spec fn u16_le(v: u16) -> Seq<u8> {
    seq![u16_lo(v), u16_hi(v)]
}

/// The 16-bit value encoded little-endian by the byte pair `(lo, hi)`.
pub open spec fn u16_from_pair(lo: u8, hi: u8) -> u16 {
    (lo as int + 256 * (hi as int)) as u16
}

/// Decomposing a 16-bit value into its little-endian bytes loses nothing.
pub proof fn lemma_u16_le_round_trip(v: u16)
    ensures
        u16_from_pair(u16_lo(v), u16_hi(v)) == v,
{
    vstd::arithmetic::div_mod::lemma_fundamental_div_mod(v as int, 256);
}

/// The pre-stuffing body of a frame: length field, tag field, payload.
/// The length counts the tag-plus-payload section, so it is `2 + |payload|`.
pub open spec fn frame_body(tag: u16, payload: Seq<u8>) -> Seq<u8> {
    u16_le((payload.len() + 2) as u16) + u16_le(tag) + payload
}

/// The complete wire image of one frame: a raw start byte, then the stuffed
/// body. Meaningful when the payload leaves the length fitting in 16 bits.
pub open spec fn frame_bytes(tag: u16, payload: Seq<u8>) -> Seq<u8> {
    seq![START_BYTE] + escape_seq(frame_body(tag, payload))
}

/// Outcome of drawing logical (post-unstuffing) bytes from a raw stream.
#[verifier::ext_equal]
pub enum LogicalRead {
    /// The requested bytes, and the raw stream left after them.
    Taken { bytes: Seq<u8>, rest: Seq<u8> },
    /// A raw start byte interrupted the read; `rest` is the stream just
    /// after that start byte.
    Restart { rest: Seq<u8> },
    /// The stream ran out before the read finished.
    Exhausted,
}

/// Draw one logical byte: a raw start byte restarts, an escape consumes the
/// following raw byte and unmasks it (a start byte in that position still
/// restarts), anything else passes unchanged.
pub open spec fn read_logical(s: Seq<u8>) -> LogicalRead {
    if s.len() == 0 {
        LogicalRead::Exhausted
    } else if s[0] == START_BYTE {
        LogicalRead::Restart { rest: s.skip(1) }
    } else if s[0] == ESCAPE_BYTE {
        if s.len() == 1 {
            LogicalRead::Exhausted
        } else if s[1] == START_BYTE {
            LogicalRead::Restart { rest: s.skip(2) }
        } else {
            LogicalRead::Taken { bytes: seq![s[1] ^ XOR_BYTE], rest: s.skip(2) }
        }
    } else {
        LogicalRead::Taken { bytes: seq![s[0]], rest: s.skip(1) }
    }
}

/// Draw `n` logical bytes in sequence.
pub open spec fn read_logicals(s: Seq<u8>, n: nat) -> LogicalRead
    decreases n,
{
    if n == 0 {
        LogicalRead::Taken { bytes: Seq::empty(), rest: s }
    } else {
        match read_logical(s) {
            LogicalRead::Taken { bytes, rest } => match read_logicals(rest, (n - 1) as nat) {
                LogicalRead::Taken { bytes: more, rest: after } => LogicalRead::Taken {
                    bytes: bytes + more,
                    rest: after,
                },
                other => other,
            },
            other => other,
        }
    }
}

/// The raw stream just after the first start byte, if there is one.
pub open spec fn find_start(s: Seq<u8>) -> Option<Seq<u8>>
    decreases s.len(),
{
    if s.len() == 0 {
        Option::None
    } else if s[0] == START_BYTE {
        Option::Some(s.skip(1))
    } else {
        find_start(s.skip(1))
    }
}

/// Outcome of scanning a raw stream for one complete frame.
#[verifier::ext_equal]
pub enum FrameAttempt {
    /// A complete frame: its tag, its logical payload, and the raw stream
    /// left after its last byte.
    Got { tag: u16, data: Seq<u8>, rest: Seq<u8> },
    /// A start byte cut the frame short; `rest` is the stream just after it.
    Restart { rest: Seq<u8> },
    /// The stream ran out before a frame completed.
    Exhausted,
}

/// One parse attempt, starting just after a consumed start byte: two logical
/// bytes of length, two of tag, then `length - 2` of payload. A length under
/// two abandons the frame and awaits the next start byte.
pub open spec fn parse_attempt(s: Seq<u8>) -> FrameAttempt {
    match read_logicals(s, 2) {
        LogicalRead::Exhausted => FrameAttempt::Exhausted,
        LogicalRead::Restart { rest } => FrameAttempt::Restart { rest },
        LogicalRead::Taken { bytes: len_bytes, rest: after_len } => {
            let length = u16_from_pair(len_bytes[0], len_bytes[1]);
            if length < 2 {
                match find_start(after_len) {
                    Option::None => FrameAttempt::Exhausted,
                    Option::Some(rest) => FrameAttempt::Restart { rest },
                }
            } else {
                match read_logicals(after_len, 2) {
                    LogicalRead::Exhausted => FrameAttempt::Exhausted,
                    LogicalRead::Restart { rest } => FrameAttempt::Restart { rest },
                    LogicalRead::Taken { bytes: tag_bytes, rest: after_tag } => {
                        match read_logicals(after_tag, (length - 2) as nat) {
                            LogicalRead::Exhausted => FrameAttempt::Exhausted,
                            LogicalRead::Restart { rest } => FrameAttempt::Restart { rest },
                            LogicalRead::Taken { bytes: data, rest } => FrameAttempt::Got {
                                tag: u16_from_pair(tag_bytes[0], tag_bytes[1]),
                                data,
                                rest,
                            },
                        }
                    },
                }
            }
        },
    }
}

/// Parse attempts repeated across restarts: the frame the scanner settles
/// on, starting just after a consumed start byte. Never yields `Restart`.
pub open spec fn parse_frames(s: Seq<u8>) -> FrameAttempt
    decreases s.len(),
{
    match parse_attempt(s) {
        FrameAttempt::Restart { rest } => {
            proof {
                lemma_parse_attempt_restart_shrinks(s);
            }
            parse_frames(rest)
        },
        other => other,
    }
}

/// The complete receive semantics over a raw stream: discard bytes up to
/// the first start byte, then scan for a frame, restarting on every further
/// raw start byte.
pub open spec fn recv_spec(s: Seq<u8>) -> FrameAttempt {
    match find_start(s) {
        Option::None => FrameAttempt::Exhausted,
        Option::Some(rest) => parse_frames(rest),
    }
}

/// Whether a logical byte must be stuffed on the wire.
pub fn needs_escaping(byte: u8) -> (r: bool)
    ensures
        r == is_sensitive(byte),
{
    byte == START_BYTE || byte == ESCAPE_BYTE
}

/// Low byte of the little-endian encoding, executable form.
pub fn u16_low_byte(v: u16) -> (r: u8)
    ensures
        r == u16_lo(v),
{
    (v % 256) as u8
}

/// High byte of the little-endian encoding, executable form.
pub fn u16_high_byte(v: u16) -> (r: u8)
    ensures
        r == u16_hi(v),
{
    (v / 256) as u8
}

/// Reassemble a 16-bit value from its little-endian bytes, executable form.
pub fn u16_from_bytes(lo: u8, hi: u8) -> (r: u16)
    ensures
        r == u16_from_pair(lo, hi),
{
    (lo as u16) + 256 * (hi as u16)
}

proof fn lemma_xor_facts()
    by (bit_vector)
    ensures
        forall|b: u8| #[trigger] ((b ^ XOR_BYTE) ^ XOR_BYTE) == b,
        (START_BYTE ^ XOR_BYTE) != START_BYTE,
        (START_BYTE ^ XOR_BYTE) != ESCAPE_BYTE,
        (ESCAPE_BYTE ^ XOR_BYTE) != START_BYTE,
        (ESCAPE_BYTE ^ XOR_BYTE) != ESCAPE_BYTE,
{
}

/// The escape never cascades: the transformed byte standing for a sensitive
/// byte is itself not sensitive, so a sensitive logical byte costs exactly
/// two raw bytes, never more.
pub proof fn lemma_escape_non_cascade(b: u8)
    requires
        is_sensitive(b),
    ensures
        !is_sensitive(b ^ XOR_BYTE),
        escape_byte_spec(b).len() == 2,
{
    lemma_xor_facts();
}

/// No raw byte of a stuffed sequence is the start byte.
pub proof fn lemma_escape_seq_no_start(s: Seq<u8>)
    ensures
        forall|i: int| 0 <= i < escape_seq(s).len() ==> escape_seq(s)[i] != START_BYTE,
    decreases s.len(),
{
    if s.len() > 0 {
        lemma_xor_facts();
        lemma_escape_seq_no_start(s.skip(1));
        let head = escape_byte_spec(s[0]);
        let tail = escape_seq(s.skip(1));
        assert forall|i: int| 0 <= i < escape_seq(s).len() implies escape_seq(s)[i]
            != START_BYTE by {
            if head.len() <= i {
                assert(escape_seq(s)[i] == tail[i - head.len()]);
            }
        }
    }
}

/// Stuffing distributes over concatenation.
pub proof fn lemma_escape_seq_concat(a: Seq<u8>, b: Seq<u8>)
    ensures
        escape_seq(a + b) == escape_seq(a) + escape_seq(b),
    decreases a.len(),
{
    if a.len() == 0 {
        assert(a + b =~= b);
        assert(escape_seq(a) + escape_seq(b) =~= escape_seq(b));
    } else {
        assert((a + b).skip(1) =~= a.skip(1) + b);
        lemma_escape_seq_concat(a.skip(1), b);
        assert(escape_seq(a + b) =~= escape_seq(a) + escape_seq(b));
    }
}

/// How much raw material the scanner consumes: drawing logical bytes never
/// lengthens the stream, and any outcome but an empty `Taken` consumes at
/// least one raw byte.
pub proof fn lemma_read_logicals_len(s: Seq<u8>, n: nat)
    ensures
        (match read_logicals(s, n) {
            LogicalRead::Taken { bytes, rest } => {
                &&& bytes.len() == n
                &&& rest.len() + n <= s.len()
            },
            LogicalRead::Restart { rest } => n > 0 && rest.len() < s.len(),
            LogicalRead::Exhausted => true,
        }),
    decreases n,
{
    if n > 0 {
        match read_logical(s) {
            LogicalRead::Taken { bytes, rest } => {
                lemma_read_logicals_len(rest, (n - 1) as nat);
            },
            _ => {},
        }
    }
}

/// The first start byte only gets nearer as the stream is consumed.
proof fn lemma_find_start_len(s: Seq<u8>)
    ensures
        (match find_start(s) {
            Option::Some(rest) => rest.len() < s.len(),
            Option::None => true,
        }),
    decreases s.len(),
{
    if s.len() > 0 && s[0] != START_BYTE {
        lemma_find_start_len(s.skip(1));
    }
}

/// A restarted parse attempt strictly consumes raw bytes, which is what
/// lets the scanner's retry loop terminate.
pub proof fn lemma_parse_attempt_restart_shrinks(s: Seq<u8>)
    ensures
        (match parse_attempt(s) {
            FrameAttempt::Restart { rest } => rest.len() < s.len(),
            _ => true,
        }),
{
    lemma_read_logicals_len(s, 2);
    match read_logicals(s, 2) {
        LogicalRead::Taken { bytes: len_bytes, rest: after_len } => {
            let length = u16_from_pair(len_bytes[0], len_bytes[1]);
            if length < 2 {
                lemma_find_start_len(after_len);
            } else {
                lemma_read_logicals_len(after_len, 2);
                match read_logicals(after_len, 2) {
                    LogicalRead::Taken { bytes: tag_bytes, rest: after_tag } => {
                        lemma_read_logicals_len(after_tag, (length - 2) as nat);
                    },
                    _ => {},
                }
            }
        },
        _ => {},
    }
}

/// Drawing logical bytes out of a stuffed sequence undoes the stuffing:
/// the first `n` logical bytes come back verbatim and the scanner stands at
/// the stuffing boundary behind them.
proof fn lemma_read_logicals_take(b: Seq<u8>, r: Seq<u8>, n: nat)
    requires
        n <= b.len(),
    ensures
        (read_logicals(escape_seq(b) + r, n) == LogicalRead::Taken {
            bytes: b.take(n as int),
            rest: escape_seq(b.skip(n as int)) + r,
        }),
    decreases n,
{
    let s = escape_seq(b) + r;
    if n == 0 {
        assert(b.take(0) =~= Seq::<u8>::empty());
        assert(b.skip(0) =~= b);
    } else {
        lemma_xor_facts();
        let b0 = b[0];
        let tail_wire = escape_seq(b.skip(1)) + r;
        if is_sensitive(b0) {
            assert(s[0] == ESCAPE_BYTE && s[1] == (b0 ^ XOR_BYTE));
            assert(s.skip(2) =~= tail_wire);
            assert(read_logical(s) == LogicalRead::Taken {
                bytes: seq![b0],
                rest: tail_wire,
            }) by {
                assert(seq![(b0 ^ XOR_BYTE) ^ XOR_BYTE] =~= seq![b0]);
            }
        } else {
            assert(s[0] == b0);
            assert(s.skip(1) =~= tail_wire);
        }
        lemma_read_logicals_take(b.skip(1), r, (n - 1) as nat);
        assert(seq![b0] + b.skip(1).take(n - 1) =~= b.take(n as int));
        assert(b.skip(1).skip(n - 1) =~= b.skip(n as int));
    }
}

/// Garbage free of start bytes is invisible to the receiver: it scans past
/// it to the same frame it would have found without it.
pub proof fn lemma_receive_skips_garbage(g: Seq<u8>, s: Seq<u8>)
    requires
        forall|i: int| 0 <= i < g.len() ==> g[i] != START_BYTE,
    ensures
        recv_spec(g + s) == recv_spec(s),
    decreases g.len(),
{
    if g.len() == 0 {
        assert(g + s =~= s);
    } else {
        assert((g + s).skip(1) =~= g.skip(1) + s);
        lemma_receive_skips_garbage(g.skip(1), s);
    }
}

/// A parse attempt aimed at a complete stuffed frame body recovers exactly
/// its tag and payload and stops exactly behind it.
proof fn lemma_parse_attempt_frame(tag: u16, payload: Seq<u8>, r: Seq<u8>)
    requires
        payload.len() <= 65533,
    ensures
        (parse_attempt(escape_seq(frame_body(tag, payload)) + r) == FrameAttempt::Got {
            tag,
            data: payload,
            rest: r,
        }),
{
    let body = frame_body(tag, payload);
    let length = (payload.len() + 2) as u16;
    lemma_u16_le_round_trip(length);
    lemma_u16_le_round_trip(tag);

    lemma_read_logicals_take(body, r, 2);
    assert(body.take(2) =~= u16_le(length));
    assert(body.skip(2) =~= u16_le(tag) + payload);

    let mid = u16_le(tag) + payload;
    lemma_read_logicals_take(mid, r, 2);
    assert(mid.take(2) =~= u16_le(tag));
    assert(mid.skip(2) =~= payload);

    lemma_read_logicals_take(payload, r, payload.len());
    assert(payload.take(payload.len() as int) =~= payload);
    assert(payload.skip(payload.len() as int) =~= Seq::<u8>::empty());
    assert(escape_seq(payload.skip(payload.len() as int)) + r =~= r);
}

/// A drawn prefix tacked onto the front of a later read's outcome.
pub open spec fn lr_prepend(pre: Seq<u8>, lr: LogicalRead) -> LogicalRead {
    match lr {
        LogicalRead::Taken { bytes, rest } => LogicalRead::Taken { bytes: pre + bytes, rest },
        other => other,
    }
}

/// Drawing `n` logical bytes is one draw followed by `n - 1` more.
pub proof fn lemma_read_logicals_step(s: Seq<u8>, n: nat)
    requires
        n > 0,
    ensures
        (match read_logical(s) {
            LogicalRead::Taken { bytes, rest } => read_logicals(s, n) == lr_prepend(
                bytes,
                read_logicals(rest, (n - 1) as nat),
            ),
            LogicalRead::Restart { rest } => read_logicals(s, n) == LogicalRead::Restart { rest },
            LogicalRead::Exhausted => read_logicals(s, n) == LogicalRead::Exhausted,
        }),
{
}

/// Prefixes tacked on one after the other amount to their concatenation.
pub proof fn lemma_lr_prepend_assoc(a: Seq<u8>, b: Seq<u8>, lr: LogicalRead)
    ensures
        lr_prepend(a, lr_prepend(b, lr)) == lr_prepend(a + b, lr),
{
    match lr {
        LogicalRead::Taken { bytes, rest } => {
            assert(a + (b + bytes) =~= (a + b) + bytes);
            assert(lr_prepend(a, lr_prepend(b, lr)) =~= lr_prepend(a + b, lr));
        },
        _ => {},
    }
}

/// Stuffing one more logical byte appends that byte's stuffed image.
pub proof fn lemma_escape_seq_snoc(s: Seq<u8>, i: int)
    requires
        0 <= i < s.len(),
    ensures
        escape_seq(s.take(i + 1)) == escape_seq(s.take(i)) + escape_byte_spec(s[i]),
{
    assert(s.take(i + 1) =~= s.take(i) + seq![s[i]]);
    lemma_escape_seq_concat(s.take(i), seq![s[i]]);
    let single = seq![s[i]];
    assert(single.skip(1) =~= Seq::<u8>::empty());
    assert(escape_seq(single) == escape_byte_spec(s[i]) + escape_seq(single.skip(1)));
    assert(escape_seq(Seq::<u8>::empty()) =~= Seq::<u8>::empty());
    assert(escape_seq(single) =~= escape_byte_spec(s[i]));
}

/// The stuffing invariant of the wire format: within one frame the raw
/// start byte appears exactly once, as the frame's first byte.
pub proof fn lemma_frame_start_only_at_head(tag: u16, payload: Seq<u8>)
    ensures
        frame_bytes(tag, payload)[0] == START_BYTE,
        forall|i: int|
            1 <= i < frame_bytes(tag, payload).len() ==> frame_bytes(tag, payload)[i]
                != START_BYTE,
{
    let body = frame_body(tag, payload);
    lemma_escape_seq_no_start(body);
    assert forall|i: int|
        1 <= i < frame_bytes(tag, payload).len() implies frame_bytes(tag, payload)[i]
        != START_BYTE by {
        assert(frame_bytes(tag, payload)[i] == escape_seq(body)[i - 1]);
    }
}

/// Shape of a proper prefix of a stuffed sequence: it is the stuffing of a
/// proper logical prefix, possibly with a dangling escape byte behind it.
proof fn lemma_escape_prefix_shape(b: Seq<u8>, p: Seq<u8>) -> (j: int)
    requires
        p.is_prefix_of(escape_seq(b)),
        p.len() < escape_seq(b).len(),
    ensures
        0 <= j < b.len(),
        p == escape_seq(b.take(j)) || (is_sensitive(b[j]) && p == escape_seq(b.take(j))
            + seq![ESCAPE_BYTE]),
    decreases b.len(),
{
    if p.len() == 0 {
        assert(b.take(0) =~= Seq::<u8>::empty());
        assert(p =~= escape_seq(b.take(0)));
        0
    } else {
        let e0 = escape_byte_spec(b[0]);
        let tail = escape_seq(b.skip(1));
        if p.len() < e0.len() {
            assert(is_sensitive(b[0]));
            assert(p[0] == escape_seq(b)[0]);
            assert(b.take(0) =~= Seq::<u8>::empty());
            assert(p =~= escape_seq(b.take(0)) + seq![ESCAPE_BYTE]);
            0
        } else {
            let p1 = p.skip(e0.len() as int);
            assert forall|i: int| 0 <= i < p1.len() implies p1[i] == tail[i] by {
                assert(p1[i] == p[i + e0.len()]);
                assert(p[i + e0.len()] == escape_seq(b)[i + e0.len()]);
            }
            assert(p1.is_prefix_of(tail));
            let j1 = lemma_escape_prefix_shape(b.skip(1), p1);
            let c1 = b.skip(1).take(j1);
            assert(b.take(j1 + 1) =~= seq![b[0]] + c1);
            lemma_escape_seq_concat(seq![b[0]], c1);
            let single = seq![b[0]];
            assert(single.skip(1) =~= Seq::<u8>::empty());
            assert(escape_seq(single) == escape_byte_spec(b[0]) + escape_seq(single.skip(1)));
            assert(escape_seq(Seq::<u8>::empty()) =~= Seq::<u8>::empty());
            assert(escape_seq(single) =~= e0);
            assert forall|i: int| 0 <= i < e0.len() implies p[i] == e0[i] by {
                assert(p[i] == escape_seq(b)[i]);
            }
            if p1 == escape_seq(c1) {
                assert(p =~= e0 + p1);
                assert(p =~= escape_seq(b.take(j1 + 1)));
            } else {
                assert(p =~= e0 + p1);
                assert(e0 + (escape_seq(c1) + seq![ESCAPE_BYTE]) =~= escape_seq(b.take(j1 + 1))
                    + seq![ESCAPE_BYTE]);
            }
            j1 + 1
        }
    }
}

/// Drawing more logical bytes than a partial stuffed prefix carries runs
/// into the raw start byte behind the prefix and restarts exactly there;
/// a dangling escape byte does not capture that start byte.
proof fn lemma_read_logicals_cross(c: Seq<u8>, u: Seq<u8>, t: Seq<u8>, n: nat)
    requires
        n > c.len(),
        u =~= Seq::<u8>::empty() || u =~= seq![ESCAPE_BYTE],
    ensures
        (read_logicals(escape_seq(c) + u + seq![START_BYTE] + t, n) == LogicalRead::Restart {
            rest: t,
        }),
    decreases c.len(),
{
    let s = escape_seq(c) + u + seq![START_BYTE] + t;
    if c.len() == 0 {
        if u =~= Seq::<u8>::empty() {
            assert(s[0] == START_BYTE);
            assert(s.skip(1) =~= t);
        } else {
            assert(s[0] == ESCAPE_BYTE && s[1] == START_BYTE);
            assert(s.skip(2) =~= t);
        }
    } else {
        lemma_xor_facts();
        let c0 = c[0];
        let tail_wire = escape_seq(c.skip(1)) + u + seq![START_BYTE] + t;
        if is_sensitive(c0) {
            assert(s[0] == ESCAPE_BYTE && s[1] == (c0 ^ XOR_BYTE));
            assert(s.skip(2) =~= tail_wire);
        } else {
            assert(s[0] == c0);
            assert(s.skip(1) =~= tail_wire);
        }
        lemma_read_logicals_cross(c.skip(1), u, t, (n - 1) as nat);
    }
}

/// A parse attempt that begins inside a cut-off frame body and meets the
/// next frame's raw start byte abandons the partial frame there.
proof fn lemma_parse_attempt_partial(body: Seq<u8>, q: Seq<u8>, t: Seq<u8>)
    requires
        q.is_prefix_of(escape_seq(body)),
        q.len() < escape_seq(body).len(),
        body.len() >= 4,
        u16_from_pair(body[0], body[1]) == body.len() - 2,
    ensures
        (parse_attempt(q + seq![START_BYTE] + t) == FrameAttempt::Restart { rest: t }),
{
    let j = lemma_escape_prefix_shape(body, q);
    let c = body.take(j);
    let u: Seq<u8> = if q == escape_seq(c) {
        Seq::empty()
    } else {
        seq![ESCAPE_BYTE]
    };
    let s = q + seq![START_BYTE] + t;
    assert(s =~= escape_seq(c) + u + seq![START_BYTE] + t);
    let suffix = u + seq![START_BYTE] + t;

    if j < 2 {
        lemma_read_logicals_cross(c, u, t, 2);
    } else {
        assert(s =~= escape_seq(c) + suffix);
        lemma_read_logicals_take(c, suffix, 2);
        assert(c.take(2)[0] == body[0] && c.take(2)[1] == body[1]);
        let length = u16_from_pair(body[0], body[1]);
        assert(length >= 2);
        let c2 = c.skip(2);
        assert(escape_seq(c2) + suffix =~= escape_seq(c2) + u + seq![START_BYTE] + t);
        if j < 4 {
            lemma_read_logicals_cross(c2, u, t, 2);
        } else {
            lemma_read_logicals_take(c2, suffix, 2);
            let c4 = c2.skip(2);
            assert(escape_seq(c4) + suffix =~= escape_seq(c4) + u + seq![START_BYTE] + t);
            assert(c4.len() == j - 4 < (length - 2) as nat);
            lemma_read_logicals_cross(c4, u, t, (length - 2) as nat);
        }
    }
}

/// Mid-frame resync: a nonempty strict prefix of one frame, cut off by the
/// start byte of a following complete frame, is silently abandoned and the
/// following frame is received whole. Such a prefix carries exactly one raw
/// start byte, its first; the prefix must be strict, for a complete first
/// frame would itself be received.
pub proof fn lemma_mid_frame_resync(
    tag1: u16,
    payload1: Seq<u8>,
    p: Seq<u8>,
    tag2: u16,
    payload2: Seq<u8>,
    r: Seq<u8>,
)
    requires
        payload1.len() <= 65533,
        payload2.len() <= 65533,
        p.is_prefix_of(frame_bytes(tag1, payload1)),
        1 <= p.len() < frame_bytes(tag1, payload1).len(),
    ensures
        (recv_spec(p + frame_bytes(tag2, payload2) + r) == FrameAttempt::Got {
            tag: tag2,
            data: payload2,
            rest: r,
        }),
{
    let body1 = frame_body(tag1, payload1);
    let len1 = (payload1.len() + 2) as u16;
    lemma_u16_le_round_trip(len1);
    let q = p.skip(1);
    let w = p + frame_bytes(tag2, payload2) + r;
    let e2r = escape_seq(frame_body(tag2, payload2)) + r;

    assert(p[0] == frame_bytes(tag1, payload1)[0]);
    assert(w[0] == START_BYTE);
    assert forall|i: int| 0 <= i < q.len() implies q[i] == escape_seq(body1)[i] by {
        assert(q[i] == p[i + 1]);
        assert(p[i + 1] == frame_bytes(tag1, payload1)[i + 1]);
    }
    assert(q.is_prefix_of(escape_seq(body1)));

    assert(w.skip(1) =~= q + seq![START_BYTE] + e2r);
    lemma_parse_attempt_partial(body1, q, e2r);
    lemma_parse_attempt_frame(tag2, payload2, r);
    assert(find_start(w) == Option::Some(w.skip(1)));
    assert(parse_attempt(w.skip(1)) == FrameAttempt::Restart { rest: e2r });
    assert(parse_frames(w.skip(1)) == parse_frames(e2r));
    assert(parse_frames(e2r) == FrameAttempt::Got { tag: tag2, data: payload2, rest: r });
}

/// Receiving from a stream that opens with one complete frame yields that
/// frame's tag and payload and leaves the stream right behind the frame.
pub proof fn lemma_receive_frame(tag: u16, payload: Seq<u8>, r: Seq<u8>)
    requires
        payload.len() <= 65533,
    ensures
        (recv_spec(frame_bytes(tag, payload) + r) == FrameAttempt::Got {
            tag,
            data: payload,
            rest: r,
        }),
{
    let wire = frame_bytes(tag, payload) + r;
    assert(wire[0] == START_BYTE);
    assert(wire.skip(1) =~= escape_seq(frame_body(tag, payload)) + r);
    lemma_parse_attempt_frame(tag, payload, r);
}

} // verus!
