use serial_framing::errors::{IoError, ReceiveError};
use serial_framing::messages::{Bytes, Multi, MyString, NoOp, Status, U16, U8};
use serial_framing::wire::START_BYTE;
use serial_framing::{MemTransport, Message, SerialManager};

fn send_to_buffer(message: Message) -> Vec<u8> {
    let mut sender = SerialManager::new(MemTransport::new(Vec::new()));
    sender.send(message).unwrap();
    sender.into_connection().into_written()
}

fn receive_from(bytes: Vec<u8>) -> Result<Message, ReceiveError> {
    SerialManager::new(MemTransport::new(bytes)).receive()
}

#[test]
fn noop_wire_image() {
    assert_eq!(
        send_to_buffer(Message::NoOp(NoOp {})),
        vec![0x58, 0x02, 0x00, 0x04, 0x00]
    );
}

#[test]
fn u8_wire_image() {
    assert_eq!(
        send_to_buffer(Message::U8(U8 { num: 0x57 })),
        vec![0x58, 0x03, 0x00, 0x01, 0x00, 0x57]
    );
}

#[test]
fn bytes_wire_image() {
    assert_eq!(
        send_to_buffer(Message::Bytes(Bytes { data: vec![1, 2, 3, 4, 5] })),
        vec![0x58, 0x07, 0x00, 0x00, 0x00, 0x01, 0x02, 0x03, 0x04, 0x05]
    );
}

#[test]
fn u16_wire_image() {
    assert_eq!(
        send_to_buffer(Message::U16(U16 { num: 0x1234 })),
        vec![0x58, 0x04, 0x00, 0x05, 0x00, 0x34, 0x12]
    );
}

#[test]
fn start_byte_in_payload_is_escaped() {
    assert_eq!(
        send_to_buffer(Message::Bytes(Bytes { data: vec![0x58] })),
        vec![0x58, 0x03, 0x00, 0x00, 0x00, 0x42, 0x31]
    );
}

#[test]
fn escape_byte_in_length_field() {
    // 64 payload bytes plus the two tag bytes give logical length 0x0042,
    // whose low byte is the escape byte and must itself be escaped.
    let message = Message::Bytes(Bytes { data: vec![0; 64] });
    let mut expected = vec![0x58, 0x42, 0x2B, 0x00, 0x00, 0x00];
    expected.extend(vec![0u8; 64]);
    assert_eq!(send_to_buffer(message), expected);
}

#[test]
fn mystring_wire_image() {
    assert_eq!(
        send_to_buffer(Message::MyString(MyString { string: "hi".to_string() })),
        vec![0x58, 0x04, 0x00, 0x02, 0x00, b'h', b'i']
    );
}

#[test]
fn multi_wire_image() {
    assert_eq!(
        send_to_buffer(Message::Multi(Multi { num: 0x07, string: "ab".to_string() })),
        vec![0x58, 0x05, 0x00, 0x03, 0x00, 0x07, b'a', b'b']
    );
}

#[test]
fn status_wire_round_trip() {
    for status in [Status::Okay, Status::Error, Status::Pending] {
        let message = Message::Status(status);
        let wire = send_to_buffer(message.clone());
        assert_eq!(wire.len(), 6);
        assert_eq!(receive_from(wire).unwrap(), message);
    }
}

#[test]
fn garbage_prefix_with_lone_escape_byte() {
    // The 0x42 in the garbage region is not an escape: escapes mean
    // something only after a start byte.
    let wire = vec![0x00, 0xFF, 0x42, 0x13, 0x58, 0x02, 0x00, 0x04, 0x00];
    assert_eq!(receive_from(wire).unwrap(), Message::NoOp(NoOp {}));
}

#[test]
fn four_byte_frame_prefix_then_noop() {
    // The first four bytes of a Bytes frame, then a complete NoOp frame.
    let mut wire = vec![0x58, 0x07, 0x00, 0x00];
    wire.extend(vec![0x58, 0x02, 0x00, 0x04, 0x00]);
    assert_eq!(receive_from(wire).unwrap(), Message::NoOp(NoOp {}));
}

#[test]
fn dangling_escape_before_start_resyncs() {
    // A bare escape byte right before a start byte does not capture it:
    // the first frame is abandoned and a new frame begins at the start.
    let wire = vec![0x58, 0x42, 0x58, 0x02, 0x00, 0x04, 0x00];
    assert_eq!(receive_from(wire).unwrap(), Message::NoOp(NoOp {}));
}

#[test]
fn length_under_two_awaits_next_start() {
    // A frame announcing length 1 cannot carry a tag; the receiver
    // abandons it and waits for the next start byte.
    let wire = vec![0x58, 0x01, 0x00, 0x58, 0x02, 0x00, 0x04, 0x00];
    assert_eq!(receive_from(wire).unwrap(), Message::NoOp(NoOp {}));
}

#[test]
fn length_zero_awaits_next_start() {
    let wire = vec![0x58, 0x00, 0x00, 0x58, 0x03, 0x00, 0x01, 0x00, 0x2A];
    assert_eq!(receive_from(wire).unwrap(), Message::U8(U8 { num: 0x2A }));
}

#[test]
fn empty_bytes_payload() {
    let message = Message::Bytes(Bytes { data: vec![] });
    let wire = send_to_buffer(message.clone());
    assert_eq!(wire, vec![0x58, 0x02, 0x00, 0x00, 0x00]);
    assert_eq!(receive_from(wire).unwrap(), message);
}

#[test]
fn payload_entirely_of_sensitive_bytes() {
    let message = Message::Bytes(Bytes { data: vec![0x58, 0x42, 0x58, 0x42] });
    let wire = send_to_buffer(message.clone());
    // Each sensitive logical byte costs exactly two raw bytes: the escape
    // never cascades.
    assert_eq!(wire.len(), 5 + 2 * 4);
    assert_eq!(receive_from(wire).unwrap(), message);
}

#[test]
fn start_byte_only_opens_the_frame() {
    // The stuffing invariant, on concrete frames: the start byte appears
    // on the wire only as the first byte of each frame.
    let samples = vec![
        Message::Bytes(Bytes { data: vec![0x58, 0x42, 0x31, 0x2B, 0x69] }),
        Message::U16(U16 { num: 0x5842 }),
        Message::U8(U8 { num: 0x58 }),
    ];
    for message in samples {
        let wire = send_to_buffer(message);
        assert_eq!(wire[0], START_BYTE);
        assert!(wire[1..].iter().all(|&b| b != START_BYTE));
    }
}

#[test]
fn consecutive_sends_abut_exactly() {
    // Length fidelity: the second frame begins at the byte right after the
    // first frame's last byte, with nothing in between or after.
    let first = Message::U8(U8 { num: 0x57 });
    let second = Message::U16(U16 { num: 0x1234 });

    let mut sender = SerialManager::new(MemTransport::new(Vec::new()));
    sender.send(first.clone()).unwrap();
    let first_len = sender.into_connection().into_written().len();

    let mut sender = SerialManager::new(MemTransport::new(Vec::new()));
    sender.send(first.clone()).unwrap();
    sender.send(second.clone()).unwrap();
    let both = sender.into_connection().into_written();

    let mut expected = send_to_buffer(first);
    expected.extend(send_to_buffer(second));
    assert_eq!(both, expected);
    assert_eq!(first_len, 6);

    let mut receiver = SerialManager::new(MemTransport::new(both));
    receiver.receive().unwrap();
    let tail = receiver.receive().unwrap();
    assert_eq!(tail, Message::U16(U16 { num: 0x1234 }));
}

#[test]
fn maximum_length_payload() {
    // The largest payload a frame can carry: logical length 0xFFFF.
    let message = Message::Bytes(Bytes { data: vec![0xAB; 65533] });
    let wire = send_to_buffer(message.clone());
    assert_eq!(wire.len(), 1 + 4 + 65533);
    assert_eq!(receive_from(wire).unwrap(), message);
}

#[test]
fn exhausted_stream_is_an_io_error() {
    assert!(matches!(
        receive_from(vec![]),
        Err(ReceiveError::Io(IoError::UnexpectedEof))
    ));
    // Garbage with no start byte in it
    assert!(matches!(
        receive_from(vec![0x01, 0x02, 0x42, 0xFF]),
        Err(ReceiveError::Io(IoError::UnexpectedEof))
    ));
    // A frame cut short by the end of the stream
    assert!(matches!(
        receive_from(vec![0x58, 0x07, 0x00, 0x00, 0x00, 0x01]),
        Err(ReceiveError::Io(IoError::UnexpectedEof))
    ));
}
