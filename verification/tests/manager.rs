use serial_framing::errors::{DecodeError, ReceiveError};
use serial_framing::messages;
use serial_framing::wire::{ESCAPE_BYTE, START_BYTE, XOR_BYTE};
use serial_framing::{MemTransport, Message, SerialManager};

fn send_to_buffer(message: Message) -> Vec<u8> {
    let mut sender = SerialManager::new(MemTransport::new(Vec::new()));
    sender.send(message).unwrap();
    sender.into_connection().into_written()
}

fn receiver_for(bytes: Vec<u8>) -> SerialManager<MemTransport> {
    SerialManager::new(MemTransport::new(bytes))
}

fn get_test_cases() -> Vec<(Message, Vec<u8>)> {
    vec![
        (
            Message::NoOp(messages::NoOp {}),
            vec![
                START_BYTE, // Start byte
                0x02, 0x00, // Length (2 bytes for message type)
                0x04, 0x00, // Message type (4)
            ],
        ),
        (
            Message::U8(messages::U8 { num: 0x57 }),
            vec![
                START_BYTE, // Start byte
                0x03, 0x00, // Length (2 bytes for message type + 1 byte data)
                0x01, 0x00, // Message type (1)
                0x57, // The u8 value
            ],
        ),
        (
            Message::Bytes(messages::Bytes {
                data: vec![1, 2, 3, 4, 5],
            }),
            vec![
                START_BYTE, // Start byte
                0x07, 0x00, // Length (2 bytes for message type + 5 bytes data)
                0x00, 0x00, // Message type (0)
                1, 2, 3, 4, 5, // The bytes
            ],
        ),
        (
            Message::U16(messages::U16 { num: 0x1234 }),
            vec![
                START_BYTE, // Start byte
                0x04, 0x00, // Length (2 bytes for message type + 2 bytes data)
                0x05, 0x00, // Message type (5)
                0x34, 0x12, // The u16 value in little-endian
            ],
        ),
        (
            Message::Multi(messages::Multi {
                num: 0x41,
                string: "test".to_string(),
            }),
            vec![
                START_BYTE, // Start byte
                0x07,
                0x00, // Length (2 bytes for message type + 1 byte for num + 4 bytes for string)
                0x03, 0x00, // Message type (3)
                0x41, // The u8 value
                b't', b'e', b's', b't', // The string bytes
            ],
        ),
        // Test case with START_BYTE in data
        (
            Message::Bytes(messages::Bytes {
                data: vec![START_BYTE],
            }),
            vec![
                START_BYTE, // Start byte
                0x03,
                0x00, // Length (2 bytes for message type + 1 byte data)
                0x00,
                0x00, // Message type (0)
                ESCAPE_BYTE,
                START_BYTE ^ XOR_BYTE, // Escaped START_BYTE
            ],
        ),
        // Test case with ESCAPE_BYTE in data
        (
            Message::Bytes(messages::Bytes {
                data: vec![ESCAPE_BYTE],
            }),
            vec![
                START_BYTE, // Start byte
                0x03,
                0x00, // Length (2 bytes for message type + 1 byte data)
                0x00,
                0x00, // Message type (0)
                ESCAPE_BYTE,
                ESCAPE_BYTE ^ XOR_BYTE, // Escaped ESCAPE_BYTE
            ],
        ),
        // Test case with multiple bytes needing escaping
        (
            Message::Bytes(messages::Bytes {
                data: vec![START_BYTE, ESCAPE_BYTE, START_BYTE],
            }),
            vec![
                START_BYTE, // Start byte
                0x05,
                0x00, // Length (2 bytes for message type + 3 bytes data)
                0x00,
                0x00, // Message type (0)
                // Each byte that needs escaping is preceded by ESCAPE_BYTE and XORed with XOR_BYTE
                ESCAPE_BYTE,
                START_BYTE ^ XOR_BYTE,
                ESCAPE_BYTE,
                ESCAPE_BYTE ^ XOR_BYTE,
                ESCAPE_BYTE,
                START_BYTE ^ XOR_BYTE,
            ],
        ),
        // Test case with ESCAPE_BYTE in length field (length = 0x0042)
        (
            Message::Bytes(messages::Bytes {
                data: vec![0; 0x40], // 64 bytes of data + 2 bytes message type = 0x42 (ESCAPE_BYTE)
            }),
            {
                let mut bytes = vec![
                    START_BYTE,  // Start byte
                    ESCAPE_BYTE, // Escape the 0x42 in length
                    ESCAPE_BYTE ^ XOR_BYTE,
                    0x00,
                    0x00,
                    0x00, // Message type (0)
                ];
                bytes.extend(vec![0; 0x40]); // Add 64 zeros
                bytes
            },
        ),
    ]
}

#[test]
fn test_send_raw_bytes() {
    for (message, expected_bytes) in get_test_cases() {
        let sent_bytes = send_to_buffer(message);
        assert_eq!(sent_bytes, expected_bytes);

        // Nothing beyond the frame itself was written
        assert_eq!(sent_bytes.len(), expected_bytes.len());
    }
}

#[test]
fn test_receive_raw_bytes() {
    for (expected_message, bytes_to_send) in get_test_cases() {
        let mut receiver = receiver_for(bytes_to_send);

        let received_message = receiver.receive().unwrap();
        assert_eq!(received_message, expected_message);
    }
}

#[test]
fn test_send_receive() {
    // Get just the messages from test cases, discarding the raw bytes
    let test_messages: Vec<Message> = get_test_cases().into_iter().map(|(msg, _)| msg).collect();

    for message in test_messages {
        let wire_bytes = send_to_buffer(message.clone());
        let mut receiver = receiver_for(wire_bytes);
        let result = receiver.receive().unwrap();
        assert_eq!(message, result);
    }
}

#[test]
fn test_receive_with_garbage_prefix() {
    // Some random bytes that aren't the start byte
    let garbage = vec![0x00, 0xFF, 0x42, 0x13];

    // Take a simple message from our test cases
    let (expected_message, message_bytes) = get_test_cases()[0].clone();

    // Send garbage followed by actual message
    let mut combined_bytes = garbage;
    combined_bytes.extend(message_bytes);
    let mut receiver = receiver_for(combined_bytes);

    // Should still receive correct message
    let received_message = receiver.receive().unwrap();
    assert_eq!(received_message, expected_message);
}

#[test]
fn test_receive_multiple_packets() {
    // Take two different messages from our test cases
    let (expected_message1, message_bytes1) = get_test_cases()[0].clone(); // NoOp
    let (expected_message2, message_bytes2) = get_test_cases()[1].clone(); // U8

    // Send both messages back to back
    let mut combined_bytes = Vec::new();
    combined_bytes.extend(&message_bytes1);
    combined_bytes.extend(&message_bytes2);
    let mut receiver = receiver_for(combined_bytes);

    // Should receive first message
    let received_message1 = receiver.receive().unwrap();
    assert_eq!(received_message1, expected_message1);

    // Should receive second message
    let received_message2 = receiver.receive().unwrap();
    assert_eq!(received_message2, expected_message2);
}

#[test]
fn test_receive_with_interleaved_garbage() {
    // Take two different messages from our test cases
    let (expected_message1, message_bytes1) = get_test_cases()[0].clone(); // NoOp
    let (expected_message2, message_bytes2) = get_test_cases()[1].clone(); // U8

    // Some random bytes that aren't the start byte
    let garbage = vec![0x00, 0xFF, 0x42, 0x13, 0x37];

    // Send first message, then garbage, then second message
    let mut combined_bytes = Vec::new();
    combined_bytes.extend(&message_bytes1);
    combined_bytes.extend(&garbage);
    combined_bytes.extend(&message_bytes2);
    let mut receiver = receiver_for(combined_bytes);

    // Should receive first message
    let received_message1 = receiver.receive().unwrap();
    assert_eq!(received_message1, expected_message1);

    // Should receive second message
    let received_message2 = receiver.receive().unwrap();
    assert_eq!(received_message2, expected_message2);
}

#[test]
fn test_receive_interrupted_message() {
    // Take a Bytes message from our test cases that will be interrupted
    let (_, message_bytes1) = get_test_cases()[2].clone(); // Bytes message

    // Take another message that will be received successfully
    let (expected_message2, message_bytes2) = get_test_cases()[0].clone(); // NoOp message

    // Send the start byte, length, message type, and first few bytes of data
    let data_start = 4; // Skip past start byte, length bytes, and message type bytes
    let partial_length = data_start + 2; // Send a couple bytes of the actual data
    let mut combined_bytes = message_bytes1[..partial_length].to_vec();

    // Send the complete second message
    combined_bytes.extend(&message_bytes2);
    let mut receiver = receiver_for(combined_bytes);

    // Should receive the second message correctly, first message should be discarded
    let received_message = receiver.receive().unwrap();
    assert_eq!(received_message, expected_message2);
}

#[test]
fn test_receive_interrupted_at_start() {
    // Take a message that will be received successfully
    let (expected_message, message_bytes) = get_test_cases()[0].clone(); // NoOp message

    // Send just a start byte, then the complete message
    let mut combined_bytes = vec![START_BYTE];
    combined_bytes.extend(&message_bytes);
    let mut receiver = receiver_for(combined_bytes);

    // Should receive the complete message correctly, ignoring the stray start byte
    let received_message = receiver.receive().unwrap();
    assert_eq!(received_message, expected_message);
}

#[test]
fn test_receive_interrupted_length() {
    // Take a message that will be received successfully
    let (expected_message, message_bytes) = get_test_cases()[0].clone(); // NoOp message

    // Send start byte and first byte of length, then the complete message
    let mut combined_bytes = vec![START_BYTE, 0x42]; // Random first byte of length
    combined_bytes.extend(&message_bytes);
    let mut receiver = receiver_for(combined_bytes);

    // Should receive the complete message correctly, ignoring the interrupted message
    let received_message = receiver.receive().unwrap();
    assert_eq!(received_message, expected_message);
}

#[test]
fn test_receive_interrupted_message_type() {
    // Take a message that will be received successfully
    let (expected_message, message_bytes) = get_test_cases()[0].clone(); // NoOp message

    // Send start byte, length bytes, and first byte of message type
    let mut combined_bytes = vec![
        START_BYTE, 0x02, 0x00, // Length bytes
        0xFF, // First byte of message type
    ];

    // Send the complete message
    combined_bytes.extend(&message_bytes);
    let mut receiver = receiver_for(combined_bytes);

    // Should receive the complete message correctly, ignoring the interrupted message
    let received_message = receiver.receive().unwrap();
    assert_eq!(received_message, expected_message);
}

#[test]
fn test_receive_invalid_message_type() {
    let invalid_message = vec![
        START_BYTE, // Start byte
        0x02, 0x00, // Length (2 bytes for message type)
        0x07, 0x00, // Invalid message type (7; 0 through 6 are taken)
    ];

    let mut receiver = receiver_for(invalid_message);

    assert!(matches!(
        receiver.receive(),
        Err(ReceiveError::Decode(DecodeError::InvalidMessageType(7)))
    ));
}

#[test]
fn test_invalid_utf8() {
    let invalid_string_message = vec![
        START_BYTE, 0x04, 0x00, // Length (2 bytes type + 2 bytes data)
        0x02, 0x00, // Message type (2 = MyString)
        0xFF, 0xFF, // Invalid UTF-8 bytes
    ];
    let mut receiver = receiver_for(invalid_string_message);

    assert!(matches!(
        receiver.receive(),
        Err(ReceiveError::Decode(DecodeError::InvalidUtf8))
    ));
}
