use clip_sync::protocol::{DecodeError, HistoryEntry, Message};

#[test]
fn test_message_serialization() {
    let msg = Message::Ping;
    let bytes = msg.to_bytes().unwrap();
    let (decoded, size) = Message::from_bytes(&bytes).unwrap();

    assert_eq!(size, bytes.len());
    matches!(decoded, Message::Ping);
}

#[test]
fn test_clipboard_update_message() {
    let msg = Message::ClipboardUpdate {
        content_type: "text".to_string(),
        content: "Hello, World!".to_string(),
        timestamp: 1_700_000_000,
        source: "macos".to_string(),
        checksum: "abc123".to_string(),
    };

    let bytes = msg.to_bytes().unwrap();
    let (decoded, _) = Message::from_bytes(&bytes).unwrap();

    match decoded {
        Message::ClipboardUpdate { content, .. } => {
            assert_eq!(content, "Hello, World!");
        }
        _ => panic!("Wrong message type"),
    }
}

fn round_trip(msg: Message) -> Message {
    let bytes = msg.to_bytes().unwrap();
    let (decoded, size) = Message::from_bytes(&bytes).unwrap();
    assert_eq!(size, bytes.len());
    decoded
}

#[test]
fn round_trip_auth() {
    match round_trip(Message::Auth { token: "sesame-42".to_string() }) {
        Message::Auth { token } => assert_eq!(token, "sesame-42"),
        _ => panic!("wrong variant"),
    }
}

#[test]
fn round_trip_auth_response() {
    match round_trip(Message::AuthResponse { success: false, message: "no".to_string() }) {
        Message::AuthResponse { success, message } => {
            assert!(!success);
            assert_eq!(message, "no");
        }
        _ => panic!("wrong variant"),
    }
}

#[test]
fn round_trip_strings_needing_escapes() {
    let tricky = "a \"quoted\" piece, a back\\slash,\na newline, a tab\t, nul \u{0}, and beyond ascii: \u{e9}\u{4e2d}\u{1f4cb}";
    match round_trip(Message::Error { message: tricky.to_string() }) {
        Message::Error { message } => assert_eq!(message, tricky),
        _ => panic!("wrong variant"),
    }
}

#[test]
fn round_trip_ack_and_pong() {
    match round_trip(Message::ClipboardAck { checksum: "00ff".to_string(), success: true }) {
        Message::ClipboardAck { checksum, success } => {
            assert_eq!(checksum, "00ff");
            assert!(success);
        }
        _ => panic!("wrong variant"),
    }
    matches!(round_trip(Message::Pong), Message::Pong);
}

#[test]
fn round_trip_history_request() {
    match round_trip(Message::HistoryRequest { limit: 20, offset: 0 }) {
        Message::HistoryRequest { limit, offset } => {
            assert_eq!(limit, 20);
            assert_eq!(offset, 0);
        }
        _ => panic!("wrong variant"),
    }
}

#[test]
fn round_trip_negative_timestamp() {
    match round_trip(Message::ClipboardUpdate {
        content_type: "text".to_string(),
        content: "x".to_string(),
        timestamp: -12345,
        source: "s".to_string(),
        checksum: "c".to_string(),
    }) {
        Message::ClipboardUpdate { timestamp, .. } => assert_eq!(timestamp, -12345),
        _ => panic!("wrong variant"),
    }
}

#[test]
fn round_trip_history_response() {
    let entries = vec![
        HistoryEntry {
            id: 1,
            content_type: "text".to_string(),
            content: "first".to_string(),
            source: "alpha".to_string(),
            timestamp: 100,
            checksum: "aa".to_string(),
        },
        HistoryEntry {
            id: 2,
            content_type: "image".to_string(),
            content: "AAAA".to_string(),
            source: "beta".to_string(),
            timestamp: -5,
            checksum: "bb".to_string(),
        },
    ];
    match round_trip(Message::HistoryResponse { entries }) {
        Message::HistoryResponse { entries } => {
            assert_eq!(entries.len(), 2);
            assert_eq!(entries[0].id, 1);
            assert_eq!(entries[0].content, "first");
            assert_eq!(entries[1].timestamp, -5);
            assert_eq!(entries[1].content_type, "image");
        }
        _ => panic!("wrong variant"),
    }
}

#[test]
fn round_trip_empty_history_response() {
    match round_trip(Message::HistoryResponse { entries: Vec::new() }) {
        Message::HistoryResponse { entries } => assert_eq!(entries.len(), 0),
        _ => panic!("wrong variant"),
    }
}

#[test]
fn partial_frame_needs_more_data() {
    let bytes = Message::Ping.to_bytes().unwrap();
    for cut in 0..bytes.len() {
        match Message::from_bytes(&bytes[..cut]) {
            Err(DecodeError::NeedMoreData) => {}
            _ => panic!("a truncated frame must ask for more data"),
        }
    }
}

#[test]
fn decode_consumes_one_frame_of_a_stream() {
    let mut stream = Message::Ping.to_bytes().unwrap();
    let first_len = stream.len();
    stream.extend_from_slice(&Message::Pong.to_bytes().unwrap());
    let (first, consumed) = Message::from_bytes(&stream).unwrap();
    matches!(first, Message::Ping);
    assert_eq!(consumed, first_len);
    let (second, consumed2) = Message::from_bytes(&stream[consumed..]).unwrap();
    matches!(second, Message::Pong);
    assert_eq!(consumed + consumed2, stream.len());
}

#[test]
fn malformed_payload_is_rejected() {
    // A complete frame whose payload is not a message.
    let mut bytes = vec![0u8, 0, 0, 3];
    bytes.extend_from_slice(b"abc");
    match Message::from_bytes(&bytes) {
        Err(DecodeError::Malformed) => {}
        _ => panic!("garbage payload must be a framing error"),
    }
}

#[test]
fn frame_length_counts_payload_bytes() {
    let msg = Message::Error { message: "hi".to_string() };
    let bytes = msg.to_bytes().unwrap();
    let declared =
        u32::from_be_bytes([bytes[0], bytes[1], bytes[2], bytes[3]]) as usize;
    assert_eq!(declared + 4, bytes.len());
}
