use termchat::protocol::{DecodeError, Message, UserInfo};

fn round_trip(m: &Message) -> Message {
    Message::from_bytes(&m.to_bytes()).expect("an encoded message must parse")
}

#[test]
fn join_round_trips() {
    let m = Message::Join { id: 7, username: "alice".to_string() };
    match round_trip(&m) {
        Message::Join { id, username } => {
            assert_eq!(id, 7);
            assert_eq!(username, "alice");
        }
        _ => panic!("wrong variant"),
    }
}

#[test]
fn leave_round_trips() {
    let m = Message::Leave { id: u128::MAX };
    match round_trip(&m) {
        Message::Leave { id } => assert_eq!(id, u128::MAX),
        _ => panic!("wrong variant"),
    }
}

#[test]
fn chat_round_trips() {
    let m = Message::Chat {
        id: 3,
        username: "bob".to_string(),
        text: "héllo — ünïcode ✓".to_string(),
        timestamp: 1_700_000_000,
    };
    match round_trip(&m) {
        Message::Chat { id, username, text, timestamp } => {
            assert_eq!(id, 3);
            assert_eq!(username, "bob");
            assert_eq!(text, "héllo — ünïcode ✓");
            assert_eq!(timestamp, 1_700_000_000);
        }
        _ => panic!("wrong variant"),
    }
}

#[test]
fn video_frame_round_trips() {
    let m = Message::VideoFrame {
        id: 9,
        username: "cam".to_string(),
        frame: vec![0, 1, 2, 253, 254, 255],
    };
    match round_trip(&m) {
        Message::VideoFrame { id, username, frame } => {
            assert_eq!(id, 9);
            assert_eq!(username, "cam");
            assert_eq!(frame, vec![0, 1, 2, 253, 254, 255]);
        }
        _ => panic!("wrong variant"),
    }
}

#[test]
fn user_list_round_trips() {
    let m = Message::UserList {
        users: vec![
            UserInfo { id: 1, username: "a".to_string(), joined_at: 10 },
            UserInfo { id: 2, username: "b".to_string(), joined_at: 20 },
        ],
    };
    match round_trip(&m) {
        Message::UserList { users } => {
            assert_eq!(users.len(), 2);
            assert_eq!(users[0].id, 1);
            assert_eq!(users[0].username, "a");
            assert_eq!(users[0].joined_at, 10);
            assert_eq!(users[1].id, 2);
            assert_eq!(users[1].username, "b");
            assert_eq!(users[1].joined_at, 20);
        }
        _ => panic!("wrong variant"),
    }
}

#[test]
fn server_info_round_trips_with_and_without_url() {
    let m = Message::ServerInfo {
        ngrok_url: Some("wss://example.test/ws".to_string()),
        room_name: "Terminal Chat Room".to_string(),
    };
    match round_trip(&m) {
        Message::ServerInfo { ngrok_url, room_name } => {
            assert_eq!(ngrok_url.as_deref(), Some("wss://example.test/ws"));
            assert_eq!(room_name, "Terminal Chat Room");
        }
        _ => panic!("wrong variant"),
    }
    let m = Message::ServerInfo { ngrok_url: None, room_name: "r".to_string() };
    match round_trip(&m) {
        Message::ServerInfo { ngrok_url, room_name } => {
            assert_eq!(ngrok_url, None);
            assert_eq!(room_name, "r");
        }
        _ => panic!("wrong variant"),
    }
}

#[test]
fn error_round_trips() {
    let m = Message::Error { message: "boom".to_string() };
    match round_trip(&m) {
        Message::Error { message } => assert_eq!(message, "boom"),
        _ => panic!("wrong variant"),
    }
}

#[test]
fn rejects_empty_and_unknown_tag() {
    assert!(matches!(Message::from_bytes(&[]), Err(DecodeError)));
    assert!(matches!(Message::from_bytes(&[0]), Err(DecodeError)));
    assert!(matches!(Message::from_bytes(&[8]), Err(DecodeError)));
    assert!(matches!(Message::from_bytes(&[255]), Err(DecodeError)));
}

#[test]
fn rejects_truncated_message() {
    let bytes = Message::Leave { id: 5 }.to_bytes();
    assert!(Message::from_bytes(&bytes[..bytes.len() - 1]).is_err());
    let bytes = Message::Error { message: "hello".to_string() }.to_bytes();
    assert!(Message::from_bytes(&bytes[..bytes.len() - 2]).is_err());
}

#[test]
fn rejects_trailing_byte() {
    let mut bytes = Message::Leave { id: 5 }.to_bytes();
    bytes.push(0);
    assert!(matches!(Message::from_bytes(&bytes), Err(DecodeError)));
}

#[test]
fn rejects_surrogate_scalar_value() {
    // An Error message claiming one character whose 32-bit value is 0xD800,
    // which no real character may hold.
    let mut bytes = vec![7u8];
    bytes.extend_from_slice(&1u64.to_le_bytes());
    bytes.extend_from_slice(&0xD800u32.to_le_bytes());
    assert!(matches!(Message::from_bytes(&bytes), Err(DecodeError)));
}

#[test]
fn encoding_is_deterministic() {
    let m = Message::Chat {
        id: 3,
        username: "bob".to_string(),
        text: "hi".to_string(),
        timestamp: 4,
    };
    assert_eq!(m.to_bytes(), m.to_bytes());
}
