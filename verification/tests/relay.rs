use termchat::hub::Hub;
use termchat::protocol::Message;
use termchat::session::{Session, TeardownGuard};

#[test]
fn join_publishes_join_then_snapshot() {
    let mut hub = Hub::new();
    let out = hub.join(1, "alice".to_string(), 100);
    assert_eq!(out.len(), 2);
    match &out[0] {
        Message::Join { id, username } => {
            assert_eq!(*id, 1);
            assert_eq!(username, "alice");
        }
        _ => panic!("first event must be Join"),
    }
    match &out[1] {
        Message::UserList { users } => {
            assert_eq!(users.len(), 1);
            assert_eq!(users[0].id, 1);
            assert_eq!(users[0].username, "alice");
            assert_eq!(users[0].joined_at, 100);
        }
        _ => panic!("second event must be UserList"),
    }
}

#[test]
fn first_join_wins() {
    let mut hub = Hub::new();
    hub.join(1, "alice".to_string(), 100);
    let out = hub.join(1, "bob".to_string(), 200);
    assert_eq!(hub.users.len(), 1);
    assert_eq!(hub.users[0].username, "alice");
    assert_eq!(hub.users[0].joined_at, 100);
    match &out[0] {
        Message::Join { username, .. } => assert_eq!(username, "alice"),
        _ => panic!("first event must be Join"),
    }
}

#[test]
fn chat_before_join_publishes_nothing() {
    let hub = Hub::new();
    assert!(hub.chat(1, "hi".to_string(), 5).is_none());
}

#[test]
fn chat_stamps_roster_name_and_time() {
    let mut hub = Hub::new();
    hub.join(1, "alice".to_string(), 100);
    match hub.chat(1, "hi".to_string(), 123) {
        Some(Message::Chat { id, username, text, timestamp }) => {
            assert_eq!(id, 1);
            assert_eq!(username, "alice");
            assert_eq!(text, "hi");
            assert_eq!(timestamp, 123);
        }
        _ => panic!("expected a Chat event"),
    }
}

#[test]
fn frame_guarded_and_opaque() {
    let mut hub = Hub::new();
    assert!(hub.frame(1, vec![1, 2, 3]).is_none());
    hub.join(1, "alice".to_string(), 100);
    match hub.frame(1, vec![1, 2, 3]) {
        Some(Message::VideoFrame { id, username, frame }) => {
            assert_eq!(id, 1);
            assert_eq!(username, "alice");
            assert_eq!(frame, vec![1, 2, 3]);
        }
        _ => panic!("expected a VideoFrame event"),
    }
}

#[test]
fn frames_keep_publish_order_per_sender() {
    let mut hub = Hub::new();
    hub.join(1, "alice".to_string(), 100);
    let e1 = hub.frame(1, vec![1]).unwrap();
    let e2 = hub.frame(1, vec![2]).unwrap();
    let log = vec![e1, e2];
    match (&log[0], &log[1]) {
        (Message::VideoFrame { frame: f1, .. }, Message::VideoFrame { frame: f2, .. }) => {
            assert_eq!(*f1, vec![1]);
            assert_eq!(*f2, vec![2]);
        }
        _ => panic!("expected two VideoFrame events"),
    }
}

#[test]
fn join_join_leave_keeps_only_second() {
    let mut hub = Hub::new();
    hub.join(1, "a".to_string(), 10);
    hub.join(2, "b".to_string(), 20);
    let out = hub.leave(1);
    assert!(matches!(out, Some(Message::Leave { id: 1 })));
    assert_eq!(hub.users.len(), 1);
    assert_eq!(hub.users[0].id, 2);
    assert_eq!(hub.users[0].username, "b");
    // The snapshot published for a later join lists exactly B's entry.
    let out = hub.join(3, "c".to_string(), 30);
    match &out[1] {
        Message::UserList { users } => {
            assert_eq!(users.len(), 2);
            assert_eq!(users[0].id, 2);
            assert_eq!(users[0].username, "b");
        }
        _ => panic!("second event must be UserList"),
    }
}

#[test]
fn leave_is_idempotent() {
    let mut hub = Hub::new();
    hub.join(1, "alice".to_string(), 100);
    assert!(hub.leave(1).is_some());
    assert!(hub.leave(1).is_none());
    assert_eq!(hub.users.len(), 0);
}

#[test]
fn server_info_carries_endpoint() {
    let mut hub = Hub::new();
    match hub.server_info() {
        Message::ServerInfo { ngrok_url, room_name } => {
            assert_eq!(ngrok_url, None);
            assert_eq!(room_name, "Terminal Chat Room");
        }
        _ => panic!("expected ServerInfo"),
    }
    hub.set_ngrok_url("wss://example.test/ws".to_string());
    match hub.server_info() {
        Message::ServerInfo { ngrok_url, .. } => {
            assert_eq!(ngrok_url.as_deref(), Some("wss://example.test/ws"));
        }
        _ => panic!("expected ServerInfo"),
    }
}

#[test]
fn session_ignores_chat_until_join() {
    let mut hub = Hub::new();
    let mut s = Session::with_id(42);
    let msg = Message::Chat {
        id: 42,
        username: String::new(),
        text: "early".to_string(),
        timestamp: 0,
    };
    let out = s.on_message(&mut hub, msg, 1);
    assert!(out.is_empty());
    assert!(s.name.is_none());
}

#[test]
fn session_retags_with_its_own_identity() {
    let mut hub = Hub::new();
    let mut s = Session::with_id(42);
    let out = s.on_message(
        &mut hub,
        Message::Join { id: 999, username: "alice".to_string() },
        7,
    );
    assert_eq!(out.len(), 2);
    match &out[0] {
        Message::Join { id, username } => {
            assert_eq!(*id, 42);
            assert_eq!(username, "alice");
        }
        _ => panic!("first event must be Join"),
    }
    // A chat that lies about its id and name goes out under the session's
    // id and the roster's name.
    let out = s.on_message(
        &mut hub,
        Message::Chat {
            id: 999,
            username: "mallory".to_string(),
            text: "hi".to_string(),
            timestamp: 0,
        },
        8,
    );
    assert_eq!(out.len(), 1);
    match &out[0] {
        Message::Chat { id, username, text, timestamp } => {
            assert_eq!(*id, 42);
            assert_eq!(username, "alice");
            assert_eq!(text, "hi");
            assert_eq!(*timestamp, 8);
        }
        _ => panic!("expected a Chat event"),
    }
    // Same for video frames.
    let out = s.on_message(
        &mut hub,
        Message::VideoFrame { id: 999, username: "mallory".to_string(), frame: vec![5] },
        9,
    );
    assert_eq!(out.len(), 1);
    match &out[0] {
        Message::VideoFrame { id, username, frame } => {
            assert_eq!(*id, 42);
            assert_eq!(username, "alice");
            assert_eq!(*frame, vec![5]);
        }
        _ => panic!("expected a VideoFrame event"),
    }
}

#[test]
fn session_ignores_inbound_control_variants() {
    let mut hub = Hub::new();
    let mut s = Session::with_id(1);
    let out = s.on_message(&mut hub, Message::Leave { id: 1 }, 0);
    assert!(out.is_empty());
    let out = s.on_message(&mut hub, Message::Error { message: "x".to_string() }, 0);
    assert!(out.is_empty());
    assert_eq!(hub.users.len(), 0);
}

#[test]
fn disconnect_publishes_exactly_one_leave() {
    let mut hub = Hub::new();
    let mut s = Session::with_id(42);
    s.on_message(&mut hub, Message::Join { id: 42, username: "a".to_string() }, 1);
    assert_eq!(hub.users.len(), 1);
    let first = s.disconnect(&mut hub);
    assert!(matches!(first, Some(Message::Leave { id: 42 })));
    assert_eq!(hub.users.len(), 0);
    // The losing flow's cleanup finds nothing left to do.
    let second = s.disconnect(&mut hub);
    assert!(second.is_none());
    assert_eq!(hub.users.len(), 0);
}

#[test]
fn teardown_guard_fires_once() {
    let mut g = TeardownGuard::new();
    assert!(g.claim());
    assert!(!g.claim());
    assert!(!g.claim());
}

#[test]
fn fresh_session_is_anonymous() {
    let s = Session::new();
    assert!(s.name.is_none());
}
