use termchat::ascii::AsciiFrame;
use termchat::protocol::{Message, UserInfo};
use termchat::source::{rgb_from_plane, test_pattern_rgb};
use termchat::ui::{App, AppState, Key, UserAction};

fn enter_name(app: &mut App, name: &str) {
    for c in name.chars() {
        assert!(app.handle_key(Key::Char(c)).is_none());
    }
}

#[test]
fn entering_a_name_joins_the_chat() {
    let mut app = App::new();
    enter_name(&mut app, "alice");
    match app.handle_key(Key::Enter) {
        Some(UserAction::JoinChat(name)) => assert_eq!(name, "alice"),
        _ => panic!("expected a join action"),
    }
    match &app.state {
        AppState::Chat { _username, input_buffer, messages, users, video_frame, remote_frames } => {
            assert_eq!(_username, "alice");
            assert_eq!(input_buffer, "");
            assert!(messages.is_empty());
            assert!(users.is_empty());
            assert!(video_frame.is_none());
            assert!(remote_frames.is_empty());
        }
        _ => panic!("must be on the chat screen"),
    }
}

#[test]
fn empty_name_does_not_join() {
    let mut app = App::new();
    assert!(app.handle_key(Key::Enter).is_none());
    assert!(matches!(app.state, AppState::UsernameEntry(_)));
}

#[test]
fn backspace_edits_the_name() {
    let mut app = App::new();
    enter_name(&mut app, "ab");
    assert!(app.handle_key(Key::Backspace).is_none());
    match &app.state {
        AppState::UsernameEntry(buf) => assert_eq!(buf, "a"),
        _ => panic!("must still be entering the name"),
    }
    // Backspace on an empty buffer is harmless.
    app.handle_key(Key::Backspace);
    app.handle_key(Key::Backspace);
    match &app.state {
        AppState::UsernameEntry(buf) => assert_eq!(buf, ""),
        _ => panic!("must still be entering the name"),
    }
}

#[test]
fn name_is_capped_at_twenty_characters() {
    let mut app = App::new();
    for _ in 0..30 {
        app.handle_key(Key::Char('x'));
    }
    match &app.state {
        AppState::UsernameEntry(buf) => assert_eq!(buf.chars().count(), 20),
        _ => panic!("must still be entering the name"),
    }
}

#[test]
fn escape_quits_from_either_screen() {
    let mut app = App::new();
    assert!(!app.should_quit);
    app.handle_key(Key::Esc);
    assert!(app.should_quit);

    let mut app = App::new();
    enter_name(&mut app, "a");
    app.handle_key(Key::Enter);
    app.handle_key(Key::Esc);
    assert!(app.should_quit);
}

#[test]
fn chat_input_sends_and_clears() {
    let mut app = App::new();
    enter_name(&mut app, "a");
    app.handle_key(Key::Enter);
    assert!(app.handle_key(Key::Enter).is_none());
    enter_name(&mut app, "hi");
    match app.handle_key(Key::Enter) {
        Some(UserAction::SendMessage(text)) => assert_eq!(text, "hi"),
        _ => panic!("expected a send action"),
    }
    match &app.state {
        AppState::Chat { input_buffer, .. } => assert_eq!(input_buffer, ""),
        _ => panic!("must be on the chat screen"),
    }
}

#[test]
fn other_keys_change_nothing() {
    let mut app = App::new();
    assert!(app.handle_key(Key::Other).is_none());
    match &app.state {
        AppState::UsernameEntry(buf) => assert_eq!(buf, ""),
        _ => panic!("must still be entering the name"),
    }
    assert!(!app.should_quit);
}

fn chat_app() -> App {
    let mut app = App::new();
    enter_name(&mut app, "me");
    app.handle_key(Key::Enter);
    app
}

#[test]
fn messages_keep_only_last_hundred() {
    let mut app = chat_app();
    for i in 0..105 {
        app.add_message(format!("u{}", i), format!("m{}", i), "00:00:00".to_string());
    }
    match &app.state {
        AppState::Chat { messages, .. } => {
            assert_eq!(messages.len(), 100);
            assert_eq!(messages[0].text, "m5");
            assert_eq!(messages[99].text, "m104");
        }
        _ => panic!("must be on the chat screen"),
    }
}

#[test]
fn add_message_before_joining_is_dropped() {
    let mut app = App::new();
    app.add_message("a".to_string(), "b".to_string(), "c".to_string());
    assert!(matches!(app.state, AppState::UsernameEntry(_)));
}

#[test]
fn update_users_replaces_the_roster_snapshot() {
    let mut app = chat_app();
    app.update_users(vec![UserInfo { id: 1, username: "a".to_string(), joined_at: 5 }]);
    match &app.state {
        AppState::Chat { users, .. } => {
            assert_eq!(users.len(), 1);
            assert_eq!(users[0].username, "a");
        }
        _ => panic!("must be on the chat screen"),
    }
}

#[test]
fn update_video_frame_stores_the_latest() {
    let mut app = chat_app();
    app.update_video_frame(AsciiFrame::new(2, 2));
    match &app.state {
        AppState::Chat { video_frame, .. } => {
            let f = video_frame.as_ref().unwrap();
            assert_eq!((f.width, f.height), (2, 2));
        }
        _ => panic!("must be on the chat screen"),
    }
}

#[test]
fn remote_frames_keep_latest_per_sender_and_at_most_four() {
    let mut app = chat_app();
    app.update_remote_frame("a".to_string(), AsciiFrame::new(1, 1));
    app.update_remote_frame("b".to_string(), AsciiFrame::new(1, 1));
    app.update_remote_frame("a".to_string(), AsciiFrame::new(2, 2));
    match &app.state {
        AppState::Chat { remote_frames, .. } => {
            assert_eq!(remote_frames.len(), 2);
            assert_eq!(remote_frames[0].0, "b");
            assert_eq!(remote_frames[1].0, "a");
            assert_eq!(remote_frames[1].1.width, 2);
        }
        _ => panic!("must be on the chat screen"),
    }
    for name in ["c", "d", "e"] {
        app.update_remote_frame(name.to_string(), AsciiFrame::new(1, 1));
    }
    match &app.state {
        AppState::Chat { remote_frames, .. } => {
            assert_eq!(remote_frames.len(), 4);
            assert_eq!(remote_frames[0].0, "a");
            assert_eq!(remote_frames[3].0, "e");
        }
        _ => panic!("must be on the chat screen"),
    }
}

#[test]
fn test_pattern_has_packed_shape_and_bright_center() {
    let w = 8u16;
    let h = 6u16;
    let buf = test_pattern_rgb(w, h, 0);
    assert_eq!(buf.len(), (w as usize) * (h as usize) * 3);
    let px = |x: usize, y: usize| {
        let i = (y * w as usize + x) * 3;
        (buf[i], buf[i + 1], buf[i + 2])
    };
    let center = px(4, 3);
    let corner = px(0, 0);
    assert!(center.1 > corner.1);
    assert_eq!(buf, test_pattern_rgb(w, h, 0));
    assert_ne!(test_pattern_rgb(w, h, 0), test_pattern_rgb(w, h, 10));
}

#[test]
fn plane_rows_are_repacked_by_stride() {
    // Two rows of two pixels, stride 8: two padding bytes close each row.
    let data: Vec<u8> = vec![
        1, 2, 3, 4, 5, 6, 0, 0,
        7, 8, 9, 10, 11, 12, 0, 0,
    ];
    let out = rgb_from_plane(&data, 2, 2, 8);
    assert_eq!(out, vec![1, 2, 3, 4, 5, 6, 7, 8, 9, 10, 11, 12]);
}

#[test]
fn plane_rows_past_the_end_are_black() {
    let data: Vec<u8> = vec![1, 2, 3, 4, 5, 6];
    let out = rgb_from_plane(&data, 2, 2, 6);
    assert_eq!(out, vec![1, 2, 3, 4, 5, 6, 0, 0, 0, 0, 0, 0]);
}

#[test]
fn server_messages_update_the_screen() {
    let mut app = chat_app();
    app.apply_message(
        Message::Join { id: 1, username: "zoe".to_string() },
        "12:00:00".to_string(),
    );
    app.apply_message(Message::Leave { id: 1 }, "12:00:01".to_string());
    app.apply_message(
        Message::Chat {
            id: 1,
            username: "zoe".to_string(),
            text: "hi".to_string(),
            timestamp: 0,
        },
        "12:00:02".to_string(),
    );
    match &app.state {
        AppState::Chat { messages, .. } => {
            assert_eq!(messages.len(), 3);
            assert_eq!(messages[0].username, "System");
            assert_eq!(messages[0].text, "zoe joined");
            assert_eq!(messages[0].timestamp, "12:00:00");
            assert_eq!(messages[1].text, "A user left");
            assert_eq!(messages[2].username, "zoe");
            assert_eq!(messages[2].text, "hi");
        }
        _ => panic!("must be on the chat screen"),
    }
    app.apply_message(
        Message::ServerInfo { ngrok_url: Some("u".to_string()), room_name: "r".to_string() },
        "12:00:03".to_string(),
    );
    assert_eq!(app.ngrok_url.as_deref(), Some("u"));
}

#[test]
fn video_payload_that_does_not_parse_changes_nothing() {
    let mut app = chat_app();
    app.apply_message(
        Message::VideoFrame { id: 1, username: "zoe".to_string(), frame: vec![1, 2, 3] },
        "12:00:00".to_string(),
    );
    match &app.state {
        AppState::Chat { remote_frames, .. } => assert!(remote_frames.is_empty()),
        _ => panic!("must be on the chat screen"),
    }
    let tile = AsciiFrame::new(2, 2).serialize();
    app.apply_message(
        Message::VideoFrame { id: 1, username: "zoe".to_string(), frame: tile },
        "12:00:00".to_string(),
    );
    match &app.state {
        AppState::Chat { remote_frames, .. } => {
            assert_eq!(remote_frames.len(), 1);
            assert_eq!(remote_frames[0].0, "zoe");
            assert_eq!(remote_frames[0].1.width, 2);
        }
        _ => panic!("must be on the chat screen"),
    }
}
