//! Client application state: the username-entry and chat screens, what each
//! key does to them, and how server events update the chat view. Painting
//! the state on a terminal is a consumer's concern and stays outside.

use vstd::prelude::*;
use vstd::string::{StrSliceExecFns, StringExecFns};
use crate::ascii::{AsciiFrame, FrameView};
use crate::protocol::{Message, MsgView, UserInfo, UserView, users_view};

verus! {

/// The keys the application reacts to; every other key is `Other`.
#[derive(Clone, Copy, Debug, PartialEq, Eq, Structural)]
pub enum Key {
    Enter,
    Backspace,
    Char(char),
    Esc,
    Other,
}

/// One rendered chat line.
#[derive(Debug, Clone)]
pub struct ChatMessage {
    pub username: String,
    pub text: String,
    pub timestamp: String,
}

/// The abstract value of a [`ChatMessage`].
#[verifier::ext_equal]
pub struct ChatMessageView {
    pub username: Seq<char>,
    pub text: Seq<char>,
    pub timestamp: Seq<char>,
}

impl View for ChatMessage {
    type V = ChatMessageView;

    open spec fn view(&self) -> ChatMessageView {
        ChatMessageView { username: self.username@, text: self.text@, timestamp: self.timestamp@ }
    }
}

/// The two screens of the application.
pub enum AppState {
    UsernameEntry(String),
    Chat {
        _username: String,
        input_buffer: String,
        messages: Vec<ChatMessage>,
        users: Vec<UserInfo>,
        video_frame: Option<AsciiFrame>,
        remote_frames: Vec<(String, AsciiFrame)>,
    },
}

/// The abstract value of an [`AppState`].
#[verifier::ext_equal]
pub enum AppStateView {
    UsernameEntry(Seq<char>),
    Chat {
        _username: Seq<char>,
        input_buffer: Seq<char>,
        messages: Seq<ChatMessageView>,
        users: Seq<UserView>,
        video_frame: Option<FrameView>,
        remote_frames: Seq<(Seq<char>, FrameView)>,
    },
}

/// The abstract value of the chat-line list.
pub open spec fn lines_view(s: Seq<ChatMessage>) -> Seq<ChatMessageView> {
    s.map_values(|m: ChatMessage| m@)
}

/// The abstract value of the per-sender remote frame list.
pub open spec fn remotes_view(s: Seq<(String, AsciiFrame)>) -> Seq<(Seq<char>, FrameView)> {
    s.map_values(|p: (String, AsciiFrame)| (p.0@, p.1@))
}

impl View for AppState {
    type V = AppStateView;

    open spec fn view(&self) -> AppStateView {
        match self {
            AppState::UsernameEntry(buf) => AppStateView::UsernameEntry(buf@),
            AppState::Chat { _username, input_buffer, messages, users, video_frame, remote_frames }
                => AppStateView::Chat {
                _username: _username@,
                input_buffer: input_buffer@,
                messages: lines_view(messages@),
                users: users_view(users@),
                video_frame: match video_frame {
                    Some(f) => Some(f@),
                    None => None,
                },
                remote_frames: remotes_view(remote_frames@),
            },
        }
    }
}

/// What the user asked the application to do with a key press.
pub enum UserAction {
    JoinChat(String),
    SendMessage(String),
}

/// The abstract value of a [`UserAction`].
#[verifier::ext_equal]
pub enum UserActionView {
    JoinChat(Seq<char>),
    SendMessage(Seq<char>),
}

impl View for UserAction {
    type V = UserActionView;

    open spec fn view(&self) -> UserActionView {
        match self {
            UserAction::JoinChat(s) => UserActionView::JoinChat(s@),
            UserAction::SendMessage(s) => UserActionView::SendMessage(s@),
        }
    }
}

/// The whole application state.
pub struct App {
    pub state: AppState,
    pub should_quit: bool,
    pub ngrok_url: Option<String>,
}

/// The abstract value of an [`App`].
#[verifier::ext_equal]
pub struct AppView {
    pub state: AppStateView,
    pub should_quit: bool,
    pub ngrok_url: Option<Seq<char>>,
}

impl View for App {
    type V = AppView;

    open spec fn view(&self) -> AppView {
        AppView {
            state: self.state@,
            should_quit: self.should_quit,
            ngrok_url: match &self.ngrok_url {
                Some(u) => Some(u@),
                None => None,
            },
        }
    }
}

/// The fresh chat screen entered on joining under `name`.
pub open spec fn fresh_chat(name: Seq<char>) -> AppStateView {
    AppStateView::Chat {
        _username: name,
        input_buffer: Seq::empty(),
        messages: Seq::empty(),
        users: Seq::empty(),
        video_frame: None,
        remote_frames: Seq::empty(),
    }
}

/// What one key press does: the next application state and the action the
/// caller must carry out, if any.
pub open spec fn key_step(app: AppView, key: Key) -> (AppView, Option<UserActionView>) {
    match app.state {
        AppStateView::UsernameEntry(buf) => match key {
            Key::Enter => if buf.len() > 0 {
                (
                    AppView { state: fresh_chat(buf), ..app },
                    Some(UserActionView::JoinChat(buf)),
                )
            } else {
                (app, None)
            },
            Key::Backspace => (
                AppView {
                    state: AppStateView::UsernameEntry(
                        if buf.len() > 0 {
                            buf.drop_last()
                        } else {
                            buf
                        },
                    ),
                    ..app
                },
                None,
            ),
            Key::Char(c) => if buf.len() < 20 {
                (AppView { state: AppStateView::UsernameEntry(buf.push(c)), ..app }, None)
            } else {
                (app, None)
            },
            Key::Esc => (AppView { should_quit: true, ..app }, None),
            Key::Other => (app, None),
        },
        AppStateView::Chat { _username, input_buffer, messages, users, video_frame, remote_frames }
            => match key {
            Key::Enter => if input_buffer.len() > 0 {
                (
                    AppView {
                        state: AppStateView::Chat {
                            _username,
                            input_buffer: Seq::empty(),
                            messages,
                            users,
                            video_frame,
                            remote_frames,
                        },
                        ..app
                    },
                    Some(UserActionView::SendMessage(input_buffer)),
                )
            } else {
                (app, None)
            },
            Key::Backspace => (
                AppView {
                    state: AppStateView::Chat {
                        _username,
                        input_buffer: if input_buffer.len() > 0 {
                            input_buffer.drop_last()
                        } else {
                            input_buffer
                        },
                        messages,
                        users,
                        video_frame,
                        remote_frames,
                    },
                    ..app
                },
                None,
            ),
            Key::Char(c) => (
                AppView {
                    state: AppStateView::Chat {
                        _username,
                        input_buffer: input_buffer.push(c),
                        messages,
                        users,
                        video_frame,
                        remote_frames,
                    },
                    ..app
                },
                None,
            ),
            Key::Esc => (AppView { should_quit: true, ..app }, None),
            Key::Other => (app, None),
        },
    }
}

/// A chat line appended under the cap: only the last 100 lines are kept.
pub open spec fn lines_appended(msgs: Seq<ChatMessageView>, m: ChatMessageView) -> Seq<
    ChatMessageView,
> {
    let p = msgs.push(m);
    if p.len() > 100 {
        p.skip(p.len() - 100)
    } else {
        p
    }
}

/// The remote list without any entry under `name`.
pub open spec fn remotes_without(s: Seq<(Seq<char>, FrameView)>, name: Seq<char>) -> Seq<
    (Seq<char>, FrameView),
>
    decreases s.len(),
{
    if s.len() == 0 {
        Seq::empty()
    } else if s[0].0 == name {
        remotes_without(s.skip(1), name)
    } else {
        seq![s[0]] + remotes_without(s.skip(1), name)
    }
}

/// The remote list after a new frame from `name`: the sender's previous
/// frame is dropped, the new one is appended, and only the last 4 senders
/// are kept.
pub open spec fn remotes_updated(
    s: Seq<(Seq<char>, FrameView)>,
    name: Seq<char>,
    f: FrameView,
) -> Seq<(Seq<char>, FrameView)> {
    let p = remotes_without(s, name).push((name, f));
    if p.len() > 4 {
        p.skip(p.len() - 4)
    } else {
        p
    }
}

proof fn lemma_remotes_without_snoc(
    s: Seq<(Seq<char>, FrameView)>,
    p: (Seq<char>, FrameView),
    name: Seq<char>,
)
    ensures
        remotes_without(s.push(p), name) == remotes_without(s, name) + (if p.0 == name {
            Seq::<(Seq<char>, FrameView)>::empty()
        } else {
            seq![p]
        }),
    decreases s.len(),
{
    let tail: Seq<(Seq<char>, FrameView)> = if p.0 == name {
        Seq::empty()
    } else {
        seq![p]
    };
    if s.len() == 0 {
        let q = s.push(p);
        assert(q[0] == p);
        assert(q.skip(1) =~= Seq::<(Seq<char>, FrameView)>::empty());
        assert(remotes_without(q.skip(1), name) =~= Seq::<(Seq<char>, FrameView)>::empty());
        assert(remotes_without(s, name) =~= Seq::<(Seq<char>, FrameView)>::empty());
        assert(remotes_without(s.push(p), name) =~= remotes_without(s, name) + tail);
    } else {
        assert(s.push(p).skip(1) =~= s.skip(1).push(p));
        lemma_remotes_without_snoc(s.skip(1), p, name);
        assert(remotes_without(s.push(p), name) =~= remotes_without(s, name) + tail);
    }
}

impl App {
    /// A fresh application at the username prompt.
    pub fn new() -> (a: App)
        ensures
            a@.state == AppStateView::UsernameEntry(Seq::<char>::empty()),
            !a@.should_quit,
            a@.ngrok_url is None,
    {
        App { state: AppState::UsernameEntry(String::new()), should_quit: false, ngrok_url: None }
    }

    /// Applies one key press and returns the action to carry out, if any.
    pub fn handle_key(&mut self, key: Key) -> (r: Option<UserAction>)
        ensures
            ({
                let (next, act) = key_step(old(self)@, key);
                &&& final(self)@ == next
                &&& (match r {
                    Some(a) => act == Some(a@),
                    None => act is None,
                })
            }),
    {
        match &mut self.state {
            AppState::UsernameEntry(buffer) => {
                match key {
                    Key::Enter => {
                        if !buffer.as_str().is_empty() {
                            let username = buffer.clone();
                            self.state = AppState::Chat {
                                _username: username.clone(),
                                input_buffer: String::new(),
                                messages: Vec::new(),
                                users: Vec::new(),
                                video_frame: None,
                                remote_frames: Vec::new(),
                            };
                            proof {
                                assert(self@.state =~= fresh_chat(username@));
                                assert(self@ =~= key_step(old(self)@, key).0);
                            }
                            return Some(UserAction::JoinChat(username));
                        }
                    },
                    Key::Backspace => {
                        crate::pop_char(buffer);
                        proof {
                            assert(self@ =~= key_step(old(self)@, key).0);
                        }
                    },
                    Key::Char(c) => {
                        if buffer.as_str().unicode_len() < 20 {
                            crate::push_char(buffer, c);
                        }
                        proof {
                            assert(self@ =~= key_step(old(self)@, key).0);
                        }
                    },
                    Key::Esc => {
                        self.should_quit = true;
                        proof {
                            assert(self@ =~= key_step(old(self)@, key).0);
                        }
                    },
                    Key::Other => {},
                }
            },
            AppState::Chat { input_buffer, .. } => {
                match key {
                    Key::Enter => {
                        if !input_buffer.as_str().is_empty() {
                            let msg = input_buffer.clone();
                            *input_buffer = String::new();
                            proof {
                                assert(self@ =~= key_step(old(self)@, key).0);
                            }
                            return Some(UserAction::SendMessage(msg));
                        }
                    },
                    Key::Backspace => {
                        crate::pop_char(input_buffer);
                        proof {
                            assert(self@ =~= key_step(old(self)@, key).0);
                        }
                    },
                    Key::Char(c) => {
                        crate::push_char(input_buffer, c);
                        proof {
                            assert(self@ =~= key_step(old(self)@, key).0);
                        }
                    },
                    Key::Esc => {
                        self.should_quit = true;
                        proof {
                            assert(self@ =~= key_step(old(self)@, key).0);
                        }
                    },
                    Key::Other => {},
                }
            },
        }
        proof {
            assert(self@ =~= key_step(old(self)@, key).0);
        }
        None
    }

    /// Appends a chat line on the chat screen, keeping only the last 100;
    /// on the username screen nothing changes.
    pub fn add_message(&mut self, username: String, text: String, timestamp: String)
        ensures
            ({
                let m = ChatMessageView { username: username@, text: text@, timestamp: timestamp@ };
                match old(self)@.state {
                    AppStateView::UsernameEntry(_) => final(self)@ == old(self)@,
                    AppStateView::Chat {
                        _username,
                        input_buffer,
                        messages,
                        users,
                        video_frame,
                        remote_frames,
                    } => final(self)@ == (AppView {
                        state: AppStateView::Chat {
                            _username,
                            input_buffer,
                            messages: lines_appended(messages, m),
                            users,
                            video_frame,
                            remote_frames,
                        },
                        ..old(self)@
                    }),
                }
            }),
    {
        match &mut self.state {
            AppState::Chat { messages, .. } => {
                messages.push(ChatMessage { username, text, timestamp });
                let full = Ghost(lines_view(messages@));
                while messages.len() > 100
                    invariant
                        messages@.len() <= full@.len(),
                        messages@.len() >= 100 || messages@.len() == full@.len(),
                        lines_view(messages@) == full@.skip(full@.len() - messages@.len()),
                    decreases messages@.len(),
                {
                    let prev = Ghost(messages@);
                    messages.remove(0);
                    proof {
                        let a = full@.len() - prev@.len();
                        assert(messages@ =~= prev@.skip(1));
                        assert(lines_view(messages@) =~= lines_view(prev@).skip(1));
                        assert(lines_view(prev@).skip(1) == full@.skip(a).skip(1));
                        assert(full@.skip(a).skip(1) =~= full@.skip(a + 1));
                    }
                }
                proof {
                    if full@.len() <= 100 {
                        assert(full@.skip(0) =~= full@);
                    }
                }
                proof {
                    let m = ChatMessageView {
                        username: username@,
                        text: text@,
                        timestamp: timestamp@,
                    };
                    match old(self)@.state {
                        AppStateView::Chat {
                            _username: ou,
                            input_buffer: oi,
                            messages: oldmsgs,
                            users: ous,
                            video_frame: ov,
                            remote_frames: orf,
                        } => {
                            assert(full@ =~= oldmsgs.push(m));
                            assert(lines_view(messages@) =~= lines_appended(oldmsgs, m));
                            assert(self@ =~= (AppView {
                                state: AppStateView::Chat {
                                    _username: ou,
                                    input_buffer: oi,
                                    messages: lines_appended(oldmsgs, m),
                                    users: ous,
                                    video_frame: ov,
                                    remote_frames: orf,
                                },
                                ..old(self)@
                            }));
                        },
                        AppStateView::UsernameEntry(_) => {
                            assert(false);
                        },
                    }
                }
            },
            AppState::UsernameEntry(_) => {},
        }
    }

    /// Replaces the roster snapshot on the chat screen; on the username
    /// screen nothing changes.
    pub fn update_users(&mut self, new_users: Vec<UserInfo>)
        ensures
            match old(self)@.state {
                AppStateView::UsernameEntry(_) => final(self)@ == old(self)@,
                AppStateView::Chat {
                    _username,
                    input_buffer,
                    messages,
                    users,
                    video_frame,
                    remote_frames,
                } => final(self)@ == (AppView {
                    state: AppStateView::Chat {
                        _username,
                        input_buffer,
                        messages,
                        users: users_view(new_users@),
                        video_frame,
                        remote_frames,
                    },
                    ..old(self)@
                }),
            },
    {
        match &mut self.state {
            AppState::Chat { users, .. } => {
                *users = new_users;
            },
            AppState::UsernameEntry(_) => {},
        }
    }

    /// Replaces the local camera frame on the chat screen; on the username
    /// screen nothing changes.
    pub fn update_video_frame(&mut self, frame: AsciiFrame)
        ensures
            match old(self)@.state {
                AppStateView::UsernameEntry(_) => final(self)@ == old(self)@,
                AppStateView::Chat {
                    _username,
                    input_buffer,
                    messages,
                    users,
                    video_frame,
                    remote_frames,
                } => final(self)@ == (AppView {
                    state: AppStateView::Chat {
                        _username,
                        input_buffer,
                        messages,
                        users,
                        video_frame: Some(frame@),
                        remote_frames,
                    },
                    ..old(self)@
                }),
            },
    {
        match &mut self.state {
            AppState::Chat { video_frame, .. } => {
                *video_frame = Some(frame);
            },
            AppState::UsernameEntry(_) => {},
        }
    }

    /// Stores the latest frame for a remote sender on the chat screen,
    /// dropping that sender's previous frame and keeping at most 4 senders;
    /// on the username screen nothing changes.
    pub fn update_remote_frame(&mut self, username: String, frame: AsciiFrame)
        ensures
            match old(self)@.state {
                AppStateView::UsernameEntry(_) => final(self)@ == old(self)@,
                AppStateView::Chat {
                    _username,
                    input_buffer,
                    messages,
                    users,
                    video_frame,
                    remote_frames,
                } => final(self)@ == (AppView {
                    state: AppStateView::Chat {
                        _username,
                        input_buffer,
                        messages,
                        users,
                        video_frame,
                        remote_frames: remotes_updated(remote_frames, username@, frame@),
                    },
                    ..old(self)@
                }),
            },
    {
        match &mut self.state {
            AppState::Chat { remote_frames, .. } => {
                let mut kept: Vec<(String, AsciiFrame)> = Vec::new();
                let mut i: usize = 0;
                proof {
                    assert(remotes_view(remote_frames@).take(0)
                        =~= Seq::<(Seq<char>, FrameView)>::empty());
                    assert(remotes_without(remotes_view(remote_frames@).take(0), username@)
                        =~= Seq::<(Seq<char>, FrameView)>::empty());
                    assert(remotes_view(kept@) =~= Seq::<(Seq<char>, FrameView)>::empty());
                }
                while i < remote_frames.len()
                    invariant
                        i <= remote_frames@.len(),
                        remotes_view(kept@) == remotes_without(
                            remotes_view(remote_frames@).take(i as int),
                            username@,
                        ),
                    decreases remote_frames@.len() - i,
                {
                    let keep = !(remote_frames[i].0 == username);
                    if keep {
                        let name_copy = remote_frames[i].0.clone();
                        let frame_copy = remote_frames[i].1.duplicate();
                        kept.push((name_copy, frame_copy));
                    }
                    proof {
                        let rv = remotes_view(remote_frames@);
                        assert(rv.take(i as int + 1) =~= rv.take(i as int).push(rv[i as int]));
                        lemma_remotes_without_snoc(rv.take(i as int), rv[i as int], username@);
                        assert(remotes_view(kept@) =~= remotes_without(
                            rv.take(i as int + 1),
                            username@,
                        ));
                    }
                    i += 1;
                }
                proof {
                    let rv = remotes_view(remote_frames@);
                    assert(rv.take(rv.len() as int) =~= rv);
                }
                kept.push((username, frame));
                let full = Ghost(remotes_view(kept@));
                while kept.len() > 4
                    invariant
                        kept@.len() <= full@.len(),
                        kept@.len() >= 4 || kept@.len() == full@.len(),
                        remotes_view(kept@) == full@.skip(full@.len() - kept@.len()),
                    decreases kept@.len(),
                {
                    let prev = Ghost(kept@);
                    kept.remove(0);
                    proof {
                        let a = full@.len() - prev@.len();
                        assert(kept@ =~= prev@.skip(1));
                        assert(remotes_view(kept@) =~= remotes_view(prev@).skip(1));
                        assert(remotes_view(prev@).skip(1) == full@.skip(a).skip(1));
                        assert(full@.skip(a).skip(1) =~= full@.skip(a + 1));
                    }
                }
                proof {
                    if full@.len() <= 4 {
                        assert(full@.skip(0) =~= full@);
                    }
                }
                *remote_frames = kept;
                proof {
                    match old(self)@.state {
                        AppStateView::Chat { remote_frames: oldrem, .. } => {
                            assert(full@ =~= remotes_without(oldrem, username@).push(
                                (username@, frame@),
                            ));
                            assert(remotes_view(remote_frames@) =~= remotes_updated(
                                oldrem,
                                username@,
                                frame@,
                            ));
                        },
                        AppStateView::UsernameEntry(_) => {
                            assert(false);
                        },
                    }
                }
            },
            AppState::UsernameEntry(_) => {},
        }
    }
}

impl App {
    /// Applies one message received from the server to the screen state:
    /// presence notices and chat text become lines, video payloads that
    /// parse replace the sender's tile, roster snapshots replace the user
    /// list, and server metadata updates the advertised endpoint. A video
    /// payload that does not parse changes nothing.
    pub fn apply_message(&mut self, msg: Message, clock: String)
        ensures
            msg@ matches MsgView::Join { username, .. } ==> final(self)@ == app_with_line(
                old(self)@,
                (ChatMessageView {
                    username: "System"@,
                    text: username + " joined"@,
                    timestamp: clock@,
                }),
            ),
            msg@ is Leave ==> final(self)@ == app_with_line(
                old(self)@,
                (ChatMessageView {
                    username: "System"@,
                    text: "A user left"@,
                    timestamp: clock@,
                }),
            ),
            msg@ matches MsgView::Chat { username, text, .. } ==> final(self)@ == app_with_line(
                old(self)@,
                (ChatMessageView { username: username, text: text, timestamp: clock@ }),
            ),
            msg@ matches MsgView::VideoFrame { username, frame, .. } ==> final(self)@ == (
            match crate::ascii::spec_deserialize(frame) {
                Ok(fv) => app_with_remote(old(self)@, username, fv),
                Err(_) => old(self)@,
            }),
            msg@ matches MsgView::UserList { users } ==> final(self)@ == app_with_users(
                old(self)@,
                users,
            ),
            msg@ matches MsgView::ServerInfo { ngrok_url, .. } ==> final(self)@ == (
            match ngrok_url {
                Some(u) => (AppView { ngrok_url: Some(u), ..old(self)@ }),
                None => old(self)@,
            }),
            msg@ matches MsgView::Error { message } ==> final(self)@ == app_with_line(
                old(self)@,
                (ChatMessageView { username: "Error"@, text: message, timestamp: clock@ }),
            ),
    {
        match msg {
            Message::Join { username, .. } => {
                let mut text = username;
                text.append(" joined");
                self.add_message(String::from_str("System"), text, clock);
            },
            Message::Leave { .. } => {
                self.add_message(
                    String::from_str("System"),
                    String::from_str("A user left"),
                    clock,
                );
            },
            Message::Chat { username, text, .. } => {
                self.add_message(username, text, clock);
            },
            Message::VideoFrame { username, frame, .. } => {
                match AsciiFrame::deserialize(frame.as_slice()) {
                    Ok(f) => {
                        self.update_remote_frame(username, f);
                    },
                    Err(_) => {},
                }
            },
            Message::UserList { users } => {
                self.update_users(users);
            },
            Message::ServerInfo { ngrok_url, .. } => {
                match ngrok_url {
                    Some(u) => {
                        self.ngrok_url = Some(u);
                    },
                    None => {},
                }
            },
            Message::Error { message } => {
                self.add_message(String::from_str("Error"), message, clock);
            },
        }
    }
}

/// The application with a chat line appended on the chat screen; unchanged
/// on the username screen.
pub open spec fn app_with_line(app: AppView, m: ChatMessageView) -> AppView {
    match app.state {
        AppStateView::UsernameEntry(_) => app,
        AppStateView::Chat {
            _username,
            input_buffer,
            messages,
            users,
            video_frame,
            remote_frames,
        } => AppView {
            state: AppStateView::Chat {
                _username,
                input_buffer,
                messages: lines_appended(messages, m),
                users,
                video_frame,
                remote_frames,
            },
            ..app
        },
    }
}

/// The application with the local camera frame replaced on the chat screen.
pub open spec fn app_with_video(app: AppView, f: FrameView) -> AppView {
    match app.state {
        AppStateView::UsernameEntry(_) => app,
        AppStateView::Chat {
            _username,
            input_buffer,
            messages,
            users,
            video_frame,
            remote_frames,
        } => AppView {
            state: AppStateView::Chat {
                _username,
                input_buffer,
                messages,
                users,
                video_frame: Some(f),
                remote_frames,
            },
            ..app
        },
    }
}

/// The application with a remote sender's latest frame stored on the chat
/// screen.
pub open spec fn app_with_remote(app: AppView, name: Seq<char>, f: FrameView) -> AppView {
    match app.state {
        AppStateView::UsernameEntry(_) => app,
        AppStateView::Chat {
            _username,
            input_buffer,
            messages,
            users,
            video_frame,
            remote_frames,
        } => AppView {
            state: AppStateView::Chat {
                _username,
                input_buffer,
                messages,
                users,
                video_frame,
                remote_frames: remotes_updated(remote_frames, name, f),
            },
            ..app
        },
    }
}

/// The application with only the roster snapshot replaced.
pub open spec fn app_with_users(app: AppView, us: Seq<UserView>) -> AppView {
    match app.state {
        AppStateView::UsernameEntry(_) => app,
        AppStateView::Chat {
            _username,
            input_buffer,
            messages,
            users,
            video_frame,
            remote_frames,
        } => AppView {
            state: AppStateView::Chat {
                _username,
                input_buffer,
                messages,
                users: us,
                video_frame,
                remote_frames,
            },
            ..app
        },
    }
}

} // verus!
