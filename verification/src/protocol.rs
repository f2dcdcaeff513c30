//! Wire protocol: the tagged message exchanged on the transport, and its
//! deterministic, self-describing byte encoding.
//!
//! Every message is one tag byte followed by the fields of that variant.
//! Identifiers are 128-bit opaque tokens, lengths are 64-bit little-endian
//! counts, strings are a length followed by one 32-bit little-endian scalar
//! value per character. Decoding fails closed: an unknown tag, a missing
//! field, an invalid scalar value or a trailing byte rejects the buffer.

use vstd::prelude::*;
use vstd::bytes::*;
use vstd::string::StrSliceExecFns;

verus! {

/// A roster entry: participant id, display name, and join time in seconds
/// since the epoch.
#[derive(Debug, Clone)]
pub struct UserInfo {
    pub id: u128,
    pub username: String,
    pub joined_at: u64,
}

/// The abstract value of a [`UserInfo`].
#[verifier::ext_equal]
pub struct UserView {
    pub id: u128,
    pub username: Seq<char>,
    pub joined_at: u64,
}

impl View for UserInfo {
    type V = UserView;

    open spec fn view(&self) -> UserView {
        UserView { id: self.id, username: self.username@, joined_at: self.joined_at }
    }
}

impl UserInfo {
    /// A copy whose abstract value is identical.
    pub fn duplicate(&self) -> (u: UserInfo)
        ensures
            u@ == self@,
    {
        UserInfo { id: self.id, username: self.username.clone(), joined_at: self.joined_at }
    }
}

/// The tagged wire message. Exactly one variant is active per encoded
/// message; the tag byte determines which fields follow.
#[derive(Debug, Clone)]
pub enum Message {
    Join { id: u128, username: String },
    Leave { id: u128 },
    Chat { id: u128, username: String, text: String, timestamp: u64 },
    VideoFrame { id: u128, username: String, frame: Vec<u8> },
    UserList { users: Vec<UserInfo> },
    ServerInfo { ngrok_url: Option<String>, room_name: String },
    Error { message: String },
}

/// The abstract value of a [`Message`].
#[verifier::ext_equal]
pub enum MsgView {
    Join { id: u128, username: Seq<char> },
    Leave { id: u128 },
    Chat { id: u128, username: Seq<char>, text: Seq<char>, timestamp: u64 },
    VideoFrame { id: u128, username: Seq<char>, frame: Seq<u8> },
    UserList { users: Seq<UserView> },
    ServerInfo { ngrok_url: Option<Seq<char>>, room_name: Seq<char> },
    Error { message: Seq<char> },
}

/// The abstract roster carried by a sequence of entries.
pub open spec fn users_view(users: Seq<UserInfo>) -> Seq<UserView> {
    users.map_values(|u: UserInfo| u@)
}

impl View for Message {
    type V = MsgView;

    open spec fn view(&self) -> MsgView {
        match self {
            Message::Join { id, username } => MsgView::Join { id: *id, username: username@ },
            Message::Leave { id } => MsgView::Leave { id: *id },
            Message::Chat { id, username, text, timestamp } => MsgView::Chat {
                id: *id,
                username: username@,
                text: text@,
                timestamp: *timestamp,
            },
            Message::VideoFrame { id, username, frame } => MsgView::VideoFrame {
                id: *id,
                username: username@,
                frame: frame@,
            },
            Message::UserList { users } => MsgView::UserList { users: users_view(users@) },
            Message::ServerInfo { ngrok_url, room_name } => MsgView::ServerInfo {
                ngrok_url: match ngrok_url {
                    Some(u) => Some(u@),
                    None => None,
                },
                room_name: room_name@,
            },
            Message::Error { message } => MsgView::Error { message: message@ },
        }
    }
}

/// A genuine Unicode scalar value: what a `char` may hold.
pub open spec fn valid_scalar(v: u32) -> bool {
    v < 0xD800 || (0xE000 <= v && v <= 0x10FFFF)
}

/// A character sequence of encodable length whose elements are all genuine
/// scalar values.
pub open spec fn wf_str(s: Seq<char>) -> bool {
    &&& s.len() <= u64::MAX
    &&& forall|i: int|
        0 <= i < s.len() ==> valid_scalar(#[trigger] (s[i] as u32)) && 0 <= (s[i] as int)
            <= 0x10FFFF && s[i] as u32 == s[i] as int
}

impl UserView {
    pub open spec fn wf(self) -> bool {
        wf_str(self.username)
    }
}

impl MsgView {
    /// All character data in the message holds genuine scalar values; every
    /// message built from executable strings satisfies this.
    pub open spec fn wf(self) -> bool {
        match self {
            MsgView::Join { username, .. } => wf_str(username),
            MsgView::Leave { .. } => true,
            MsgView::Chat { username, text, .. } => wf_str(username) && wf_str(text),
            MsgView::VideoFrame { username, frame, .. } => wf_str(username) && frame.len()
                <= u64::MAX,
            MsgView::UserList { users } => users.len() <= u64::MAX && forall|i: int|
                0 <= i < users.len() ==> (#[trigger] users[i]).wf(),
            MsgView::ServerInfo { ngrok_url, room_name } => wf_str(room_name) && (match ngrok_url {
                Some(u) => wf_str(u),
                None => true,
            }),
            MsgView::Error { message } => wf_str(message),
        }
    }
}

// ---------------------------------------------------------------------------
// Encoding model
// ---------------------------------------------------------------------------

/// Characters one after another, 4 little-endian bytes each.
pub open spec fn enc_chars(s: Seq<char>) -> Seq<u8>
    decreases s.len(),
{
    if s.len() == 0 {
        Seq::empty()
    } else {
        spec_u32_to_le_bytes(s[0] as u32) + enc_chars(s.skip(1))
    }
}

/// A string: 64-bit character count, then the characters.
pub open spec fn enc_str(s: Seq<char>) -> Seq<u8> {
    spec_u64_to_le_bytes(s.len() as u64) + enc_chars(s)
}

/// An opaque byte payload: 64-bit length, then the bytes themselves.
pub open spec fn enc_bytes(b: Seq<u8>) -> Seq<u8> {
    spec_u64_to_le_bytes(b.len() as u64) + b
}

/// An optional string: presence byte, then the string if present.
pub open spec fn enc_opt_str(s: Option<Seq<char>>) -> Seq<u8> {
    match s {
        None => seq![0u8],
        Some(v) => seq![1u8] + enc_str(v),
    }
}

/// One roster entry: id, name, join time.
pub open spec fn enc_user(u: UserView) -> Seq<u8> {
    spec_u128_to_le_bytes(u.id) + enc_str(u.username) + spec_u64_to_le_bytes(u.joined_at)
}

/// Roster entries one after another.
pub open spec fn enc_users(us: Seq<UserView>) -> Seq<u8>
    decreases us.len(),
{
    if us.len() == 0 {
        Seq::empty()
    } else {
        enc_user(us[0]) + enc_users(us.skip(1))
    }
}

/// The full encoding of a message: a tag byte, then the variant's fields.
pub open spec fn enc_msg(m: MsgView) -> Seq<u8> {
    match m {
        MsgView::Join { id, username } => seq![1u8] + spec_u128_to_le_bytes(id) + enc_str(username),
        MsgView::Leave { id } => seq![2u8] + spec_u128_to_le_bytes(id),
        MsgView::Chat { id, username, text, timestamp } => seq![3u8] + spec_u128_to_le_bytes(id)
            + enc_str(username) + enc_str(text) + spec_u64_to_le_bytes(timestamp),
        MsgView::VideoFrame { id, username, frame } => seq![4u8] + spec_u128_to_le_bytes(id)
            + enc_str(username) + enc_bytes(frame),
        MsgView::UserList { users } => seq![5u8] + spec_u64_to_le_bytes(users.len() as u64)
            + enc_users(users),
        MsgView::ServerInfo { ngrok_url, room_name } => seq![6u8] + enc_opt_str(ngrok_url)
            + enc_str(room_name),
        MsgView::Error { message } => seq![7u8] + enc_str(message),
    }
}

// ---------------------------------------------------------------------------
// Executable encoder
// ---------------------------------------------------------------------------

proof fn lemma_enc_chars_snoc(s: Seq<char>, c: char)
    ensures
        enc_chars(s.push(c)) == enc_chars(s) + spec_u32_to_le_bytes(c as u32),
    decreases s.len(),
{
    if s.len() == 0 {
        let p = s.push(c);
        assert(p[0] == c);
        assert(p.skip(1) =~= Seq::<char>::empty());
        assert(enc_chars(p.skip(1)) =~= Seq::<u8>::empty());
        assert(enc_chars(s) =~= Seq::<u8>::empty());
        assert(enc_chars(s.push(c)) =~= enc_chars(s) + spec_u32_to_le_bytes(c as u32));
    } else {
        assert(s.push(c).skip(1) =~= s.skip(1).push(c));
        lemma_enc_chars_snoc(s.skip(1), c);
        assert(enc_chars(s.push(c)) =~= enc_chars(s) + spec_u32_to_le_bytes(c as u32));
    }
}

proof fn lemma_enc_users_snoc(us: Seq<UserView>, u: UserView)
    ensures
        enc_users(us.push(u)) == enc_users(us) + enc_user(u),
    decreases us.len(),
{
    if us.len() == 0 {
        let p = us.push(u);
        assert(p[0] == u);
        assert(p.skip(1) =~= Seq::<UserView>::empty());
        assert(enc_users(p.skip(1)) =~= Seq::<u8>::empty());
        assert(enc_users(us) =~= Seq::<u8>::empty());
        assert(enc_users(us.push(u)) =~= enc_users(us) + enc_user(u));
    } else {
        assert(us.push(u).skip(1) =~= us.skip(1).push(u));
        lemma_enc_users_snoc(us.skip(1), u);
        assert(enc_users(us.push(u)) =~= enc_users(us) + enc_user(u));
    }
}

fn push_u64_le(out: &mut Vec<u8>, x: u64)
    ensures
        final(out)@ == old(out)@ + spec_u64_to_le_bytes(x),
{
    let mut t = u64_to_le_bytes(x);
    out.append(&mut t);
}

fn push_u128_le(out: &mut Vec<u8>, x: u128)
    ensures
        final(out)@ == old(out)@ + spec_u128_to_le_bytes(x),
{
    let mut t = u128_to_le_bytes(x);
    out.append(&mut t);
}

fn push_str_enc(out: &mut Vec<u8>, s: &String)
    ensures
        final(out)@ == old(out)@ + enc_str(s@),
        wf_str(s@),
{
    let l = s.as_str().unicode_len();
    push_u64_le(out, l as u64);
    let prefix = Ghost(out@);
    let mut i: usize = 0;
    while i < l
        invariant
            i <= l,
            l == s@.len(),
            out@ == prefix@ + enc_chars(s@.take(i as int)),
            forall|k: int|
                0 <= k < i ==> valid_scalar(#[trigger] (s@[k] as u32)) && 0 <= (s@[k] as int)
                    <= 0x10FFFF && s@[k] as u32 == s@[k] as int,
        decreases l - i,
    {
        let c = s.as_str().get_char(i);
        let mut t = u32_to_le_bytes(c as u32);
        out.append(&mut t);
        proof {
            assert(s@.take(i as int + 1) =~= s@.take(i as int).push(s@[i as int]));
            lemma_enc_chars_snoc(s@.take(i as int), s@[i as int]);
            assert(out@ =~= prefix@ + enc_chars(s@.take(i as int + 1)));
            assert(s@[i as int] == c);
            assert(0 <= (c as int) <= 0x10FFFF);
            assert(c as u32 == c as int);
            assert(valid_scalar(c as u32));
            assert(s@[i as int] as u32 == c as u32);
            assert(valid_scalar(s@[i as int] as u32));
            assert(0 <= (s@[i as int] as int) <= 0x10FFFF);
            assert(s@[i as int] as u32 == s@[i as int] as int);
            assert forall|k: int| 0 <= k < i as int + 1 implies valid_scalar(
                #[trigger] (s@[k] as u32),
            ) && 0 <= (s@[k] as int) <= 0x10FFFF && s@[k] as u32 == s@[k] as int by {}
        }
        i += 1;
    }
    proof {
        assert(s@.take(l as int) =~= s@);
        assert(prefix@ + enc_chars(s@) =~= old(out)@ + enc_str(s@));
    }
}

fn push_bytes_enc(out: &mut Vec<u8>, p: &Vec<u8>)
    ensures
        final(out)@ == old(out)@ + enc_bytes(p@),
        p@.len() <= u64::MAX,
{
    push_u64_le(out, p.len() as u64);
    let prefix = Ghost(out@);
    let mut i: usize = 0;
    while i < p.len()
        invariant
            i <= p@.len(),
            out@ == prefix@ + p@.take(i as int),
        decreases p@.len() - i,
    {
        out.push(p[i]);
        proof {
            assert(p@.take(i as int + 1) =~= p@.take(i as int).push(p@[i as int]));
            assert(out@ =~= prefix@ + p@.take(i as int + 1));
        }
        i += 1;
    }
    proof {
        assert(p@.take(p@.len() as int) =~= p@);
        assert(prefix@ + p@ =~= old(out)@ + enc_bytes(p@));
    }
}

fn push_user_enc(out: &mut Vec<u8>, u: &UserInfo)
    ensures
        final(out)@ == old(out)@ + enc_user(u@),
        u@.wf(),
{
    push_u128_le(out, u.id);
    push_str_enc(out, &u.username);
    push_u64_le(out, u.joined_at);
    proof {
        assert(out@ =~= old(out)@ + enc_user(u@));
    }
}

impl Message {
    /// Encodes the message into its deterministic byte form.
    pub fn to_bytes(&self) -> (out: Vec<u8>)
        ensures
            out@ == enc_msg(self@),
            self@.wf(),
    {
        let mut out: Vec<u8> = Vec::new();
        match self {
            Message::Join { id, username } => {
                out.push(1u8);
                push_u128_le(&mut out, *id);
                push_str_enc(&mut out, username);
                proof {
                    assert(out@ =~= enc_msg(self@));
                }
            },
            Message::Leave { id } => {
                out.push(2u8);
                push_u128_le(&mut out, *id);
                proof {
                    assert(out@ =~= enc_msg(self@));
                }
            },
            Message::Chat { id, username, text, timestamp } => {
                out.push(3u8);
                push_u128_le(&mut out, *id);
                push_str_enc(&mut out, username);
                push_str_enc(&mut out, text);
                push_u64_le(&mut out, *timestamp);
                proof {
                    assert(out@ =~= enc_msg(self@));
                }
            },
            Message::VideoFrame { id, username, frame } => {
                out.push(4u8);
                push_u128_le(&mut out, *id);
                push_str_enc(&mut out, username);
                push_bytes_enc(&mut out, frame);
                proof {
                    assert(out@ =~= enc_msg(self@));
                }
            },
            Message::UserList { users } => {
                out.push(5u8);
                let cnt = users.len();
                push_u64_le(&mut out, cnt as u64);
                proof {
                    assert(users@.len() <= u64::MAX);
                }
                let prefix = Ghost(out@);
                let mut i: usize = 0;
                while i < users.len()
                    invariant
                        i <= users@.len(),
                        out@ == prefix@ + enc_users(users_view(users@).take(i as int)),
                        forall|k: int|
                            0 <= k < i ==> (#[trigger] users_view(users@)[k]).wf(),
                    decreases users@.len() - i,
                {
                    let u = &users[i];
                    push_user_enc(&mut out, u);
                    proof {
                        let uv = users_view(users@);
                        assert(uv[i as int] == users@[i as int]@);
                        assert(uv.take(i as int + 1) =~= uv.take(i as int).push(uv[i as int]));
                        lemma_enc_users_snoc(uv.take(i as int), uv[i as int]);
                        assert(out@ =~= prefix@ + enc_users(uv.take(i as int + 1)));
                    }
                    i += 1;
                }
                proof {
                    let uv = users_view(users@);
                    assert(uv.take(uv.len() as int) =~= uv);
                    assert(out@ =~= enc_msg(self@));
                }
            },
            Message::ServerInfo { ngrok_url, room_name } => {
                out.push(6u8);
                match ngrok_url {
                    None => {
                        out.push(0u8);
                        proof {
                            assert(out@ =~= seq![6u8] + enc_opt_str(self@->ServerInfo_ngrok_url));
                        }
                    },
                    Some(u) => {
                        out.push(1u8);
                        push_str_enc(&mut out, u);
                        proof {
                            assert(out@ =~= seq![6u8] + enc_opt_str(self@->ServerInfo_ngrok_url));
                        }
                    },
                }
                push_str_enc(&mut out, room_name);
                proof {
                    assert(out@ =~= enc_msg(self@));
                }
            },
            Message::Error { message } => {
                out.push(7u8);
                push_str_enc(&mut out, message);
                proof {
                    assert(out@ =~= enc_msg(self@));
                }
            },
        }
        out
    }
}

// ---------------------------------------------------------------------------
// Decoding model
// ---------------------------------------------------------------------------

/// A 64-bit little-endian count at the front of the buffer.
pub open spec fn dec_u64(b: Seq<u8>) -> Option<u64> {
    if b.len() >= 8 {
        Some(spec_u64_from_le_bytes(b.subrange(0, 8)))
    } else {
        None
    }
}

/// A 128-bit little-endian identifier at the front of the buffer.
pub open spec fn dec_u128(b: Seq<u8>) -> Option<u128> {
    if b.len() >= 16 {
        Some(spec_u128_from_le_bytes(b.subrange(0, 16)))
    } else {
        None
    }
}

/// Exactly `n` characters, 4 bytes each; fails on a short buffer or on a
/// value that is not a genuine scalar value.
pub open spec fn dec_chars(b: Seq<u8>, n: nat) -> Option<Seq<char>>
    decreases n,
{
    if n == 0 {
        Some(Seq::empty())
    } else if b.len() < 4 {
        None
    } else {
        let v = spec_u32_from_le_bytes(b.subrange(0, 4));
        if valid_scalar(v) {
            match dec_chars(b.skip(4), (n - 1) as nat) {
                Some(s) => Some(seq![v as char] + s),
                None => None,
            }
        } else {
            None
        }
    }
}

/// A string at the front of the buffer; the second component is how many
/// bytes it occupied.
pub open spec fn dec_str(b: Seq<u8>) -> Option<(Seq<char>, int)> {
    match dec_u64(b) {
        Some(n) => match dec_chars(b.skip(8), n as nat) {
            Some(s) => Some((s, 8 + 4 * (n as int))),
            None => None,
        },
        None => None,
    }
}

/// An opaque byte payload at the front of the buffer.
pub open spec fn dec_bytes(b: Seq<u8>) -> Option<(Seq<u8>, int)> {
    match dec_u64(b) {
        Some(n) => if b.len() >= 8 + n {
            Some((b.subrange(8, 8 + n as int), 8 + n as int))
        } else {
            None
        },
        None => None,
    }
}

/// An optional string at the front of the buffer: a presence byte, then the
/// string when the byte is 1.
pub open spec fn dec_opt_str(b: Seq<u8>) -> Option<(Option<Seq<char>>, int)> {
    if b.len() < 1 {
        None
    } else if b[0] == 0 {
        Some((None, 1))
    } else if b[0] == 1 {
        match dec_str(b.skip(1)) {
            Some((s, c)) => Some((Some(s), 1 + c)),
            None => None,
        }
    } else {
        None
    }
}

/// One roster entry at the front of the buffer.
pub open spec fn dec_user(b: Seq<u8>) -> Option<(UserView, int)> {
    match dec_u128(b) {
        Some(id) => match dec_str(b.skip(16)) {
            Some((name, c)) => match dec_u64(b.skip(16 + c)) {
                Some(t) => Some(
                    (UserView { id: id, username: name, joined_at: t }, 16 + c + 8),
                ),
                None => None,
            },
            None => None,
        },
        None => None,
    }
}

/// Exactly `n` roster entries at the front of the buffer.
pub open spec fn dec_users(b: Seq<u8>, n: nat) -> Option<(Seq<UserView>, int)>
    decreases n,
{
    if n == 0 {
        Some((Seq::empty(), 0))
    } else {
        match dec_user(b) {
            Some((u, c)) => match dec_users(b.skip(c), (n - 1) as nat) {
                Some((us, c2)) => Some((seq![u] + us, c + c2)),
                None => None,
            },
            None => None,
        }
    }
}

/// The parse of a whole message buffer. A buffer is accepted exactly when
/// its tag is known, every field of that variant is present and valid, and
/// no byte is left over.
pub open spec fn dec_msg(b: Seq<u8>) -> Option<MsgView> {
    if b.len() < 1 {
        None
    } else {
        let r = b.skip(1);
        if b[0] == 1 {
            match dec_u128(r) {
                Some(id) => match dec_str(r.skip(16)) {
                    Some((name, c)) => if b.len() == 1 + 16 + c {
                        Some(MsgView::Join { id: id, username: name })
                    } else {
                        None
                    },
                    None => None,
                },
                None => None,
            }
        } else if b[0] == 2 {
            match dec_u128(r) {
                Some(id) => if b.len() == 1 + 16 {
                    Some(MsgView::Leave { id: id })
                } else {
                    None
                },
                None => None,
            }
        } else if b[0] == 3 {
            match dec_u128(r) {
                Some(id) => match dec_str(r.skip(16)) {
                    Some((name, c1)) => match dec_str(r.skip(16 + c1)) {
                        Some((text, c2)) => match dec_u64(r.skip(16 + c1 + c2)) {
                            Some(ts) => if b.len() == 1 + 16 + c1 + c2 + 8 {
                                Some(
                                    MsgView::Chat {
                                        id: id,
                                        username: name,
                                        text: text,
                                        timestamp: ts,
                                    },
                                )
                            } else {
                                None
                            },
                            None => None,
                        },
                        None => None,
                    },
                    None => None,
                },
                None => None,
            }
        } else if b[0] == 4 {
            match dec_u128(r) {
                Some(id) => match dec_str(r.skip(16)) {
                    Some((name, c1)) => match dec_bytes(r.skip(16 + c1)) {
                        Some((payload, c2)) => if b.len() == 1 + 16 + c1 + c2 {
                            Some(MsgView::VideoFrame { id: id, username: name, frame: payload })
                        } else {
                            None
                        },
                        None => None,
                    },
                    None => None,
                },
                None => None,
            }
        } else if b[0] == 5 {
            match dec_u64(r) {
                Some(n) => match dec_users(r.skip(8), n as nat) {
                    Some((us, c)) => if b.len() == 1 + 8 + c {
                        Some(MsgView::UserList { users: us })
                    } else {
                        None
                    },
                    None => None,
                },
                None => None,
            }
        } else if b[0] == 6 {
            match dec_opt_str(r) {
                Some((url, c1)) => match dec_str(r.skip(c1)) {
                    Some((room, c2)) => if b.len() == 1 + c1 + c2 {
                        Some(MsgView::ServerInfo { ngrok_url: url, room_name: room })
                    } else {
                        None
                    },
                    None => None,
                },
                None => None,
            }
        } else if b[0] == 7 {
            match dec_str(r) {
                Some((msg, c)) => if b.len() == 1 + c {
                    Some(MsgView::Error { message: msg })
                } else {
                    None
                },
                None => None,
            }
        } else {
            None
        }
    }
}

// ---------------------------------------------------------------------------
// Executable decoder
// ---------------------------------------------------------------------------

/// Rejection of a malformed message buffer; the buffer is dropped, the
/// session continues.
#[derive(Clone, Copy, Debug, PartialEq, Eq, Structural)]
pub struct DecodeError;

/// Relies on std's `char::from_u32`: returns `Some` exactly for genuine
/// Unicode scalar values, and the returned character carries that value.
#[verifier::external_body]
fn char_from_code(v: u32) -> (r: Option<char>)
    ensures
        r is Some <==> valid_scalar(v),
        r matches Some(c) ==> c as u32 == v && c as int == v as int,
{
    char::from_u32(v)
}

fn copy_range(data: &[u8], i: usize, len: usize) -> (t: Vec<u8>)
    requires
        (i as int) + (len as int) <= data@.len(),
    ensures
        t@ == data@.subrange(i as int, i as int + len as int),
{
    let n: usize = data.len();
    let mut t: Vec<u8> = Vec::new();
    let mut k: usize = 0;
    while k < len
        invariant
            k <= len,
            n == data@.len(),
            (i as int) + (len as int) <= n,
            t@.len() == k,
            forall|m: int| 0 <= m < k ==> t@[m] == data@[i + m],
        decreases len - k,
    {
        t.push(data[i + k]);
        k += 1;
    }
    proof {
        assert(t@ =~= data@.subrange(i as int, i as int + len as int));
    }
    t
}

fn read_u64(data: &[u8], i: usize) -> (r: Option<(u64, usize)>)
    requires
        i <= data@.len(),
    ensures
        r matches Some(p) ==> dec_u64(data@.skip(i as int)) == Some(p.0) && p.1 == i + 8 && p.1
            <= data@.len(),
        r is None ==> dec_u64(data@.skip(i as int)) is None,
{
    let n: usize = data.len();
    if n - i >= 8 {
        let t = copy_range(data, i, 8);
        proof {
            assert(data@.skip(i as int).subrange(0, 8) =~= data@.subrange(i as int, i as int + 8));
        }
        let v = u64_from_le_bytes(t.as_slice());
        Some((v, i + 8))
    } else {
        None
    }
}

fn read_u128(data: &[u8], i: usize) -> (r: Option<(u128, usize)>)
    requires
        i <= data@.len(),
    ensures
        r matches Some(p) ==> dec_u128(data@.skip(i as int)) == Some(p.0) && p.1 == i + 16 && p.1
            <= data@.len(),
        r is None ==> dec_u128(data@.skip(i as int)) is None,
{
    let n: usize = data.len();
    if n - i >= 16 {
        let t = copy_range(data, i, 16);
        proof {
            assert(data@.skip(i as int).subrange(0, 16) =~= data@.subrange(
                i as int,
                i as int + 16,
            ));
        }
        let v = u128_from_le_bytes(t.as_slice());
        Some((v, i + 16))
    } else {
        None
    }
}

fn read_str(data: &[u8], i: usize) -> (r: Option<(String, usize)>)
    requires
        i <= data@.len(),
    ensures
        r matches Some(p) ==> dec_str(data@.skip(i as int)) == Some((p.0@, p.1 - i)) && i <= p.1
            <= data@.len() && wf_str(p.0@),
        r is None ==> dec_str(data@.skip(i as int)) is None,
{
    let n: usize = data.len();
    let cnt: u64;
    match read_u64(data, i) {
        None => {
            return None;
        },
        Some((v, _)) => {
            cnt = v;
        },
    }
    let mut s = String::new();
    let mut k: u64 = 0;
    let mut j: usize = i + 8;
    proof {
        assert(data@.skip(i as int).skip(8) =~= data@.skip(i as int + 8));
        let m0 = dec_chars(data@.skip(i as int + 8), cnt as nat);
        if m0 is Some {
            assert(Seq::<char>::empty() + m0->Some_0 =~= m0->Some_0);
        }
    }
    while k < cnt
        invariant
            i + 8 <= j <= n,
            n == data@.len(),
            k <= cnt,
            j == i + 8 + 4 * k,
            dec_u64(data@.skip(i as int)) == Some(cnt),
            data@.skip(i as int).skip(8) == data@.skip(i as int + 8),
            s@.len() == k,
            forall|m: int|
                0 <= m < s@.len() ==> valid_scalar(#[trigger] (s@[m] as u32)) && 0 <= (s@[m] as int)
                    <= 0x10FFFF && s@[m] as u32 == s@[m] as int,
            (dec_chars(data@.skip(j as int), (cnt - k) as nat) matches Some(t) ==> dec_chars(
                data@.skip(i as int + 8),
                cnt as nat,
            ) == Some(s@ + t)),
            (dec_chars(data@.skip(j as int), (cnt - k) as nat) is None ==> dec_chars(
                data@.skip(i as int + 8),
                cnt as nat,
            ) is None),
        decreases cnt - k,
    {
        if n - j < 4 {
            proof {
                assert(data@.skip(j as int).len() < 4);
                assert(dec_chars(data@.skip(j as int), (cnt - k) as nat) is None);
                assert(dec_str(data@.skip(i as int)) is None);
            }
            return None;
        }
        let t = copy_range(data, j, 4);
        let v = u32_from_le_bytes(t.as_slice());
        proof {
            assert(data@.skip(j as int).subrange(0, 4) =~= data@.subrange(j as int, j as int + 4));
        }
        match char_from_code(v) {
            None => {
                proof {
                    assert(dec_chars(data@.skip(j as int), (cnt - k) as nat) is None);
                    assert(dec_str(data@.skip(i as int)) is None);
                }
                return None;
            },
            Some(c) => {
                crate::push_char(&mut s, c);
                proof {
                    let sfx = data@.skip(j as int);
                    assert(sfx.skip(4) =~= data@.skip(j as int + 4));
                    assert((v as char) as int == v as int);
                    assert(v as char == c);
                    let inner = dec_chars(data@.skip(j as int + 4), (cnt - (k + 1)) as nat);
                    if inner is Some {
                        let t2 = inner->Some_0;
                        assert(dec_chars(sfx, (cnt - k) as nat) == Some(seq![c] + t2));
                        let old_s = s@.subrange(0, s@.len() - 1);
                        assert(s@ =~= old_s.push(c));
                        assert(old_s + (seq![c] + t2) =~= s@ + t2);
                    } else {
                        assert(dec_chars(sfx, (cnt - k) as nat) is None);
                    }
                    assert(0 <= (c as int) <= 0x10FFFF);
                    assert(c as u32 == c as int);
                    assert(valid_scalar(c as u32));
                }
                k += 1;
                j += 4;
            },
        }
    }
    proof {
        assert(dec_chars(data@.skip(j as int), 0) == Some(Seq::<char>::empty()));
        assert(s@ + Seq::<char>::empty() =~= s@);
        assert(dec_chars(data@.skip(i as int + 8), cnt as nat) == Some(s@));
        assert(dec_str(data@.skip(i as int)) == Some((s@, 8 + 4 * (cnt as int))));
        assert(j - i == 8 + 4 * (cnt as int));
    }
    Some((s, j))
}

fn read_bytes(data: &[u8], i: usize) -> (r: Option<(Vec<u8>, usize)>)
    requires
        i <= data@.len(),
    ensures
        r matches Some(p) ==> dec_bytes(data@.skip(i as int)) == Some((p.0@, p.1 - i)) && i <= p.1
            <= data@.len() && p.0@.len() <= u64::MAX,
        r is None ==> dec_bytes(data@.skip(i as int)) is None,
{
    let n: usize = data.len();
    let cnt: u64;
    match read_u64(data, i) {
        None => {
            return None;
        },
        Some((v, _)) => {
            cnt = v;
        },
    }
    let j: usize = i + 8;
    if cnt > (n - j) as u64 {
        proof {
            assert(data@.skip(i as int).len() < 8 + cnt);
        }
        return None;
    }
    let len: usize = cnt as usize;
    let t = copy_range(data, j, len);
    proof {
        assert(data@.skip(i as int).len() >= 8 + cnt);
        assert(data@.skip(i as int).subrange(8, 8 + cnt as int) =~= data@.subrange(
            j as int,
            j as int + len as int,
        ));
    }
    Some((t, j + len))
}

fn read_user(data: &[u8], i: usize) -> (r: Option<(UserInfo, usize)>)
    requires
        i <= data@.len(),
    ensures
        r matches Some(p) ==> dec_user(data@.skip(i as int)) == Some((p.0@, p.1 - i)) && i < p.1
            <= data@.len() && p.0@.wf(),
        r is None ==> dec_user(data@.skip(i as int)) is None,
{
    let id: u128;
    match read_u128(data, i) {
        None => {
            return None;
        },
        Some((v, _)) => {
            id = v;
        },
    }
    proof {
        assert(data@.skip(i as int).skip(16) =~= data@.skip(i as int + 16));
    }
    let username: String;
    let j1: usize;
    match read_str(data, i + 16) {
        None => {
            return None;
        },
        Some((s, j)) => {
            username = s;
            j1 = j;
        },
    }
    proof {
        let c = j1 - (i + 16);
        assert(data@.skip(i as int).skip(16 + c) =~= data@.skip(j1 as int));
    }
    match read_u64(data, j1) {
        None => {
            return None;
        },
        Some((t, j2)) => {
            let u = UserInfo { id, username, joined_at: t };
            proof {
                assert(u@ == UserView { id: id, username: u.username@, joined_at: t });
            }
            Some((u, j2))
        },
    }
}

fn read_users(data: &[u8], i: usize, cnt: u64) -> (r: Option<(Vec<UserInfo>, usize)>)
    requires
        i <= data@.len(),
    ensures
        r matches Some(p) ==> dec_users(data@.skip(i as int), cnt as nat) == Some(
            (users_view(p.0@), p.1 - i),
        ) && i <= p.1 <= data@.len() && p.0@.len() == cnt && forall|m: int|
            0 <= m < p.0@.len() ==> (#[trigger] p.0@[m]@).wf(),
        r is None ==> dec_users(data@.skip(i as int), cnt as nat) is None,
{
    let n: usize = data.len();
    let mut acc: Vec<UserInfo> = Vec::new();
    let mut k: u64 = 0;
    let mut j: usize = i;
    proof {
        let m0 = dec_users(data@.skip(i as int), cnt as nat);
        if m0 is Some {
            assert(users_view(acc@) =~= Seq::<UserView>::empty());
            assert(Seq::<UserView>::empty() + m0->Some_0.0 =~= m0->Some_0.0);
        }
    }
    while k < cnt
        invariant
            i <= j <= n,
            n == data@.len(),
            k <= cnt,
            acc@.len() == k,
            forall|m: int| 0 <= m < acc@.len() ==> (#[trigger] acc@[m]@).wf(),
            (dec_users(data@.skip(j as int), (cnt - k) as nat) matches Some(t) ==> dec_users(
                data@.skip(i as int),
                cnt as nat,
            ) == Some((users_view(acc@) + t.0, (j - i) + t.1))),
            (dec_users(data@.skip(j as int), (cnt - k) as nat) is None ==> dec_users(
                data@.skip(i as int),
                cnt as nat,
            ) is None),
        decreases cnt - k,
    {
        match read_user(data, j) {
            None => {
                proof {
                    assert(dec_users(data@.skip(j as int), (cnt - k) as nat) is None);
                }
                return None;
            },
            Some((u, j2)) => {
                let consumed = Ghost(j2 - j);
                acc.push(u);
                proof {
                    let sfx = data@.skip(j as int);
                    assert(sfx.skip(consumed@ as int) =~= data@.skip(j2 as int));
                    let inner = dec_users(data@.skip(j2 as int), (cnt - (k + 1)) as nat);
                    let old_acc = acc@.subrange(0, acc@.len() - 1);
                    assert(acc@ =~= old_acc.push(u));
                    assert(users_view(acc@) =~= users_view(old_acc).push(u@));
                    if inner is Some {
                        let t2 = inner->Some_0;
                        assert(dec_users(sfx, (cnt - k) as nat) == Some(
                            (seq![u@] + t2.0, consumed@ + t2.1),
                        ));
                        assert(users_view(old_acc) + (seq![u@] + t2.0) =~= users_view(acc@) + t2.0);
                    } else {
                        assert(dec_users(sfx, (cnt - k) as nat) is None);
                    }
                }
                j = j2;
                k += 1;
            },
        }
    }
    proof {
        assert(dec_users(data@.skip(j as int), 0) == Some((Seq::<UserView>::empty(), 0int)));
        assert(users_view(acc@) + Seq::<UserView>::empty() =~= users_view(acc@));
    }
    Some((acc, j))
}

impl Message {
    /// Parses a message buffer. Fails closed: an unknown tag, a missing or
    /// invalid field, or a trailing byte rejects the whole buffer, and the
    /// rejection is exactly [`dec_msg`] returning nothing.
    pub fn from_bytes(data: &[u8]) -> (r: Result<Message, DecodeError>)
        ensures
            r matches Ok(m) ==> dec_msg(data@) == Some(m@) && m@.wf(),
            r is Err ==> dec_msg(data@) is None,
    {
        let n: usize = data.len();
        if n < 1 {
            return Err(DecodeError);
        }
        let tag = data[0];
        proof {
            assert(data@.skip(1) =~= data@.skip(1int));
        }
        if tag == 1 {
            let id: u128;
            match read_u128(data, 1) {
                None => {
                    return Err(DecodeError);
                },
                Some((v, _)) => {
                    id = v;
                },
            }
            proof {
                assert(data@.skip(1int).skip(16) =~= data@.skip(17int));
            }
            match read_str(data, 17) {
                None => {
                    return Err(DecodeError);
                },
                Some((username, j)) => {
                    if j == n {
                        let m = Message::Join { id, username };
                        proof {
                            assert(dec_msg(data@) == Some(m@));
                        }
                        Ok(m)
                    } else {
                        Err(DecodeError)
                    }
                },
            }
        } else if tag == 2 {
            match read_u128(data, 1) {
                None => {
                    return Err(DecodeError);
                },
                Some((id, j)) => {
                    if j == n {
                        Ok(Message::Leave { id })
                    } else {
                        Err(DecodeError)
                    }
                },
            }
        } else if tag == 3 {
            let id: u128;
            match read_u128(data, 1) {
                None => {
                    return Err(DecodeError);
                },
                Some((v, _)) => {
                    id = v;
                },
            }
            proof {
                assert(data@.skip(1int).skip(16) =~= data@.skip(17int));
            }
            let username: String;
            let j1: usize;
            match read_str(data, 17) {
                None => {
                    return Err(DecodeError);
                },
                Some((s, j)) => {
                    username = s;
                    j1 = j;
                },
            }
            proof {
                let c1 = j1 - 17;
                assert(data@.skip(1int).skip(16 + c1) =~= data@.skip(j1 as int));
            }
            let text: String;
            let j2: usize;
            match read_str(data, j1) {
                None => {
                    return Err(DecodeError);
                },
                Some((s, j)) => {
                    text = s;
                    j2 = j;
                },
            }
            proof {
                let c1 = j1 - 17;
                let c2 = j2 - j1;
                assert(data@.skip(1int).skip(16 + c1 + c2) =~= data@.skip(j2 as int));
            }
            match read_u64(data, j2) {
                None => {
                    return Err(DecodeError);
                },
                Some((timestamp, j3)) => {
                    if j3 == n {
                        let m = Message::Chat { id, username, text, timestamp };
                        proof {
                            assert(dec_msg(data@) == Some(m@));
                        }
                        Ok(m)
                    } else {
                        Err(DecodeError)
                    }
                },
            }
        } else if tag == 4 {
            let id: u128;
            match read_u128(data, 1) {
                None => {
                    return Err(DecodeError);
                },
                Some((v, _)) => {
                    id = v;
                },
            }
            proof {
                assert(data@.skip(1int).skip(16) =~= data@.skip(17int));
            }
            let username: String;
            let j1: usize;
            match read_str(data, 17) {
                None => {
                    return Err(DecodeError);
                },
                Some((s, j)) => {
                    username = s;
                    j1 = j;
                },
            }
            proof {
                let c1 = j1 - 17;
                assert(data@.skip(1int).skip(16 + c1) =~= data@.skip(j1 as int));
            }
            match read_bytes(data, j1) {
                None => {
                    return Err(DecodeError);
                },
                Some((frame, j2)) => {
                    if j2 == n {
                        let m = Message::VideoFrame { id, username, frame };
                        proof {
                            assert(dec_msg(data@) == Some(m@));
                        }
                        Ok(m)
                    } else {
                        Err(DecodeError)
                    }
                },
            }
        } else if tag == 5 {
            let cnt: u64;
            match read_u64(data, 1) {
                None => {
                    return Err(DecodeError);
                },
                Some((v, _)) => {
                    cnt = v;
                },
            }
            proof {
                assert(data@.skip(1int).skip(8) =~= data@.skip(9int));
            }
            match read_users(data, 9, cnt) {
                None => {
                    return Err(DecodeError);
                },
                Some((users, j)) => {
                    if j == n {
                        let m = Message::UserList { users };
                        proof {
                            assert(dec_msg(data@) == Some(m@));
                        }
                        Ok(m)
                    } else {
                        Err(DecodeError)
                    }
                },
            }
        } else if tag == 6 {
            if n < 2 {
                proof {
                    assert(data@.skip(1int).len() < 1);
                }
                return Err(DecodeError);
            }
            let flag = data[1];
            proof {
                assert(data@.skip(1int)[0] == data@[1]);
                assert(data@.skip(1int).skip(1) =~= data@.skip(2int));
            }
            if flag == 0 {
                match read_str(data, 2) {
                    None => {
                        return Err(DecodeError);
                    },
                    Some((room_name, j)) => {
                        if j == n {
                            let m = Message::ServerInfo { ngrok_url: None, room_name };
                            proof {
                                assert(dec_msg(data@) == Some(m@));
                            }
                            Ok(m)
                        } else {
                            Err(DecodeError)
                        }
                    },
                }
            } else if flag == 1 {
                let url: String;
                let j1: usize;
                match read_str(data, 2) {
                    None => {
                        return Err(DecodeError);
                    },
                    Some((s, j)) => {
                        url = s;
                        j1 = j;
                    },
                }
                proof {
                    let c1 = 1 + (j1 - 2);
                    assert(data@.skip(1int).skip(c1 as int) =~= data@.skip(j1 as int));
                }
                match read_str(data, j1) {
                    None => {
                        return Err(DecodeError);
                    },
                    Some((room_name, j2)) => {
                        if j2 == n {
                            let m = Message::ServerInfo { ngrok_url: Some(url), room_name };
                            proof {
                                assert(dec_msg(data@) == Some(m@));
                            }
                            Ok(m)
                        } else {
                            Err(DecodeError)
                        }
                    },
                }
            } else {
                Err(DecodeError)
            }
        } else if tag == 7 {
            match read_str(data, 1) {
                None => {
                    return Err(DecodeError);
                },
                Some((message, j)) => {
                    if j == n {
                        let m = Message::Error { message };
                        proof {
                            assert(dec_msg(data@) == Some(m@));
                        }
                        Ok(m)
                    } else {
                        Err(DecodeError)
                    }
                },
            }
        } else {
            Err(DecodeError)
        }
    }
}

// ---------------------------------------------------------------------------
// Round trip: every encoded message parses back to itself
// ---------------------------------------------------------------------------

proof fn lemma_enc_chars_len(s: Seq<char>)
    ensures
        enc_chars(s).len() == 4 * s.len(),
    decreases s.len(),
{
    lemma_auto_spec_u32_to_from_le_bytes();
    if s.len() > 0 {
        lemma_enc_chars_len(s.skip(1));
    }
}

proof fn lemma_dec_u64_enc(x: u64, rest: Seq<u8>)
    ensures
        dec_u64(spec_u64_to_le_bytes(x) + rest) == Some(x),
        spec_u64_to_le_bytes(x).len() == 8,
        (spec_u64_to_le_bytes(x) + rest).skip(8) =~= rest,
{
    lemma_auto_spec_u64_to_from_le_bytes();
    let b = spec_u64_to_le_bytes(x) + rest;
    assert(b.subrange(0, 8) =~= spec_u64_to_le_bytes(x));
}

proof fn lemma_dec_u128_enc(x: u128, rest: Seq<u8>)
    ensures
        dec_u128(spec_u128_to_le_bytes(x) + rest) == Some(x),
        spec_u128_to_le_bytes(x).len() == 16,
        (spec_u128_to_le_bytes(x) + rest).skip(16) =~= rest,
{
    lemma_auto_spec_u128_to_from_le_bytes();
    let b = spec_u128_to_le_bytes(x) + rest;
    assert(b.subrange(0, 16) =~= spec_u128_to_le_bytes(x));
}

proof fn lemma_dec_chars_enc(s: Seq<char>, rest: Seq<u8>)
    requires
        wf_str(s),
    ensures
        dec_chars(enc_chars(s) + rest, s.len()) == Some(s),
        enc_chars(s).len() == 4 * s.len(),
    decreases s.len(),
{
    lemma_auto_spec_u32_to_from_le_bytes();
    lemma_enc_chars_len(s);
    if s.len() == 0 {
        assert(enc_chars(s) + rest =~= rest);
    } else {
        let b = enc_chars(s) + rest;
        let c0 = s[0];
        assert(b.subrange(0, 4) =~= spec_u32_to_le_bytes(c0 as u32));
        let v = spec_u32_from_le_bytes(b.subrange(0, 4));
        assert(v == c0 as u32);
        assert(valid_scalar(v));
        assert((v as char) as int == v as int);
        assert(v as char == c0);
        assert(b.skip(4) =~= enc_chars(s.skip(1)) + rest);
        assert(wf_str(s.skip(1)));
        lemma_dec_chars_enc(s.skip(1), rest);
        assert(seq![v as char] + s.skip(1) =~= s);
    }
}

proof fn lemma_dec_str_enc(s: Seq<char>, rest: Seq<u8>)
    requires
        wf_str(s),
    ensures
        dec_str(enc_str(s) + rest) == Some((s, enc_str(s).len() as int)),
        enc_str(s).len() == 8 + 4 * s.len(),
        (enc_str(s) + rest).skip(enc_str(s).len() as int) =~= rest,
{
    lemma_auto_spec_u64_to_from_le_bytes();
    lemma_enc_chars_len(s);
    let b = enc_str(s) + rest;
    assert(b =~= spec_u64_to_le_bytes(s.len() as u64) + (enc_chars(s) + rest));
    lemma_dec_u64_enc(s.len() as u64, enc_chars(s) + rest);
    assert(b.skip(8) =~= enc_chars(s) + rest);
    lemma_dec_chars_enc(s, rest);
    assert((s.len() as u64) as nat == s.len());
    assert(b.skip(enc_str(s).len() as int) =~= rest);
}

proof fn lemma_dec_bytes_enc(p: Seq<u8>, rest: Seq<u8>)
    requires
        p.len() <= u64::MAX,
    ensures
        dec_bytes(enc_bytes(p) + rest) == Some((p, enc_bytes(p).len() as int)),
        enc_bytes(p).len() == 8 + p.len(),
        (enc_bytes(p) + rest).skip(enc_bytes(p).len() as int) =~= rest,
{
    lemma_auto_spec_u64_to_from_le_bytes();
    let b = enc_bytes(p) + rest;
    assert(b =~= spec_u64_to_le_bytes(p.len() as u64) + (p + rest));
    lemma_dec_u64_enc(p.len() as u64, p + rest);
    assert(b.subrange(8, 8 + p.len() as int) =~= p);
    assert(b.skip(enc_bytes(p).len() as int) =~= rest);
}

proof fn lemma_dec_opt_str_enc(s: Option<Seq<char>>, rest: Seq<u8>)
    requires
        s matches Some(v) ==> wf_str(v),
    ensures
        dec_opt_str(enc_opt_str(s) + rest) == Some((s, enc_opt_str(s).len() as int)),
        (enc_opt_str(s) + rest).skip(enc_opt_str(s).len() as int) =~= rest,
{
    let b = enc_opt_str(s) + rest;
    match s {
        None => {
            assert(b[0] == 0);
            assert(b.skip(1) =~= rest);
        },
        Some(v) => {
            assert(b[0] == 1);
            assert(b.skip(1) =~= enc_str(v) + rest);
            lemma_dec_str_enc(v, rest);
            assert(b.skip(enc_opt_str(s).len() as int) =~= rest);
        },
    }
}

proof fn lemma_dec_user_enc(u: UserView, rest: Seq<u8>)
    requires
        u.wf(),
    ensures
        dec_user(enc_user(u) + rest) == Some((u, enc_user(u).len() as int)),
        enc_user(u).len() == 16 + 8 + 4 * u.username.len() + 8,
        (enc_user(u) + rest).skip(enc_user(u).len() as int) =~= rest,
{
    lemma_auto_spec_u64_to_from_le_bytes();
    lemma_auto_spec_u128_to_from_le_bytes();
    lemma_enc_chars_len(u.username);
    let b = enc_user(u) + rest;
    let tail1 = enc_str(u.username) + (spec_u64_to_le_bytes(u.joined_at) + rest);
    assert(b =~= spec_u128_to_le_bytes(u.id) + tail1);
    lemma_dec_u128_enc(u.id, tail1);
    assert(b.skip(16) =~= tail1);
    lemma_dec_str_enc(u.username, spec_u64_to_le_bytes(u.joined_at) + rest);
    let c = enc_str(u.username).len() as int;
    assert(b.skip(16 + c) =~= spec_u64_to_le_bytes(u.joined_at) + rest);
    lemma_dec_u64_enc(u.joined_at, rest);
    assert(b.skip(enc_user(u).len() as int) =~= rest);
}

proof fn lemma_dec_users_enc(us: Seq<UserView>, rest: Seq<u8>)
    requires
        forall|i: int| 0 <= i < us.len() ==> (#[trigger] us[i]).wf(),
    ensures
        dec_users(enc_users(us) + rest, us.len()) == Some((us, enc_users(us).len() as int)),
        (enc_users(us) + rest).skip(enc_users(us).len() as int) =~= rest,
    decreases us.len(),
{
    if us.len() == 0 {
        assert(enc_users(us) + rest =~= rest);
    } else {
        let b = enc_users(us) + rest;
        let tail = enc_users(us.skip(1)) + rest;
        assert(b =~= enc_user(us[0]) + tail);
        lemma_dec_user_enc(us[0], tail);
        let c = enc_user(us[0]).len() as int;
        assert(b.skip(c) =~= tail);
        assert(forall|i: int|
            0 <= i < us.skip(1).len() ==> (#[trigger] us.skip(1)[i]).wf());
        lemma_dec_users_enc(us.skip(1), rest);
        assert(seq![us[0]] + us.skip(1) =~= us);
        assert(b.skip(enc_users(us).len() as int) =~= rest);
    }
}

/// Parsing an encoded message gives the message back: the wire format is a
/// deterministic, exact round trip for every well-formed message.
pub proof fn lemma_dec_msg_enc(m: MsgView)
    requires
        m.wf(),
    ensures
        dec_msg(enc_msg(m)) == Some(m),
{
    lemma_auto_spec_u64_to_from_le_bytes();
    lemma_auto_spec_u128_to_from_le_bytes();
    let b = enc_msg(m);
    let r = b.skip(1);
    match m {
        MsgView::Join { id, username } => {
            assert(b[0] == 1);
            assert(r =~= spec_u128_to_le_bytes(id) + enc_str(username));
            lemma_dec_u128_enc(id, enc_str(username));
            assert(r.skip(16) =~= enc_str(username));
            lemma_dec_str_enc(username, Seq::empty());
            assert(enc_str(username) + Seq::<u8>::empty() =~= enc_str(username));
            lemma_enc_chars_len(username);
        },
        MsgView::Leave { id } => {
            assert(b[0] == 2);
            assert(r =~= spec_u128_to_le_bytes(id) + Seq::<u8>::empty());
            lemma_dec_u128_enc(id, Seq::empty());
        },
        MsgView::Chat { id, username, text, timestamp } => {
            assert(b[0] == 3);
            let t2 = enc_str(text) + spec_u64_to_le_bytes(timestamp);
            let t1 = enc_str(username) + t2;
            assert(r =~= spec_u128_to_le_bytes(id) + t1);
            lemma_dec_u128_enc(id, t1);
            assert(r.skip(16) =~= t1);
            lemma_dec_str_enc(username, t2);
            let c1 = enc_str(username).len() as int;
            assert(r.skip(16 + c1) =~= t2);
            lemma_dec_str_enc(text, spec_u64_to_le_bytes(timestamp));
            let c2 = enc_str(text).len() as int;
            assert(r.skip(16 + c1 + c2) =~= spec_u64_to_le_bytes(timestamp));
            lemma_dec_u64_enc(timestamp, Seq::empty());
            assert(spec_u64_to_le_bytes(timestamp) + Seq::<u8>::empty() =~= spec_u64_to_le_bytes(
                timestamp,
            ));
            lemma_enc_chars_len(username);
            lemma_enc_chars_len(text);
        },
        MsgView::VideoFrame { id, username, frame } => {
            assert(b[0] == 4);
            let t2 = enc_bytes(frame);
            let t1 = enc_str(username) + t2;
            assert(r =~= spec_u128_to_le_bytes(id) + t1);
            lemma_dec_u128_enc(id, t1);
            assert(r.skip(16) =~= t1);
            lemma_dec_str_enc(username, t2);
            let c1 = enc_str(username).len() as int;
            assert(r.skip(16 + c1) =~= t2);
            assert(t2 =~= enc_bytes(frame) + Seq::<u8>::empty());
            lemma_dec_bytes_enc(frame, Seq::empty());
            lemma_enc_chars_len(username);
        },
        MsgView::UserList { users } => {
            assert(b[0] == 5);
            let t1 = enc_users(users);
            assert(r =~= spec_u64_to_le_bytes(users.len() as u64) + t1);
            lemma_dec_u64_enc(users.len() as u64, t1);
            assert(r.skip(8) =~= t1);
            assert(t1 =~= enc_users(users) + Seq::<u8>::empty());
            lemma_dec_users_enc(users, Seq::empty());
            assert((users.len() as u64) as nat == users.len());
        },
        MsgView::ServerInfo { ngrok_url, room_name } => {
            assert(b[0] == 6);
            let t1 = enc_str(room_name);
            assert(r =~= enc_opt_str(ngrok_url) + t1);
            lemma_dec_opt_str_enc(ngrok_url, t1);
            let c1 = enc_opt_str(ngrok_url).len() as int;
            assert(r.skip(c1) =~= t1);
            assert(t1 =~= enc_str(room_name) + Seq::<u8>::empty());
            lemma_dec_str_enc(room_name, Seq::empty());
            lemma_enc_chars_len(room_name);
        },
        MsgView::Error { message } => {
            assert(b[0] == 7);
            assert(r =~= enc_str(message) + Seq::<u8>::empty());
            lemma_dec_str_enc(message, Seq::empty());
            lemma_enc_chars_len(message);
        },
    }
}

} // verus!
