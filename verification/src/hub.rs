//! Broadcast hub: the process-wide state behind the relay. It owns the
//! roster of named participants and decides, for every inbound event, how
//! the roster changes and which messages are published to every subscriber.
//!
//! The hub only computes; actually fanning the returned messages out to the
//! subscribers is the transport's job, which must deliver them to each
//! subscriber in the order they were returned here (a FIFO per subscriber,
//! with drops allowed when a subscriber falls behind).

use vstd::prelude::*;
use crate::protocol::{Message, MsgView, UserInfo, UserView, users_view};

verus! {

/// At most one roster entry per participant id.
pub open spec fn wf_roster(r: Seq<UserView>) -> bool {
    forall|i: int, j: int|
        0 <= i < r.len() && 0 <= j < r.len() && i != j ==> (#[trigger] r[i]).id != (
        #[trigger] r[j]).id
}

/// Whether the roster holds an entry for `id`.
pub open spec fn roster_has(r: Seq<UserView>, id: u128) -> bool {
    exists|i: int| 0 <= i < r.len() && (#[trigger] r[i]).id == id
}

/// The index of the entry for `id`; meaningful only when the roster has one.
pub open spec fn roster_idx(r: Seq<UserView>, id: u128) -> int {
    choose|i: int| 0 <= i < r.len() && (#[trigger] r[i]).id == id
}

/// The display name the roster holds for `id`.
pub open spec fn roster_name(r: Seq<UserView>, id: u128) -> Seq<char>
    recommends
        roster_has(r, id),
{
    r[roster_idx(r, id)].username
}

/// How `join` changes the roster: a new entry is appended only when the id
/// is absent; an existing entry is never altered (first join wins).
pub open spec fn join_roster(r: Seq<UserView>, id: u128, name: Seq<char>, now: u64) -> Seq<
    UserView,
> {
    if roster_has(r, id) {
        r
    } else {
        r.push(UserView { id: id, username: name, joined_at: now })
    }
}

/// The name `join` stamps on its Join event: the roster's entry, which is
/// the requested name only when the id was absent.
pub open spec fn join_name(r: Seq<UserView>, id: u128, name: Seq<char>) -> Seq<char> {
    if roster_has(r, id) {
        roster_name(r, id)
    } else {
        name
    }
}

/// What `join` publishes: the Join event, then the full roster snapshot,
/// adjacent in this order.
pub open spec fn join_events(r: Seq<UserView>, id: u128, name: Seq<char>, now: u64) -> Seq<
    MsgView,
> {
    seq![
        MsgView::Join { id: id, username: join_name(r, id, name) },
        MsgView::UserList { users: join_roster(r, id, name, now) },
    ]
}

/// What `chat` publishes: nothing for an id without a roster entry, else a
/// Chat event stamped with the roster's name for that id.
pub open spec fn chat_event(r: Seq<UserView>, id: u128, text: Seq<char>, now: u64) -> Option<
    MsgView,
> {
    if roster_has(r, id) {
        Some(
            MsgView::Chat { id: id, username: roster_name(r, id), text: text, timestamp: now },
        )
    } else {
        None
    }
}

/// What `frame` publishes: nothing for an id without a roster entry, else a
/// VideoFrame event with the payload untouched and unexamined.
pub open spec fn frame_event(r: Seq<UserView>, id: u128, payload: Seq<u8>) -> Option<MsgView> {
    if roster_has(r, id) {
        Some(MsgView::VideoFrame { id: id, username: roster_name(r, id), frame: payload })
    } else {
        None
    }
}

/// How `leave` changes the roster: the entry for `id` is removed if present.
pub open spec fn leave_roster(r: Seq<UserView>, id: u128) -> Seq<UserView> {
    if roster_has(r, id) {
        r.remove(roster_idx(r, id))
    } else {
        r
    }
}

/// What `leave` publishes: a Leave event only on the call that removes the
/// entry.
pub open spec fn leave_event(r: Seq<UserView>, id: u128) -> Option<MsgView> {
    if roster_has(r, id) {
        Some(MsgView::Leave { id: id })
    } else {
        None
    }
}

/// The abstract value of an optional published message.
pub open spec fn opt_view(m: Option<Message>) -> Option<MsgView> {
    match m {
        Some(v) => Some(v@),
        None => None,
    }
}

/// The abstract value of a batch of published messages, in publish order.
pub open spec fn msgs_view(ms: Seq<Message>) -> Seq<MsgView> {
    ms.map_values(|m: Message| m@)
}

/// The hub state: the roster, plus the server metadata sent to every new
/// connection.
pub struct Hub {
    pub users: Vec<UserInfo>,
    pub ngrok_url: Option<String>,
    pub room_name: String,
}

impl Hub {
    /// The current roster, in join order.
    pub open spec fn roster(self) -> Seq<UserView> {
        users_view(self.users@)
    }

    /// The advertised public endpoint, if one was set.
    pub open spec fn spec_ngrok_url(self) -> Option<Seq<char>> {
        match self.ngrok_url {
            Some(u) => Some(u@),
            None => None,
        }
    }

    /// The advertised room label.
    pub open spec fn spec_room_name(self) -> Seq<char> {
        self.room_name@
    }

    pub open spec fn wf(self) -> bool {
        wf_roster(self.roster())
    }

    /// A hub with an empty roster and no public endpoint.
    pub fn new() -> (h: Hub)
        ensures
            h.wf(),
            h.roster() == Seq::<UserView>::empty(),
            h.spec_ngrok_url() is None,
            h.spec_room_name() == "Terminal Chat Room"@,
    {
        let h = Hub {
            users: Vec::new(),
            ngrok_url: None,
            room_name: String::from_str("Terminal Chat Room"),
        };
        proof {
            assert(h.roster() =~= Seq::<UserView>::empty());
        }
        h
    }

    /// Records the public endpoint carried by later ServerInfo messages.
    pub fn set_ngrok_url(&mut self, url: String)
        ensures
            final(self).roster() == old(self).roster(),
            final(self).spec_ngrok_url() == Some(url@),
            final(self).spec_room_name() == old(self).spec_room_name(),
            old(self).wf() ==> final(self).wf(),
    {
        self.ngrok_url = Some(url);
    }

    /// The metadata message greeting a new connection.
    pub fn server_info(&self) -> (m: Message)
        ensures
            m@ == (MsgView::ServerInfo {
                ngrok_url: self.spec_ngrok_url(),
                room_name: self.spec_room_name(),
            }),
    {
        let url = match &self.ngrok_url {
            Some(u) => Some(u.clone()),
            None => None,
        };
        Message::ServerInfo { ngrok_url: url, room_name: self.room_name.clone() }
    }

    /// The position of the roster entry for `id`, if one exists.
    fn find(&self, id: u128) -> (r: Option<usize>)
        requires
            self.wf(),
        ensures
            r matches Some(i) ==> i < self.roster().len() && self.roster()[i as int].id == id
                && roster_has(self.roster(), id) && roster_idx(self.roster(), id) == i,
            r is None ==> !roster_has(self.roster(), id),
    {
        let mut i: usize = 0;
        while i < self.users.len()
            invariant
                self.wf(),
                i <= self.users@.len(),
                forall|k: int| 0 <= k < i ==> (#[trigger] self.roster()[k]).id != id,
            decreases self.users@.len() - i,
        {
            if self.users[i].id == id {
                proof {
                    assert(self.roster()[i as int].id == id);
                    let w = roster_idx(self.roster(), id);
                    assert(0 <= w < self.roster().len() && self.roster()[w].id == id);
                    if w != i {
                        assert(false);
                    }
                }
                return Some(i);
            }
            i += 1;
        }
        proof {
            assert forall|k: int|
                0 <= k < self.roster().len() implies (#[trigger] self.roster()[k]).id != id by {}
        }
        None
    }

    /// A copy of the roster whose abstract value is identical.
    fn snapshot(&self) -> (v: Vec<UserInfo>)
        ensures
            users_view(v@) == self.roster(),
    {
        let mut v: Vec<UserInfo> = Vec::new();
        let mut i: usize = 0;
        while i < self.users.len()
            invariant
                i <= self.users@.len(),
                v@.len() == i,
                forall|k: int| 0 <= k < i ==> (#[trigger] v@[k])@ == self.users@[k]@,
            decreases self.users@.len() - i,
        {
            let u = self.users[i].duplicate();
            v.push(u);
            i += 1;
        }
        proof {
            assert(users_view(v@) =~= self.roster());
        }
        v
    }

    /// Inserts a roster entry if `id` is absent, then publishes the Join
    /// event with the roster's authoritative name and the full roster
    /// snapshot, in that order.
    pub fn join(&mut self, id: u128, name: String, now: u64) -> (out: Vec<Message>)
        requires
            old(self).wf(),
        ensures
            final(self).wf(),
            final(self).roster() == join_roster(old(self).roster(), id, name@, now),
            final(self).spec_ngrok_url() == old(self).spec_ngrok_url(),
            final(self).spec_room_name() == old(self).spec_room_name(),
            msgs_view(out@) == join_events(old(self).roster(), id, name@, now),
    {
        let auth_name: String;
        match self.find(id) {
            Some(i) => {
                auth_name = self.users[i].username.clone();
                proof {
                    assert(auth_name@ == join_name(self.roster(), id, name@));
                    assert(join_roster(self.roster(), id, name@, now) =~= self.roster());
                }
            },
            None => {
                auth_name = name.clone();
                let entry = UserInfo { id, username: name, joined_at: now };
                proof {
                    assert(entry@ == (UserView { id: id, username: auth_name@, joined_at: now }));
                }
                let ghost old_roster = self.roster();
                self.users.push(entry);
                proof {
                    assert(self.roster() =~= old_roster.push(
                        UserView { id: id, username: auth_name@, joined_at: now },
                    ));
                    assert forall|a: int, b: int|
                        0 <= a < self.roster().len() && 0 <= b < self.roster().len() && a
                            != b implies (#[trigger] self.roster()[a]).id != (
                        #[trigger] self.roster()[b]).id by {
                        if a < old_roster.len() && b < old_roster.len() {
                        } else if a == old_roster.len() {
                            assert(!roster_has(old_roster, id));
                            assert(self.roster()[b].id != id);
                        } else {
                            assert(!roster_has(old_roster, id));
                            assert(self.roster()[a].id != id);
                        }
                    }
                }
            },
        }
        let snap = self.snapshot();
        let mut out: Vec<Message> = Vec::new();
        out.push(Message::Join { id, username: auth_name });
        out.push(Message::UserList { users: snap });
        proof {
            assert(msgs_view(out@) =~= join_events(old(self).roster(), id, name@, now));
        }
        out
    }

    /// Publishes a Chat event stamped with the roster's name and the given
    /// time, or nothing when `id` has no roster entry.
    pub fn chat(&self, id: u128, text: String, now: u64) -> (out: Option<Message>)
        requires
            self.wf(),
        ensures
            opt_view(out) == chat_event(self.roster(), id, text@, now),
    {
        match self.find(id) {
            Some(i) => {
                let username = self.users[i].username.clone();
                Some(Message::Chat { id, username, text, timestamp: now })
            },
            None => None,
        }
    }

    /// Publishes a VideoFrame event with the payload passed through opaque
    /// and unexamined, or nothing when `id` has no roster entry.
    pub fn frame(&self, id: u128, payload: Vec<u8>) -> (out: Option<Message>)
        requires
            self.wf(),
        ensures
            opt_view(out) == frame_event(self.roster(), id, payload@),
    {
        match self.find(id) {
            Some(i) => {
                let username = self.users[i].username.clone();
                Some(Message::VideoFrame { id, username, frame: payload })
            },
            None => None,
        }
    }

    /// Removes the roster entry for `id` if present and publishes a Leave
    /// event; a second call for the same id changes nothing and publishes
    /// nothing.
    pub fn leave(&mut self, id: u128) -> (out: Option<Message>)
        requires
            old(self).wf(),
        ensures
            final(self).wf(),
            final(self).roster() == leave_roster(old(self).roster(), id),
            final(self).spec_ngrok_url() == old(self).spec_ngrok_url(),
            final(self).spec_room_name() == old(self).spec_room_name(),
            opt_view(out) == leave_event(old(self).roster(), id),
    {
        match self.find(id) {
            Some(i) => {
                let ghost old_roster = self.roster();
                self.users.remove(i);
                proof {
                    assert(self.roster() =~= old_roster.remove(i as int));
                    assert(leave_roster(old_roster, id) =~= old_roster.remove(i as int));
                    assert forall|a: int, b: int|
                        0 <= a < self.roster().len() && 0 <= b < self.roster().len() && a
                            != b implies (#[trigger] self.roster()[a]).id != (
                        #[trigger] self.roster()[b]).id by {}
                }
                Some(Message::Leave { id })
            },
            None => None,
        }
    }
}

// ---------------------------------------------------------------------------
// Laws of the hub
// ---------------------------------------------------------------------------

/// First join wins: after a join for a fresh id, a second join for the same
/// id under any other name changes neither the roster nor the stored name.
pub proof fn lemma_join_first_wins(
    r: Seq<UserView>,
    id: u128,
    n1: Seq<char>,
    n2: Seq<char>,
    t1: u64,
    t2: u64,
)
    requires
        wf_roster(r),
        !roster_has(r, id),
    ensures
        roster_name(join_roster(r, id, n1, t1), id) == n1,
        join_roster(join_roster(r, id, n1, t1), id, n2, t2) == join_roster(r, id, n1, t1),
        join_name(join_roster(r, id, n1, t1), id, n2) == n1,
{
    let r1 = join_roster(r, id, n1, t1);
    assert(r1[r.len() as int].id == id);
    assert(roster_has(r1, id));
    let w = roster_idx(r1, id);
    assert(0 <= w < r1.len() && r1[w].id == id);
    if w != r.len() {
        assert(r[w].id == id);
        assert(false);
    }
    assert(roster_name(r1, id) == n1);
}

/// A chat for an id that never joined publishes nothing.
pub proof fn lemma_chat_before_join(r: Seq<UserView>, id: u128, text: Seq<char>, now: u64)
    requires
        !roster_has(r, id),
    ensures
        chat_event(r, id, text, now) is None,
{
}

/// Join A, join B, leave A starting from an empty roster leaves a roster,
/// and hence a UserList snapshot, holding exactly B's entry.
pub proof fn lemma_join_join_leave(
    a: u128,
    b: u128,
    na: Seq<char>,
    nb: Seq<char>,
    ta: u64,
    tb: u64,
)
    requires
        a != b,
    ensures
        ({
            let r0 = Seq::<UserView>::empty();
            let r1 = join_roster(r0, a, na, ta);
            let r2 = join_roster(r1, b, nb, tb);
            leave_roster(r2, a) =~= seq![UserView { id: b, username: nb, joined_at: tb }]
        }),
{
    let r0 = Seq::<UserView>::empty();
    assert(!roster_has(r0, a));
    let r1 = join_roster(r0, a, na, ta);
    assert(r1 =~= seq![UserView { id: a, username: na, joined_at: ta }]);
    assert(!roster_has(r1, b)) by {
        if roster_has(r1, b) {
            let w = roster_idx(r1, b);
            assert(0 <= w < r1.len() && r1[w].id == b);
        }
    }
    let r2 = join_roster(r1, b, nb, tb);
    assert(r2 =~= seq![
        UserView { id: a, username: na, joined_at: ta },
        UserView { id: b, username: nb, joined_at: tb },
    ]);
    assert(roster_has(r2, a)) by {
        assert(r2[0].id == a);
    }
    let w = roster_idx(r2, a);
    assert(0 <= w < r2.len() && r2[w].id == a);
    if w != 0 {
        assert(r2[w].id == b);
        assert(false);
    }
    assert(leave_roster(r2, a) =~= r2.remove(0));
    assert(r2.remove(0) =~= seq![UserView { id: b, username: nb, joined_at: tb }]);
}

/// Per-sender publish order: two frames published back to back by the same
/// sender enter the publish log as that sender's two VideoFrame events, the
/// first before the second. Each subscriber sees a subsequence of this log
/// in order, so no subscriber observes them swapped.
pub proof fn lemma_frame_order(r: Seq<UserView>, id: u128, b1: Seq<u8>, b2: Seq<u8>)
    requires
        roster_has(r, id),
    ensures
        ({
            let e1 = frame_event(r, id, b1);
            let e2 = frame_event(r, id, b2);
            &&& e1 is Some
            &&& e2 is Some
            &&& seq![e1->Some_0] + seq![e2->Some_0] =~= seq![
                MsgView::VideoFrame { id: id, username: roster_name(r, id), frame: b1 },
                MsgView::VideoFrame { id: id, username: roster_name(r, id), frame: b2 },
            ]
        }),
{
}

/// Leave is idempotent: the first leave removes the entry, after which the
/// id is gone, a second leave changes nothing and publishes nothing. So a
/// session whose two flows both reach teardown removes one entry and
/// publishes one Leave event in total.
pub proof fn lemma_leave_idempotent(r: Seq<UserView>, id: u128)
    requires
        wf_roster(r),
    ensures
        !roster_has(leave_roster(r, id), id),
        leave_roster(leave_roster(r, id), id) == leave_roster(r, id),
        leave_event(leave_roster(r, id), id) is None,
{
    if roster_has(r, id) {
        let w = roster_idx(r, id);
        assert(0 <= w < r.len() && r[w].id == id);
        let r1 = r.remove(w);
        assert(leave_roster(r, id) =~= r1);
        assert(!roster_has(r1, id)) by {
            if roster_has(r1, id) {
                let k = roster_idx(r1, id);
                assert(0 <= k < r1.len() && r1[k].id == id);
                if k < w {
                    assert(r1[k] == r[k]);
                    assert(k != w);
                    assert(false);
                } else {
                    assert(r1[k] == r[k + 1]);
                    assert(k + 1 != w);
                    assert(false);
                }
            }
        }
    } else {
        assert(leave_roster(r, id) =~= r);
    }
}

} // verus!
