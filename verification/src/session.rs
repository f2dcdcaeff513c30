//! Per-connection session: the participant-side half of the state machine.
//!
//! A session starts anonymous; the first valid Join names it and it stays
//! active until the connection ends. Inbound Chat and VideoFrame messages
//! are re-tagged with the session's server-assigned id — whatever id or name
//! the client wrote in them is ignored — and are forwarded to the hub only
//! once the session is active. Teardown runs exactly once, however many of
//! the session's flows observe the failure.

use vstd::prelude::*;
use crate::hub::{
    chat_event, frame_event, join_events, join_roster, leave_event, leave_roster, msgs_view,
    opt_view, Hub,
};
use crate::protocol::{Message, MsgView};

verus! {

/// Relies on `uuid::Uuid::new_v4` for a random 128-bit identifier; nothing
/// can be promised of a random value.
#[verifier::external_body]
fn random_id() -> (r: u128) {
    uuid::Uuid::new_v4().as_u128()
}

/// One connection's server-side state: its assigned id and, once it has
/// joined, its cached display name.
pub struct Session {
    pub id: u128,
    pub name: Option<String>,
}

impl Session {
    /// Active means the first valid Join was seen.
    pub open spec fn is_active(self) -> bool {
        self.name is Some
    }

    /// A fresh anonymous session under a newly drawn random id.
    pub fn new() -> (s: Session)
        ensures
            !s.is_active(),
    {
        Session { id: random_id(), name: None }
    }

    /// A fresh anonymous session under a caller-chosen id.
    pub fn with_id(id: u128) -> (s: Session)
        ensures
            s.id == id,
            !s.is_active(),
    {
        Session { id, name: None }
    }

    /// Applies one inbound message to the hub and returns what it publishes.
    ///
    /// Join activates the session (refreshing only the cached name on a
    /// repeat) and runs the hub's join under the session's own id. Chat and
    /// VideoFrame are forwarded under the session's id and the roster's
    /// name — the client-supplied id and name in the message are discarded —
    /// and are dropped while the session is anonymous. Every other inbound
    /// variant is ignored.
    pub fn on_message(&mut self, hub: &mut Hub, msg: Message, now: u64) -> (out: Vec<Message>)
        requires
            old(hub).wf(),
        ensures
            final(hub).wf(),
            final(self).id == old(self).id,
            final(hub).spec_ngrok_url() == old(hub).spec_ngrok_url(),
            final(hub).spec_room_name() == old(hub).spec_room_name(),
            msg@ matches MsgView::Join { username, .. } ==> {
                &&& final(self).is_active()
                &&& final(self).name matches Some(n) && n@ == username
                &&& final(hub).roster() == join_roster(old(hub).roster(), old(self).id, username, now)
                &&& msgs_view(out@) == join_events(old(hub).roster(), old(self).id, username, now)
            },
            msg@ matches MsgView::Chat { text, .. } ==> {
                &&& *final(self) == *old(self)
                &&& *final(hub) == *old(hub)
                &&& (old(self).is_active() ==> msgs_view(out@) == opt_seq(
                    chat_event(old(hub).roster(), old(self).id, text, now),
                ))
                &&& (!old(self).is_active() ==> out@.len() == 0)
            },
            msg@ matches MsgView::VideoFrame { frame, .. } ==> {
                &&& *final(self) == *old(self)
                &&& *final(hub) == *old(hub)
                &&& (old(self).is_active() ==> msgs_view(out@) == opt_seq(
                    frame_event(old(hub).roster(), old(self).id, frame),
                ))
                &&& (!old(self).is_active() ==> out@.len() == 0)
            },
            !(msg@ is Join) && !(msg@ is Chat) && !(msg@ is VideoFrame) ==> *final(self) == *old(self) && *final(hub) == *old(hub) && out@.len() == 0,
    {
        match msg {
            Message::Join { username, .. } => {
                self.name = Some(username.clone());
                let out = hub.join(self.id, username, now);
                out
            },
            Message::Chat { text, .. } => {
                let mut out: Vec<Message> = Vec::new();
                if self.name.is_some() {
                    match hub.chat(self.id, text, now) {
                        Some(m) => {
                            out.push(m);
                            proof {
                                assert(msgs_view(out@) =~= opt_seq(
                                    chat_event(hub.roster(), self.id, msg@->Chat_text, now),
                                ));
                            }
                        },
                        None => {
                            proof {
                                assert(msgs_view(out@) =~= Seq::<MsgView>::empty());
                            }
                        },
                    }
                }
                out
            },
            Message::VideoFrame { frame, .. } => {
                let mut out: Vec<Message> = Vec::new();
                if self.name.is_some() {
                    match hub.frame(self.id, frame) {
                        Some(m) => {
                            out.push(m);
                            proof {
                                assert(msgs_view(out@) =~= opt_seq(
                                    frame_event(hub.roster(), self.id, msg@->VideoFrame_frame),
                                ));
                            }
                        },
                        None => {
                            proof {
                                assert(msgs_view(out@) =~= Seq::<MsgView>::empty());
                            }
                        },
                    }
                }
                out
            },
            _ => {
                let out: Vec<Message> = Vec::new();
                out
            },
        }
    }

    /// Tears the session's roster presence down: removes its entry and
    /// yields the Leave event on the first call, nothing on any later one.
    pub fn disconnect(&mut self, hub: &mut Hub) -> (out: Option<Message>)
        requires
            old(hub).wf(),
        ensures
            final(hub).wf(),
            *final(self) == *old(self),
            final(hub).roster() == leave_roster(old(hub).roster(), old(self).id),
            final(hub).spec_ngrok_url() == old(hub).spec_ngrok_url(),
            final(hub).spec_room_name() == old(hub).spec_room_name(),
            opt_view(out) == leave_event(old(hub).roster(), old(self).id),
    {
        hub.leave(self.id)
    }
}

/// An optional event as a publish batch: one message, or none.
pub open spec fn opt_seq(m: Option<MsgView>) -> Seq<MsgView> {
    match m {
        Some(v) => seq![v],
        None => Seq::empty(),
    }
}

/// The single-execution guard shared by a session's two flows: whichever
/// flow finishes first claims teardown, and every later claim is refused.
pub struct TeardownGuard {
    pub done: bool,
}

impl TeardownGuard {
    pub open spec fn is_done(self) -> bool {
        self.done
    }

    /// A guard on which teardown has not yet run.
    pub fn new() -> (g: TeardownGuard)
        ensures
            !g.is_done(),
    {
        TeardownGuard { done: false }
    }

    /// Returns whether the caller won the right to run teardown; at most one
    /// caller ever does.
    pub fn claim(&mut self) -> (won: bool)
        ensures
            won == !old(self).is_done(),
            final(self).is_done(),
    {
        let won = !self.done;
        self.done = true;
        won
    }
}

} // verus!
