//! The per-connection session: a state machine from handshake to teardown.
//!
//! A session starts awaiting its handshake: the first non-blank line must be
//! a `Log` message, which registers the connection under its self-declared
//! identifier; anything else ends the session before it ever touches the
//! registry or the hub. Once active, inbound chat lines are republished
//! re-stamped with the authenticated identifier (a client-supplied identifier
//! on a chat line is never trusted), malformed lines are skipped, and hub
//! messages are relayed to the peer unless the session itself sent them.
//! Whichever direction fails first terminates the session; the surrounding
//! process then runs [`teardown`].

use vstd::prelude::*;

use crate::codec::{decode, decode_spec, encode, encode_spec, is_blank, trim_spec};
use crate::hub::Hub;
use crate::messages::{ClientId, Message, MessageView};
use crate::registry::Registry;

verus! {

/// Where a session stands in its life cycle.
#[derive(Clone, Copy, PartialEq, Eq, Structural, Debug)]
pub enum SessionState {
    /// Connected, but no handshake line has arrived yet.
    AwaitingHandshake,
    /// Handshake accepted; the session speaks for this identifier.
    Active { client_id: ClientId },
    /// Finished; only cleanup remains.
    Terminated,
}

/// One thing that can happen to a session.
pub enum SessionEvent {
    /// The peer sent one line (without its terminating newline).
    Line(String),
    /// The peer closed its writing side (end of stream).
    ReadEnd,
    /// Reading from the peer failed.
    ReadFailed,
    /// The hub handed this session's subscription a message.
    HubMessage(Message),
    /// Writing to the peer failed.
    WriteFailed,
}

/// What the surrounding process must do after a step.
pub enum SessionAction {
    /// Nothing.
    Idle,
    /// Put this identifier in the registry and subscribe to the hub.
    Register(ClientId),
    /// Publish this message to the hub.
    Publish(Message),
    /// Write this already-encoded line to the peer.
    Deliver(String),
    /// Unregister, unsubscribe, close the connection, stop both loops.
    Close,
}

/// The mathematical value of an event.
pub ghost enum SessionEventView {
    Line(Seq<char>),
    ReadEnd,
    ReadFailed,
    HubMessage(MessageView),
    WriteFailed,
}

/// The mathematical value of an action.
pub ghost enum SessionActionView {
    Idle,
    Register(u128),
    Publish(MessageView),
    Deliver(Seq<char>),
    Close,
}

impl View for SessionEvent {
    type V = SessionEventView;

    open spec fn view(&self) -> SessionEventView {
        match self {
            SessionEvent::Line(l) => SessionEventView::Line(l@),
            SessionEvent::ReadEnd => SessionEventView::ReadEnd,
            SessionEvent::ReadFailed => SessionEventView::ReadFailed,
            SessionEvent::HubMessage(m) => SessionEventView::HubMessage(m@),
            SessionEvent::WriteFailed => SessionEventView::WriteFailed,
        }
    }
}

impl View for SessionAction {
    type V = SessionActionView;

    open spec fn view(&self) -> SessionActionView {
        match self {
            SessionAction::Idle => SessionActionView::Idle,
            SessionAction::Register(id) => SessionActionView::Register(id.0),
            SessionAction::Publish(m) => SessionActionView::Publish(m@),
            SessionAction::Deliver(l) => SessionActionView::Deliver(l@),
            SessionAction::Close => SessionActionView::Close,
        }
    }
}

/// The delivery decision an active session makes for one hub message:
/// relay chat from other clients, drop everything else — in particular its
/// own messages, which are never echoed back.
pub open spec fn relay_spec(own: u128, m: MessageView) -> SessionActionView {
    match m {
        MessageView::Chat { client_id, .. } => if client_id != own {
            SessionActionView::Deliver(encode_spec(m))
        } else {
            SessionActionView::Idle
        },
        _ => SessionActionView::Idle,
    }
}

/// The whole state machine: next state and required action, for every state
/// and event.
pub open spec fn step_spec(s: SessionState, ev: SessionEventView, now: i64) -> (
    SessionState,
    SessionActionView,
) {
    match s {
        SessionState::AwaitingHandshake => match ev {
            SessionEventView::Line(l) => {
                if trim_spec(l).len() == 0 {
                    (SessionState::AwaitingHandshake, SessionActionView::Idle)
                } else {
                    match decode_spec(l) {
                        Some(MessageView::Log { client_id }) => (
                            SessionState::Active { client_id: ClientId(client_id) },
                            SessionActionView::Register(client_id),
                        ),
                        _ => (SessionState::Terminated, SessionActionView::Close),
                    }
                }
            }
            SessionEventView::HubMessage(_) => (
                SessionState::AwaitingHandshake,
                SessionActionView::Idle,
            ),
            _ => (SessionState::Terminated, SessionActionView::Close),
        },
        SessionState::Active { client_id } => match ev {
            SessionEventView::Line(l) => {
                if trim_spec(l).len() == 0 {
                    (s, SessionActionView::Idle)
                } else {
                    match decode_spec(l) {
                        Some(MessageView::Chat { content, .. }) => (
                            s,
                            SessionActionView::Publish(
                                MessageView::Chat {
                                    content,
                                    client_id: client_id.0,
                                    timestamp: now,
                                },
                            ),
                        ),
                        _ => (s, SessionActionView::Idle),
                    }
                }
            }
            SessionEventView::HubMessage(m) => (s, relay_spec(client_id.0, m)),
            _ => (SessionState::Terminated, SessionActionView::Close),
        },
        SessionState::Terminated => (SessionState::Terminated, SessionActionView::Idle),
    }
}

/// The server-side state of one accepted connection.
pub struct Session {
    pub state: SessionState,
}

impl Session {
    pub fn new() -> (s: Session)
        ensures
            s.state == SessionState::AwaitingHandshake,
    {
        Session { state: SessionState::AwaitingHandshake }
    }

    /// Feed one event through the state machine; `now` stamps any chat line
    /// this step republishes.
    pub fn step(&mut self, event: SessionEvent, now: i64) -> (a: SessionAction)
        ensures
            final(self).state == step_spec(old(self).state, event@, now).0,
            a@ == step_spec(old(self).state, event@, now).1,
    {
        match self.state {
            SessionState::AwaitingHandshake => match event {
                SessionEvent::Line(l) => {
                    if is_blank(l.as_str()) {
                        SessionAction::Idle
                    } else {
                        match decode(l.as_str()) {
                            Ok(Message::Log { client_id }) => {
                                self.state = SessionState::Active { client_id };
                                SessionAction::Register(client_id)
                            }
                            Ok(_) => {
                                self.state = SessionState::Terminated;
                                SessionAction::Close
                            }
                            Err(_) => {
                                self.state = SessionState::Terminated;
                                SessionAction::Close
                            }
                        }
                    }
                }
                SessionEvent::HubMessage(_) => SessionAction::Idle,
                _ => {
                    self.state = SessionState::Terminated;
                    SessionAction::Close
                }
            },
            SessionState::Active { client_id } => match event {
                SessionEvent::Line(l) => {
                    if is_blank(l.as_str()) {
                        SessionAction::Idle
                    } else {
                        match decode(l.as_str()) {
                            Ok(Message::Chat { content, client_id: _, timestamp: _ }) => {
                                SessionAction::Publish(
                                    Message::Chat { content, client_id, timestamp: now },
                                )
                            }
                            Ok(_) => SessionAction::Idle,
                            Err(_) => SessionAction::Idle,
                        }
                    }
                }
                SessionEvent::HubMessage(m) => match relay_line(client_id, &m) {
                    Some(line) => SessionAction::Deliver(line),
                    None => SessionAction::Idle,
                },
                _ => {
                    self.state = SessionState::Terminated;
                    SessionAction::Close
                }
            },
            SessionState::Terminated => SessionAction::Idle,
        }
    }
}

/// The outbound filter of one active session: the encoded line to write for
/// a hub message, or nothing when the message is not chat from another
/// client.
pub fn relay_line(own: ClientId, m: &Message) -> (r: Option<String>)
    ensures
        match r {
            Some(line) => relay_spec(own.0, m@) == SessionActionView::Deliver(line@),
            None => relay_spec(own.0, m@) == SessionActionView::Idle,
        },
{
    match m {
        Message::Chat { client_id, .. } => {
            if client_id.0 != own.0 {
                Some(encode(m))
            } else {
                None
            }
        }
        _ => None,
    }
}

/// What the inbound half does with one line read from the peer, outside the
/// handshake: the same decision `step` makes on a `Line` event.
pub fn inbound_line(session: &mut Session, line: String, now: i64) -> (a: SessionAction)
    ensures
        final(session).state == step_spec(
            old(session).state,
            SessionEventView::Line(line@),
            now,
        ).0,
        a@ == step_spec(old(session).state, SessionEventView::Line(line@), now).1,
{
    session.step(SessionEvent::Line(line), now)
}

/// End-of-session cleanup: afterwards the identifier is gone from the
/// registry (so a reconnecting client may reuse it at once) and the hub
/// subscription is detached with an empty queue; nothing else changes.
pub fn teardown(registry: &mut Registry, hub: &mut Hub, id: ClientId, token: usize)
    requires
        old(registry).wf(),
        old(hub).wf(),
        token < old(hub).sub_count(),
    ensures
        final(registry).wf(),
        final(hub).wf(),
        final(registry)@ == old(registry)@.remove(id.0),
        !final(registry)@.dom().contains(id.0),
        final(hub).sub_count() == old(hub).sub_count(),
        final(hub).history() == old(hub).history(),
        final(hub).cap() == old(hub).cap(),
        !final(hub).is_active(token as int),
        final(hub).queue_of(token as int) == Seq::<MessageView>::empty(),
        forall|i: int| 0 <= i < old(hub).sub_count() && i != token ==> final(hub).is_active(i) == old(hub).is_active(i) && final(hub).queue_of(i) == old(hub).queue_of(i) && final(hub).delivered_of(i) == old(hub).delivered_of(i),
{
    registry.unregister(id);
    hub.unsubscribe(token);
}

// ---------------------------------------------------------------------------
// Laws of the state machine.
// ---------------------------------------------------------------------------

/// Handshake gating: a connection that has not completed its handshake never
/// causes a publish or a delivery, whatever line it sends; and a line that
/// decodes to anything but a handshake — a chat line in particular — ends the
/// session unregistered.
pub proof fn lemma_handshake_gating(l: Seq<char>, now: i64)
    ensures
        !(step_spec(SessionState::AwaitingHandshake, SessionEventView::Line(l), now).1
            is Publish),
        !(step_spec(SessionState::AwaitingHandshake, SessionEventView::Line(l), now).1
            is Deliver),
        (trim_spec(l).len() > 0 && (decode_spec(l) matches Some(m) && m is Chat)) ==> step_spec(
            SessionState::AwaitingHandshake,
            SessionEventView::Line(l),
            now,
        ) == (SessionState::Terminated, SessionActionView::Close),
        step_spec(SessionState::AwaitingHandshake, SessionEventView::Line(l), now).0 is Active
            ==> (decode_spec(l) matches Some(m2) && m2 is Log),
{
}

/// Sender exclusion, at the delivery decision: an active session relays a
/// hub message exactly when it is chat from some other client; its own chat
/// is never echoed back to it.
pub proof fn lemma_sender_exclusion(own: ClientId, m: MessageView, now: i64)
    ensures
        (step_spec(
            SessionState::Active { client_id: own },
            SessionEventView::HubMessage(m),
            now,
        ).1 is Deliver) <==> (m is Chat && m->Chat_client_id != own.0),
        (m is Chat && m->Chat_client_id == own.0) ==> step_spec(
            SessionState::Active { client_id: own },
            SessionEventView::HubMessage(m),
            now,
        ).1 is Idle,
{
}

/// What an active session delivers is the exact encoding of the hub message.
pub proof fn lemma_relay_faithful(own: ClientId, m: MessageView, now: i64)
    ensures
        (m is Chat && m->Chat_client_id != own.0) ==> step_spec(
            SessionState::Active { client_id: own },
            SessionEventView::HubMessage(m),
            now,
        ).1 == SessionActionView::Deliver(encode_spec(m)),
{
}

/// Republished chat always carries the session's authenticated identity and
/// the server's stamp: a client-supplied identifier on a chat line never
/// reaches the hub, so no connection can speak for another.
pub proof fn lemma_publish_authenticated(own: ClientId, l: Seq<char>, now: i64)
    ensures
        step_spec(SessionState::Active { client_id: own }, SessionEventView::Line(l), now).1
            matches SessionActionView::Publish(m) ==> m is Chat && m->Chat_client_id == own.0
            && m->Chat_timestamp == now && m.wf(),
{
    let a = step_spec(SessionState::Active { client_id: own }, SessionEventView::Line(l), now).1;
    if a matches SessionActionView::Publish(m) {
        let d = decode_spec(l);
        assert(d matches Some(dm) && dm is Chat);
        if exists|m2: MessageView| crate::codec::decodes_to(l, m2) {
            let w = choose|m2: MessageView| crate::codec::decodes_to(l, m2);
            assert(w.wf());
        }
    }
}

/// After cleanup, the same identifier registers afresh: removal then
/// registration leaves it present, bound to the new subscription.
pub proof fn lemma_identifier_reusable(r: Map<u128, usize>, id: u128, token: usize)
    ensures
        r.remove(id).insert(id, token).dom().contains(id),
        r.remove(id).insert(id, token)[id] == token,
{
}

} // verus!
