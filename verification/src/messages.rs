//! The message variant set: the data carried on the wire, together with its
//! mathematical view.

use vstd::prelude::*;

verus! {

/// An opaque 128-bit value naming one connected peer for the life of its
/// connection. Chosen by the connecting client; the server never assigns one.
#[derive(Clone, Copy, PartialEq, Eq, Structural, Debug, Hash)]
pub struct ClientId(pub u128);

/// One protocol message. Every wire line carries exactly one of these.
#[derive(Debug)]
pub enum Message {
    /// Handshake: "I am this identifier". Must be the first line a client sends.
    Log { client_id: ClientId },
    /// A relayable chat line; `timestamp` is in seconds since the Unix epoch.
    Chat { content: String, client_id: ClientId, timestamp: i64 },
    /// Liveness probe; reserved, but it must round-trip through the codec.
    Heartbeat,
    /// Server-originated informational text; reserved, must round-trip.
    System { content: String },
}

/// The mathematical value of a [`Message`]: text as a sequence of characters,
/// identifiers as their 128-bit value.
#[verifier::ext_equal]
pub ghost enum MessageView {
    Log { client_id: u128 },
    Chat { content: Seq<char>, client_id: u128, timestamp: i64 },
    Heartbeat,
    System { content: Seq<char> },
}

impl MessageView {
    /// A well-formed message: chat text is never empty.
    pub open spec fn wf(self) -> bool {
        match self {
            MessageView::Chat { content, .. } => content.len() > 0,
            _ => true,
        }
    }
}

impl View for Message {
    type V = MessageView;

    open spec fn view(&self) -> MessageView {
        match self {
            Message::Log { client_id } => MessageView::Log { client_id: client_id.0 },
            Message::Chat { content, client_id, timestamp } => MessageView::Chat {
                content: content@,
                client_id: client_id.0,
                timestamp: *timestamp,
            },
            Message::Heartbeat => MessageView::Heartbeat,
            Message::System { content } => MessageView::System { content: content@ },
        }
    }
}

impl Message {
    /// Server-originated informational text.
    pub fn system(content: &str) -> (m: Message)
        ensures
            m@ == (MessageView::System { content: content@ }),
    {
        Message::System { content: content.to_owned() }
    }

    /// The handshake message for the given identifier.
    pub fn log(client_id: ClientId) -> (m: Message)
        ensures
            m@ == (MessageView::Log { client_id: client_id.0 }),
    {
        Message::Log { client_id }
    }

    /// A chat line from `client_id`, stamped with the clock's current reading.
    pub fn chat(client_id: ClientId, content: &str) -> (m: Message)
        ensures
            m@ matches MessageView::Chat { content: c, client_id: id, timestamp: _ }
                && c == content@ && id == client_id.0,
    {
        Message::Chat { content: content.to_owned(), client_id, timestamp: Message::timestamp() }
    }

    /// A liveness probe.
    pub fn heartbeat() -> (m: Message)
        ensures
            m@ == MessageView::Heartbeat,
    {
        Message::Heartbeat
    }

    /// Relies on `std::time::SystemTime::now`: seconds of the system clock
    /// since the Unix epoch. The reading depends on the clock, so nothing is
    /// promised of the value.
    #[verifier::external_body]
    pub fn timestamp() -> i64 {
        match std::time::SystemTime::now().duration_since(std::time::UNIX_EPOCH) {
            Ok(d) => d.as_secs() as i64,
            Err(_) => 0,
        }
    }

    /// A structurally equal copy (chat text and all).
    pub fn duplicate(&self) -> (m: Message)
        ensures
            m == self,
    {
        match self {
            Message::Log { client_id } => Message::Log { client_id: *client_id },
            Message::Chat { content, client_id, timestamp } => Message::Chat {
                content: content.clone(),
                client_id: *client_id,
                timestamp: *timestamp,
            },
            Message::Heartbeat => Message::Heartbeat,
            Message::System { content } => Message::System { content: content.clone() },
        }
    }
}

impl PartialEq for Message {
    /// Structural equality, chat text included.
    fn eq(&self, other: &Message) -> (r: bool) {
        match (self, other) {
            (Message::Log { client_id: a }, Message::Log { client_id: b }) => a.0 == b.0,
            (
                Message::Chat { content: c1, client_id: a, timestamp: t1 },
                Message::Chat { content: c2, client_id: b, timestamp: t2 },
            ) => c1.eq(c2) && a.0 == b.0 && *t1 == *t2,
            (Message::Heartbeat, Message::Heartbeat) => true,
            (Message::System { content: c1 }, Message::System { content: c2 }) => c1.eq(c2),
            _ => false,
        }
    }
}

impl vstd::std_specs::cmp::PartialEqSpecImpl for Message {
    open spec fn obeys_eq_spec() -> bool {
        true
    }

    open spec fn eq_spec(&self, other: &Message) -> bool {
        self@ == other@
    }
}

impl Eq for Message {

}

} // verus!
