//! The consumer-side transport logic: what a connecting client writes and
//! what it makes of each line it receives. The dialing, the background loops
//! and the channels live in the surrounding process; everything that decides
//! bytes is here.

use vstd::prelude::*;

use crate::codec::{decode, decode_spec, encode, encode_spec};
use crate::messages::{ClientId, Message, MessageView};

verus! {

/// The first line a connecting client sends: its handshake, declaring the
/// identifier it chose for this connection.
pub fn handshake_line(id: ClientId) -> (r: String)
    ensures
        r@ == encode_spec(MessageView::Log { client_id: id.0 }),
{
    encode(&Message::log(id))
}

/// One outgoing chat line: the enqueued text, stamped with the local
/// identifier and the clock reading the caller supplies.
pub fn outgoing_chat_line(id: ClientId, text: &str, now: i64) -> (r: String)
    ensures
        r@ == encode_spec(
            MessageView::Chat { content: text@, client_id: id.0, timestamp: now },
        ),
{
    let m = Message::Chat { content: text.to_owned(), client_id: id, timestamp: now };
    encode(&m)
}

/// What the client-side reader does with one received line: a line that
/// decodes passes through to the consumer, anything else is dropped.
pub fn incoming_line(line: &str) -> (r: Option<Message>)
    ensures
        match r {
            Some(m) => m@.wf() && decode_spec(line@) == Some(m@),
            None => decode_spec(line@) is None,
        },
{
    match decode(line) {
        Ok(m) => Some(m),
        Err(_) => None,
    }
}

/// The consumer-facing reading of a received message: the text of a chat
/// line; other variants carry nothing to show.
pub fn chat_text(m: Message) -> (r: Option<String>)
    ensures
        match r {
            Some(s) => m@ is Chat && s@ == m@->Chat_content,
            None => !(m@ is Chat),
        },
{
    match m {
        Message::Chat { content, .. } => Some(content),
        _ => None,
    }
}

} // verus!
