//! Message constructors and the consumer-side helpers.

use chat_relay::client::{chat_text, handshake_line, incoming_line};
use chat_relay::messages::{ClientId, Message};

#[test]
fn constructors_build_the_right_variants() {
    assert_eq!(Message::log(ClientId(5)), Message::Log { client_id: ClientId(5) });
    assert_eq!(Message::heartbeat(), Message::Heartbeat);
    assert_eq!(
        Message::system("note"),
        Message::System { content: "note".to_string() },
    );
    match Message::chat(ClientId(9), "hi") {
        Message::Chat { content, client_id, timestamp: _ } => {
            assert_eq!(content, "hi");
            assert_eq!(client_id, ClientId(9));
        }
        _ => panic!("chat must build a chat message"),
    }
}

#[test]
fn timestamps_come_from_a_real_clock() {
    let t1 = Message::timestamp();
    let t2 = Message::timestamp();
    // The clock reading is opaque, but it never runs backwards mid-test by
    // more than a leap adjustment; sanity-check monotonicity loosely.
    assert!(t2 >= t1 - 1);
    // And the epoch is decades in the past.
    assert!(t1 > 1_000_000_000);
}

#[test]
fn incoming_line_drops_undecodable_lines() {
    assert_eq!(incoming_line("junk"), None);
    let id = ClientId(3);
    assert_eq!(incoming_line(&handshake_line(id)), Some(Message::log(id)));
}

#[test]
fn chat_text_extracts_only_chat() {
    let m = Message::Chat { content: "shown".to_string(), client_id: ClientId(1), timestamp: 0 };
    assert_eq!(chat_text(m), Some("shown".to_string()));
    assert_eq!(chat_text(Message::heartbeat()), None);
    assert_eq!(chat_text(Message::system("hidden")), None);
    assert_eq!(chat_text(Message::log(ClientId(1))), None);
}
