//! The per-connection state machine: handshake gating, spoof-proof
//! republication, sender exclusion, and first-failure teardown.

use chat_relay::client::{handshake_line, outgoing_chat_line};
use chat_relay::codec::decode;
use chat_relay::messages::{ClientId, Message};
use chat_relay::session::{Session, SessionAction, SessionEvent, SessionState};

fn chat(id: u128, content: &str, timestamp: i64) -> Message {
    Message::Chat { content: content.to_string(), client_id: ClientId(id), timestamp }
}

#[test]
fn handshake_registers_and_activates() {
    let mut s = Session::new();
    assert_eq!(s.state, SessionState::AwaitingHandshake);
    let a = s.step(SessionEvent::Line(handshake_line(ClientId(0xaaaa))), 0);
    match a {
        SessionAction::Register(id) => assert_eq!(id, ClientId(0xaaaa)),
        _ => panic!("handshake must register"),
    }
    assert_eq!(s.state, SessionState::Active { client_id: ClientId(0xaaaa) });
}

#[test]
fn chat_before_handshake_is_not_relayed() {
    let mut s = Session::new();
    let premature = outgoing_chat_line(ClientId(0xbbbb), "too early", 1);
    let a = s.step(SessionEvent::Line(premature), 1);
    assert!(matches!(a, SessionAction::Close));
    assert_eq!(s.state, SessionState::Terminated);
    // Terminated sessions do nothing further.
    let a2 = s.step(SessionEvent::Line(handshake_line(ClientId(0xbbbb))), 2);
    assert!(matches!(a2, SessionAction::Idle));
    assert_eq!(s.state, SessionState::Terminated);
}

#[test]
fn malformed_handshake_closes() {
    let mut s = Session::new();
    let a = s.step(SessionEvent::Line("not a message".to_string()), 0);
    assert!(matches!(a, SessionAction::Close));
    assert_eq!(s.state, SessionState::Terminated);
}

#[test]
fn blank_lines_are_ignored() {
    let mut s = Session::new();
    let a = s.step(SessionEvent::Line("   \r".to_string()), 0);
    assert!(matches!(a, SessionAction::Idle));
    assert_eq!(s.state, SessionState::AwaitingHandshake);

    s.step(SessionEvent::Line(handshake_line(ClientId(1))), 0);
    let a2 = s.step(SessionEvent::Line(String::new()), 0);
    assert!(matches!(a2, SessionAction::Idle));
    assert_eq!(s.state, SessionState::Active { client_id: ClientId(1) });
}

#[test]
fn inbound_chat_is_republished_with_authenticated_identity() {
    let mut s = Session::new();
    s.step(SessionEvent::Line(handshake_line(ClientId(0xaaaa))), 0);
    // The peer claims to be someone else on the chat line: the republished
    // message must carry the handshake identity and the server's stamp.
    let spoofed = outgoing_chat_line(ClientId(0xffff), "hello", 123);
    let a = s.step(SessionEvent::Line(spoofed), 777);
    match a {
        SessionAction::Publish(m) => {
            assert_eq!(m, chat(0xaaaa, "hello", 777));
        }
        _ => panic!("an inbound chat line must be republished"),
    }
    assert_eq!(s.state, SessionState::Active { client_id: ClientId(0xaaaa) });
}

#[test]
fn malformed_line_while_active_is_skipped_not_fatal() {
    let mut s = Session::new();
    s.step(SessionEvent::Line(handshake_line(ClientId(2))), 0);
    let a = s.step(SessionEvent::Line("{{{{garbage".to_string()), 0);
    assert!(matches!(a, SessionAction::Idle));
    assert_eq!(s.state, SessionState::Active { client_id: ClientId(2) });
    // The session still works afterwards.
    let a2 = s.step(SessionEvent::Line(outgoing_chat_line(ClientId(2), "ok", 1)), 9);
    assert!(matches!(a2, SessionAction::Publish(_)));
}

#[test]
fn non_chat_variants_from_peer_are_ignored() {
    let mut s = Session::new();
    s.step(SessionEvent::Line(handshake_line(ClientId(3))), 0);
    for line in [
        handshake_line(ClientId(4)),
        chat_relay::codec::encode(&Message::heartbeat()),
        chat_relay::codec::encode(&Message::system("x")),
    ] {
        let a = s.step(SessionEvent::Line(line), 0);
        assert!(matches!(a, SessionAction::Idle));
    }
    assert_eq!(s.state, SessionState::Active { client_id: ClientId(3) });
}

#[test]
fn hub_chat_from_other_client_is_delivered() {
    let mut s = Session::new();
    s.step(SessionEvent::Line(handshake_line(ClientId(0xaaaa))), 0);
    let m = chat(0xbbbb, "hi", 5);
    let a = s.step(SessionEvent::HubMessage(m.duplicate()), 0);
    match a {
        SessionAction::Deliver(line) => {
            assert_eq!(decode(&line).unwrap(), m);
            assert!(line.ends_with('\n'));
        }
        _ => panic!("chat from another client must be delivered"),
    }
}

#[test]
fn own_chat_is_never_echoed_back() {
    let mut s = Session::new();
    s.step(SessionEvent::Line(handshake_line(ClientId(0xaaaa))), 0);
    let a = s.step(SessionEvent::HubMessage(chat(0xaaaa, "mine", 5)), 0);
    assert!(matches!(a, SessionAction::Idle));
}

#[test]
fn non_chat_hub_messages_are_not_delivered() {
    let mut s = Session::new();
    s.step(SessionEvent::Line(handshake_line(ClientId(1))), 0);
    let a = s.step(SessionEvent::HubMessage(Message::heartbeat()), 0);
    assert!(matches!(a, SessionAction::Idle));
    let a2 = s.step(SessionEvent::HubMessage(Message::system("notice")), 0);
    assert!(matches!(a2, SessionAction::Idle));
}

#[test]
fn either_direction_failing_closes_the_session() {
    for ev in [SessionEvent::ReadEnd, SessionEvent::ReadFailed, SessionEvent::WriteFailed] {
        let mut s = Session::new();
        s.step(SessionEvent::Line(handshake_line(ClientId(6))), 0);
        let a = s.step(ev, 0);
        assert!(matches!(a, SessionAction::Close));
        assert_eq!(s.state, SessionState::Terminated);
    }
}

#[test]
fn disconnect_before_handshake_closes() {
    let mut s = Session::new();
    let a = s.step(SessionEvent::ReadEnd, 0);
    assert!(matches!(a, SessionAction::Close));
    assert_eq!(s.state, SessionState::Terminated);
}
