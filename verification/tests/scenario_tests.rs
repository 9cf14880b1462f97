//! End-to-end scenarios, driving sessions, registry and hub exactly as the
//! serving process does: one session per connection, registration on
//! handshake, fan-out through the hub, sender exclusion at delivery.

use chat_relay::client::{handshake_line, incoming_line, outgoing_chat_line};
use chat_relay::hub::Hub;
use chat_relay::messages::{ClientId, Message};
use chat_relay::registry::Registry;
use chat_relay::session::{teardown, Session, SessionAction, SessionEvent, SessionState};

/// One connected client, as the server sees it.
struct Connected {
    session: Session,
    id: ClientId,
    token: usize,
    /// Lines written back to this peer.
    received: Vec<Message>,
}

/// Feed one inbound line from `who` into the server, as the inbound loop does.
fn server_takes_line(hub: &mut Hub, who: &mut Connected, line: String, now: i64) {
    match who.session.step(SessionEvent::Line(line), now) {
        SessionAction::Publish(m) => hub.publish(&m),
        SessionAction::Idle => {}
        _ => panic!("an active session only publishes or skips on a line"),
    }
}

/// Drain `who`'s subscription, as the outbound loop does: filter, encode,
/// write; here the write lands in `received`, decoded back like a real peer
/// (through the transport client's reader).
fn server_drains(hub: &mut Hub, who: &mut Connected) {
    while let Some(m) = hub.recv(who.token) {
        match who.session.step(SessionEvent::HubMessage(m), 0) {
            SessionAction::Deliver(line) => {
                let got = incoming_line(&line).expect("delivered lines always decode");
                who.received.push(got);
            }
            SessionAction::Idle => {}
            _ => panic!("a hub message only delivers or is dropped"),
        }
    }
}

/// Accept a connection whose first line is a proper handshake.
fn connect(hub: &mut Hub, registry: &mut Registry, id: ClientId) -> Connected {
    let mut session = Session::new();
    match session.step(SessionEvent::Line(handshake_line(id)), 0) {
        SessionAction::Register(got) => {
            assert_eq!(got, id);
            let token = hub.subscribe();
            registry.register(got, token);
            Connected { session, id, token, received: Vec::new() }
        }
        _ => panic!("a handshake line must register"),
    }
}

#[test]
fn two_clients_chat_with_sender_exclusion() {
    let mut hub = Hub::new(1000);
    let mut registry = Registry::new();

    let mut a = connect(&mut hub, &mut registry, ClientId(0xaaaa));
    let line = outgoing_chat_line(a.id, "hello", 100);
    server_takes_line(&mut hub, &mut a, line, 100);

    // B connects after A's message: no replay for B...
    let mut b = connect(&mut hub, &mut registry, ClientId(0xbbbb));
    server_drains(&mut hub, &mut b);
    assert!(b.received.is_empty());

    // ...so A speaks again, now with B listening.
    let line = outgoing_chat_line(a.id, "hello", 101);
    server_takes_line(&mut hub, &mut a, line, 101);

    server_drains(&mut hub, &mut b);
    assert_eq!(b.received.len(), 1);
    match &b.received[0] {
        Message::Chat { content, client_id, .. } => {
            assert_eq!(content, "hello");
            assert_eq!(*client_id, ClientId(0xaaaa));
        }
        _ => panic!("B must receive A's chat"),
    }

    // A never receives its own message back.
    server_drains(&mut hub, &mut a);
    assert!(a.received.is_empty());
}

#[test]
fn per_sender_order_is_preserved() {
    let mut hub = Hub::new(1000);
    let mut registry = Registry::new();
    let mut a = connect(&mut hub, &mut registry, ClientId(1));
    let mut b = connect(&mut hub, &mut registry, ClientId(2));

    for (text, now) in [("one", 1), ("two", 2), ("three", 3)] {
        let line = outgoing_chat_line(a.id, text, now);
        server_takes_line(&mut hub, &mut a, line, now);
    }
    server_drains(&mut hub, &mut b);
    let texts: Vec<String> = b
        .received
        .iter()
        .map(|m| match m {
            Message::Chat { content, .. } => content.clone(),
            _ => panic!("only chat is delivered"),
        })
        .collect();
    assert_eq!(texts, vec!["one".to_string(), "two".to_string(), "three".to_string()]);
}

#[test]
fn raw_garbage_at_the_transport_leaves_other_clients_unaffected() {
    let mut hub = Hub::new(1000);
    let mut registry = Registry::new();
    let mut a = connect(&mut hub, &mut registry, ClientId(0xaaaa));
    let mut b = connect(&mut hub, &mut registry, ClientId(0xbbbb));

    // A third connection bypasses the client library and writes raw bytes as
    // its first line: that connection dies before registration...
    let mut rogue = Session::new();
    let act = rogue.step(SessionEvent::Line("\u{1}\u{2} not json at all".to_string()), 0);
    assert!(matches!(act, SessionAction::Close));
    assert_eq!(rogue.state, SessionState::Terminated);

    // ...and an established client sending garbage mid-session is skipped.
    server_takes_line(&mut hub, &mut a, "also { not : json".to_string(), 5);

    // Other clients keep chatting undisturbed.
    let line = outgoing_chat_line(a.id, "still here", 6);
    server_takes_line(&mut hub, &mut a, line, 6);
    server_drains(&mut hub, &mut b);
    assert_eq!(b.received.len(), 1);
}

#[test]
fn fifty_clients_each_receive_all_but_their_own() {
    let mut hub = Hub::new(1000);
    let mut registry = Registry::new();

    let n: u128 = 50;
    let mut clients: Vec<Connected> = Vec::new();
    for i in 0..n {
        clients.push(connect(&mut hub, &mut registry, ClientId(i + 1)));
    }
    for i in 0..n as usize {
        let text = format!("message from {}", i + 1);
        let line = outgoing_chat_line(clients[i].id, &text, i as i64);
        server_takes_line(&mut hub, &mut clients[i], line, i as i64);
    }
    for c in clients.iter_mut() {
        server_drains(&mut hub, c);
        assert_eq!(c.received.len(), 49);
        for m in &c.received {
            match m {
                Message::Chat { client_id, .. } => assert_ne!(*client_id, c.id),
                _ => panic!("only chat is delivered"),
            }
        }
    }
}

#[test]
fn teardown_cleans_registry_and_subscription() {
    let mut hub = Hub::new(100);
    let mut registry = Registry::new();
    let mut a = connect(&mut hub, &mut registry, ClientId(0xaaaa));
    let b = connect(&mut hub, &mut registry, ClientId(0xbbbb));

    // A's read side ends: first loop to finish wins, the session closes.
    let act = a.session.step(SessionEvent::ReadEnd, 0);
    assert!(matches!(act, SessionAction::Close));
    teardown(&mut registry, &mut hub, a.id, a.token);
    assert!(!registry.contains(a.id));
    assert!(registry.contains(b.id));

    // The identifier is free for a new connection at once.
    let a2 = connect(&mut hub, &mut registry, ClientId(0xaaaa));
    assert_eq!(registry.lookup(ClientId(0xaaaa)), Some(a2.token));
}
