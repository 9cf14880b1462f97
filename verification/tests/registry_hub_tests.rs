//! The registry (insert-on-handshake, remove-on-teardown, last writer wins)
//! and the hub (bounded lossy fan-out, FIFO per subscriber, no replay).

use chat_relay::hub::Hub;
use chat_relay::messages::{ClientId, Message};
use chat_relay::registry::Registry;
use chat_relay::session::teardown;

fn chat(id: u128, content: &str, timestamp: i64) -> Message {
    Message::Chat { content: content.to_string(), client_id: ClientId(id), timestamp }
}

#[test]
fn registry_register_and_lookup() {
    let mut r = Registry::new();
    assert!(!r.contains(ClientId(1)));
    r.register(ClientId(1), 0);
    assert!(r.contains(ClientId(1)));
    assert_eq!(r.lookup(ClientId(1)), Some(0));
    assert_eq!(r.lookup(ClientId(2)), None);
}

#[test]
fn registry_last_writer_wins() {
    let mut r = Registry::new();
    r.register(ClientId(7), 0);
    r.register(ClientId(7), 5);
    assert_eq!(r.lookup(ClientId(7)), Some(5));
}

#[test]
fn registry_unregister_is_idempotent() {
    let mut r = Registry::new();
    r.register(ClientId(1), 0);
    r.unregister(ClientId(1));
    assert!(!r.contains(ClientId(1)));
    // Removing what is not there is a no-op.
    r.unregister(ClientId(1));
    r.unregister(ClientId(42));
    assert!(!r.contains(ClientId(1)));
}

#[test]
fn registry_cleanup_allows_identifier_reuse() {
    let mut r = Registry::new();
    let mut h = Hub::new(8);
    let id = ClientId(0xaaaa);
    let token = h.subscribe();
    r.register(id, token);
    assert!(r.contains(id));

    teardown(&mut r, &mut h, id, token);
    assert!(!r.contains(id));

    // A new session reusing the same identifier succeeds at once.
    let token2 = h.subscribe();
    r.register(id, token2);
    assert_eq!(r.lookup(id), Some(token2));
}

#[test]
fn hub_fifo_per_subscriber() {
    let mut h = Hub::new(100);
    let a = h.subscribe();
    h.publish(&chat(1, "first", 10));
    h.publish(&chat(1, "second", 11));
    let m1 = h.recv(a).unwrap();
    let m2 = h.recv(a).unwrap();
    assert_eq!(m1, chat(1, "first", 10));
    assert_eq!(m2, chat(1, "second", 11));
    assert_eq!(h.recv(a), None);
}

#[test]
fn hub_no_replay_for_late_subscribers() {
    let mut h = Hub::new(100);
    let a = h.subscribe();
    h.publish(&chat(1, "early", 1));
    let b = h.subscribe();
    assert_eq!(h.recv(b), None);
    assert_eq!(h.recv(a), Some(chat(1, "early", 1)));
}

#[test]
fn hub_fans_out_to_every_subscriber() {
    let mut h = Hub::new(100);
    let a = h.subscribe();
    let b = h.subscribe();
    let c = h.subscribe();
    h.publish(&chat(2, "to all", 3));
    for t in [a, b, c] {
        assert_eq!(h.recv(t), Some(chat(2, "to all", 3)));
    }
}

#[test]
fn hub_drops_for_full_subscriber_only() {
    let mut h = Hub::new(2);
    let slow = h.subscribe();
    let fast = h.subscribe();
    h.publish(&chat(1, "one", 1));
    h.publish(&chat(1, "two", 2));
    // `slow`'s queue is now full: the third message is dropped for it alone.
    assert_eq!(h.recv(fast), Some(chat(1, "one", 1)));
    assert_eq!(h.recv(fast), Some(chat(1, "two", 2)));
    h.publish(&chat(1, "three", 3));
    assert_eq!(h.recv(fast), Some(chat(1, "three", 3)));

    assert_eq!(h.recv(slow), Some(chat(1, "one", 1)));
    assert_eq!(h.recv(slow), Some(chat(1, "two", 2)));
    // "three" was dropped for the slow subscriber, not queued late.
    assert_eq!(h.recv(slow), None);
}

#[test]
fn hub_unsubscribed_queue_is_gone() {
    let mut h = Hub::new(10);
    let a = h.subscribe();
    let b = h.subscribe();
    h.publish(&chat(1, "kept", 1));
    h.unsubscribe(a);
    assert_eq!(h.recv(a), None);
    h.publish(&chat(1, "later", 2));
    assert_eq!(h.recv(a), None);
    // The other subscription is untouched.
    assert_eq!(h.recv(b), Some(chat(1, "kept", 1)));
    assert_eq!(h.recv(b), Some(chat(1, "later", 2)));
}

#[test]
fn hub_carries_non_chat_variants_too() {
    let mut h = Hub::new(4);
    let a = h.subscribe();
    h.publish(&Message::heartbeat());
    h.publish(&Message::system("note"));
    assert_eq!(h.recv(a), Some(Message::heartbeat()));
    assert_eq!(h.recv(a), Some(Message::system("note")));
}
