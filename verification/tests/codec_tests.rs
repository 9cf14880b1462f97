//! The codec: exact wire forms, round trips, and rejection of everything
//! that is not the encoding of a well-formed message.

use chat_relay::codec::{decode, encode};
use chat_relay::messages::{ClientId, Message};

fn chat(id: u128, content: &str, timestamp: i64) -> Message {
    Message::Chat { content: content.to_string(), client_id: ClientId(id), timestamp }
}

#[test]
fn encode_log_exact() {
    let m = Message::log(ClientId(0xaaaa));
    let line = encode(&m);
    assert_eq!(line, "{\"type\":\"log\",\"client_id\":\"0000000000000000000000000000aaaa\"}\n");
}

#[test]
fn encode_chat_exact() {
    let m = chat(1, "hello", 42);
    let line = encode(&m);
    assert_eq!(
        line,
        "{\"type\":\"chat\",\"client_id\":\"00000000000000000000000000000001\",\"content\":\"hello\",\"timestamp\":42}\n"
    );
}

#[test]
fn encode_heartbeat_exact() {
    let line = encode(&Message::heartbeat());
    assert_eq!(line, "{\"type\":\"heartbeat\"}\n");
}

#[test]
fn encode_system_exact() {
    let line = encode(&Message::system("maintenance at noon"));
    assert_eq!(line, "{\"type\":\"system\",\"content\":\"maintenance at noon\"}\n");
}

#[test]
fn encode_escapes_exact() {
    let m = Message::system("a\"b\\c\nd\re\tf");
    let line = encode(&m);
    assert_eq!(line, "{\"type\":\"system\",\"content\":\"a\\\"b\\\\c\\nd\\re\\tf\"}\n");
}

#[test]
fn encode_negative_timestamp_exact() {
    let m = chat(0xff, "x", -7);
    let line = encode(&m);
    assert_eq!(
        line,
        "{\"type\":\"chat\",\"client_id\":\"000000000000000000000000000000ff\",\"content\":\"x\",\"timestamp\":-7}\n"
    );
}

#[test]
fn round_trip_log() {
    let m = Message::log(ClientId(0x123456789abcdef0123456789abcdef0));
    assert_eq!(decode(&encode(&m)).unwrap(), m);
}

#[test]
fn round_trip_chat() {
    let m = chat(u128::MAX, "hello there", 1700000000);
    assert_eq!(decode(&encode(&m)).unwrap(), m);
}

#[test]
fn round_trip_heartbeat() {
    let m = Message::heartbeat();
    assert_eq!(decode(&encode(&m)).unwrap(), m);
}

#[test]
fn round_trip_system() {
    let m = Message::system("the server says hi");
    assert_eq!(decode(&encode(&m)).unwrap(), m);
}

#[test]
fn round_trip_escaped_content() {
    let m = chat(7, "quote \" backslash \\ newline \n tab \t cr \r done", 0);
    assert_eq!(decode(&encode(&m)).unwrap(), m);
}

#[test]
fn round_trip_extreme_timestamps() {
    for ts in [i64::MIN, i64::MIN + 1, -1, 0, 1, i64::MAX - 1, i64::MAX] {
        let m = chat(3, "t", ts);
        assert_eq!(decode(&encode(&m)).unwrap(), m);
    }
}

#[test]
fn round_trip_identifier_extremes() {
    for id in [0u128, 1, 0xaaaa, u128::MAX / 2, u128::MAX] {
        let m = Message::log(ClientId(id));
        assert_eq!(decode(&encode(&m)).unwrap(), m);
    }
}

#[test]
fn decode_ignores_surrounding_whitespace() {
    let m = chat(2, "hi", 5);
    let line = encode(&m);
    let padded = format!("  \t{} \r\n", line.trim_end());
    assert_eq!(decode(&padded).unwrap(), m);
}

#[test]
fn decode_accepts_line_without_newline() {
    let m = Message::log(ClientId(9));
    let line = encode(&m);
    assert_eq!(decode(line.trim_end()).unwrap(), m);
}

#[test]
fn decode_rejects_non_json() {
    assert!(decode("this is not json").is_err());
    assert!(decode("").is_err());
    assert!(decode("   \t  ").is_err());
    assert!(decode("{").is_err());
    assert!(decode("{}").is_err());
    assert!(decode("[1,2,3]").is_err());
}

#[test]
fn decode_rejects_unknown_variant() {
    assert!(decode("{\"type\":\"nope\"}").is_err());
    assert!(decode("{\"type\":\"logg\",\"client_id\":\"00000000000000000000000000000001\"}").is_err());
}

#[test]
fn decode_rejects_bad_identifier() {
    // Too short.
    assert!(decode("{\"type\":\"log\",\"client_id\":\"abcd\"}").is_err());
    // Not hex.
    assert!(decode("{\"type\":\"log\",\"client_id\":\"zzzzzzzzzzzzzzzzzzzzzzzzzzzzzzzz\"}").is_err());
    // Uppercase is not the wire form.
    assert!(decode("{\"type\":\"log\",\"client_id\":\"0000000000000000000000000000AAAA\"}").is_err());
}

#[test]
fn decode_rejects_empty_chat_content() {
    let line = "{\"type\":\"chat\",\"client_id\":\"00000000000000000000000000000001\",\"content\":\"\",\"timestamp\":1}";
    assert!(decode(line).is_err());
}

#[test]
fn decode_rejects_bad_timestamps() {
    let with_ts = |ts: &str| {
        format!(
            "{{\"type\":\"chat\",\"client_id\":\"00000000000000000000000000000001\",\"content\":\"x\",\"timestamp\":{}}}",
            ts
        )
    };
    // Too large for a signed 64-bit value.
    assert!(decode(&with_ts("9223372036854775808")).is_err());
    assert!(decode(&with_ts("-9223372036854775809")).is_err());
    assert!(decode(&with_ts("99999999999999999999")).is_err());
    // Not canonical decimal.
    assert!(decode(&with_ts("01")).is_err());
    assert!(decode(&with_ts("-0")).is_err());
    assert!(decode(&with_ts("")).is_err());
    assert!(decode(&with_ts("1.5")).is_err());
    // The extremes themselves are fine.
    assert!(decode(&with_ts("9223372036854775807")).is_ok());
    assert!(decode(&with_ts("-9223372036854775808")).is_ok());
}

#[test]
fn decode_rejects_interior_whitespace() {
    // Whitespace around the line is fine; inside the object it is not part
    // of the wire convention.
    assert!(decode("{ \"type\":\"heartbeat\"}").is_err());
    assert!(decode("{\"type\": \"heartbeat\"}").is_err());
}

#[test]
fn decode_rejects_trailing_garbage() {
    let line = encode(&Message::heartbeat());
    let bad = format!("{}x", line.trim_end());
    assert!(decode(&bad).is_err());
}

#[test]
fn decode_rejects_unterminated_string() {
    assert!(decode("{\"type\":\"system\",\"content\":\"open").is_err());
    assert!(decode("{\"type\":\"system\",\"content\":\"bad\\").is_err());
    assert!(decode("{\"type\":\"system\",\"content\":\"bad\\q\"}").is_err());
}

#[test]
fn decode_rejects_raw_control_characters_in_text() {
    // A raw tab inside the string field is not the wire form (it must be \t).
    assert!(decode("{\"type\":\"system\",\"content\":\"a\tb\"}").is_err());
}

#[test]
fn decode_system_with_empty_content_is_fine() {
    let m = Message::system("");
    assert_eq!(decode(&encode(&m)).unwrap(), m);
}

#[test]
fn duplicate_is_equal() {
    let m = chat(11, "copy me", 99);
    assert_eq!(m.duplicate(), m);
    let h = Message::heartbeat();
    assert_eq!(h.duplicate(), h);
}
