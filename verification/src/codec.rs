//! The wire codec: one message per line, a JSON object with a `type` tag.
//!
//! The wire convention, held fixed:
//! - `{"type":"log","client_id":"<32 hex digits>"}`
//! - `{"type":"chat","client_id":"<32 hex digits>","content":"<text>","timestamp":<integer>}`
//! - `{"type":"heartbeat"}`
//! - `{"type":"system","content":"<text>"}`
//!
//! Identifiers are 32 lowercase hex digits; timestamps are decimal with no
//! leading zeros; text escapes `"` `\` and the whitespace controls as `\"`,
//! `\\`, `\n`, `\r`, `\t`. Each encoded line ends with a newline. A decoder
//! ignores surrounding whitespace and otherwise accepts exactly this form.

use vstd::prelude::*;

use crate::messages::{ClientId, Message, MessageView};

verus! {

// ---------------------------------------------------------------------------
// The shape of an encoded line, as specification functions.
// ---------------------------------------------------------------------------

/// Opening of a handshake line, up to the identifier.
pub open spec fn lit_log() -> Seq<char> {
    "{\"type\":\"log\",\"client_id\":\""@
}

/// Opening of a chat line, up to the identifier.
pub open spec fn lit_chat() -> Seq<char> {
    "{\"type\":\"chat\",\"client_id\":\""@
}

/// A whole heartbeat line (it has no fields).
pub open spec fn lit_heartbeat() -> Seq<char> {
    "{\"type\":\"heartbeat\"}"@
}

/// Opening of a system line, up to the text.
pub open spec fn lit_system() -> Seq<char> {
    "{\"type\":\"system\",\"content\":\""@
}

/// Between a chat line's identifier and its text.
pub open spec fn lit_content() -> Seq<char> {
    "\",\"content\":\""@
}

/// Between a chat line's text and its timestamp.
pub open spec fn lit_timestamp() -> Seq<char> {
    "\",\"timestamp\":"@
}

/// Closing of a line whose last field is a string.
pub open spec fn lit_end_str() -> Seq<char> {
    "\"}"@
}

/// Closing of a line whose last field is a number.
pub open spec fn lit_end_obj() -> Seq<char> {
    "}"@
}

/// The sixteen hex digit characters, lowercase.
pub open spec fn hex_char_of(d: nat) -> char {
    if d == 0 { '0' } else if d == 1 { '1' } else if d == 2 { '2' } else if d == 3 { '3' }
    else if d == 4 { '4' } else if d == 5 { '5' } else if d == 6 { '6' } else if d == 7 { '7' }
    else if d == 8 { '8' } else if d == 9 { '9' } else if d == 10 { 'a' } else if d == 11 { 'b' }
    else if d == 12 { 'c' } else if d == 13 { 'd' } else if d == 14 { 'e' } else { 'f' }
}

pub open spec fn is_hex_char(c: char) -> bool {
    match c {
        '0' | '1' | '2' | '3' | '4' | '5' | '6' | '7' | '8' | '9' => true,
        'a' | 'b' | 'c' | 'd' | 'e' | 'f' => true,
        _ => false,
    }
}

pub open spec fn hex_digit_of(c: char) -> nat {
    match c {
        '0' => 0, '1' => 1, '2' => 2, '3' => 3, '4' => 4,
        '5' => 5, '6' => 6, '7' => 7, '8' => 8, '9' => 9,
        'a' => 10, 'b' => 11, 'c' => 12, 'd' => 13, 'e' => 14, 'f' => 15,
        _ => 0,
    }
}

/// `n` hex digits of `v` (mod 16^n), most significant first.
pub open spec fn hex_seq(v: nat, n: nat) -> Seq<char>
    decreases n,
{
    if n == 0 {
        Seq::empty()
    } else {
        hex_seq(v / 16, (n - 1) as nat).push(hex_char_of(v % 16))
    }
}

/// An identifier on the wire: exactly 32 hex digits.
pub open spec fn hex32_of(id: u128) -> Seq<char> {
    hex_seq(id as nat, 32)
}

/// The value of a sequence of hex digit characters.
pub open spec fn hex_val(s: Seq<char>) -> nat
    decreases s.len(),
{
    if s.len() == 0 {
        0
    } else {
        hex_val(s.drop_last()) * 16 + hex_digit_of(s.last())
    }
}

pub open spec fn is_dec_char(c: char) -> bool {
    match c {
        '0' | '1' | '2' | '3' | '4' | '5' | '6' | '7' | '8' | '9' => true,
        _ => false,
    }
}

pub open spec fn dec_char_of(d: nat) -> char {
    if d == 0 { '0' } else if d == 1 { '1' } else if d == 2 { '2' } else if d == 3 { '3' }
    else if d == 4 { '4' } else if d == 5 { '5' } else if d == 6 { '6' } else if d == 7 { '7' }
    else if d == 8 { '8' } else { '9' }
}

pub open spec fn dec_digit_of(c: char) -> nat {
    match c {
        '0' => 0, '1' => 1, '2' => 2, '3' => 3, '4' => 4,
        '5' => 5, '6' => 6, '7' => 7, '8' => 8, '9' => 9,
        _ => 0,
    }
}

/// The decimal digits of `v`, most significant first, no leading zeros.
pub open spec fn dec_seq(v: nat) -> Seq<char>
    decreases v,
{
    if v < 10 {
        seq![dec_char_of(v)]
    } else {
        dec_seq(v / 10).push(dec_char_of(v % 10))
    }
}

/// The value of a sequence of decimal digit characters.
pub open spec fn dec_val(s: Seq<char>) -> nat
    decreases s.len(),
{
    if s.len() == 0 {
        0
    } else {
        dec_val(s.drop_last()) * 10 + dec_digit_of(s.last())
    }
}

/// A signed integer on the wire: decimal digits, `-` in front when negative.
pub open spec fn int_seq(t: int) -> Seq<char> {
    if t < 0 {
        seq!['-'] + dec_seq((-t) as nat)
    } else {
        dec_seq(t as nat)
    }
}

/// Characters that may not stand raw inside an encoded string field.
pub open spec fn needs_escape(c: char) -> bool {
    c == '"' || c == '\\' || c == '\n' || c == '\r' || c == '\t'
}

/// What a single character becomes inside a string field.
pub open spec fn esc_char(c: char) -> Seq<char> {
    if c == '"' { seq!['\\', '"'] }
    else if c == '\\' { seq!['\\', '\\'] }
    else if c == '\n' { seq!['\\', 'n'] }
    else if c == '\r' { seq!['\\', 'r'] }
    else if c == '\t' { seq!['\\', 't'] }
    else { seq![c] }
}

/// A whole string field's characters on the wire.
pub open spec fn esc_str(s: Seq<char>) -> Seq<char>
    decreases s.len(),
{
    if s.len() == 0 {
        Seq::empty()
    } else {
        esc_char(s[0]) + esc_str(s.drop_first())
    }
}

/// The body of an encoded line: everything but the terminating newline.
pub open spec fn body_spec(m: MessageView) -> Seq<char> {
    match m {
        MessageView::Log { client_id } => lit_log() + hex32_of(client_id) + lit_end_str(),
        MessageView::Chat { content, client_id, timestamp } => lit_chat() + hex32_of(client_id)
            + lit_content() + esc_str(content) + lit_timestamp() + int_seq(timestamp as int)
            + lit_end_obj(),
        MessageView::Heartbeat => lit_heartbeat(),
        MessageView::System { content } => lit_system() + esc_str(content) + lit_end_str(),
    }
}

/// What `encode` produces: the body and a terminating newline.
pub open spec fn encode_spec(m: MessageView) -> Seq<char> {
    body_spec(m).push('\n')
}

pub open spec fn is_ws(c: char) -> bool {
    c == ' ' || c == '\t' || c == '\r' || c == '\n'
}

pub open spec fn trim_front(s: Seq<char>) -> Seq<char>
    decreases s.len(),
{
    if s.len() > 0 && is_ws(s[0]) {
        trim_front(s.drop_first())
    } else {
        s
    }
}

pub open spec fn trim_back(s: Seq<char>) -> Seq<char>
    decreases s.len(),
{
    if s.len() > 0 && is_ws(s.last()) {
        trim_back(s.drop_last())
    } else {
        s
    }
}

/// A line with its surrounding whitespace removed.
pub open spec fn trim_spec(s: Seq<char>) -> Seq<char> {
    trim_back(trim_front(s))
}

/// `s` reads, once trimmed, as the encoding of the well-formed message `m`.
pub open spec fn decodes_to(s: Seq<char>, m: MessageView) -> bool {
    m.wf() && trim_spec(s) == body_spec(m)
}

/// The decoder's value: the unique well-formed message the line encodes,
/// if there is one.
pub open spec fn decode_spec(s: Seq<char>) -> Option<MessageView> {
    if exists|m: MessageView| decodes_to(s, m) {
        Some(choose|m: MessageView| decodes_to(s, m))
    } else {
        None
    }
}

// ---------------------------------------------------------------------------
// Validity of the variable-width pieces, for the decoder.
// ---------------------------------------------------------------------------

pub open spec fn is_hex_seq(s: Seq<char>) -> bool {
    forall|i: int| 0 <= i < s.len() ==> is_hex_char(#[trigger] s[i])
}

pub open spec fn is_dec_seq(s: Seq<char>) -> bool {
    forall|i: int| 0 <= i < s.len() ==> is_dec_char(#[trigger] s[i])
}

/// The characters that may follow a backslash.
pub open spec fn is_escapable(c: char) -> bool {
    c == 'n' || c == 'r' || c == 't' || c == '"' || c == '\\'
}

/// What an escape pair stands for.
pub open spec fn unesc_char(c: char) -> char {
    if c == 'n' { '\n' } else if c == 'r' { '\r' } else if c == 't' { '\t' } else { c }
}

/// `v` is exactly the wire form of some string field: raw characters never
/// among the escaped ones, every backslash opening a recognized pair.
pub open spec fn valid_esc(v: Seq<char>) -> bool
    decreases v.len(),
{
    if v.len() == 0 {
        true
    } else if v[0] == '\\' {
        v.len() >= 2 && is_escapable(v[1]) && valid_esc(v.skip(2))
    } else {
        !needs_escape(v[0]) && valid_esc(v.skip(1))
    }
}

/// The text a wire-form string field stands for.
pub open spec fn unesc(v: Seq<char>) -> Seq<char>
    decreases v.len(),
{
    if v.len() == 0 {
        Seq::empty()
    } else if v[0] == '\\' {
        if v.len() >= 2 {
            seq![unesc_char(v[1])] + unesc(v.skip(2))
        } else {
            Seq::empty()
        }
    } else {
        seq![v[0]] + unesc(v.skip(1))
    }
}

/// Index of the first quote not consumed by an escape pair.
pub open spec fn scan_end(v: Seq<char>) -> Option<nat>
    decreases v.len(),
{
    if v.len() == 0 {
        None
    } else if v[0] == '"' {
        Some(0)
    } else if v[0] == '\\' {
        if v.len() >= 2 {
            match scan_end(v.skip(2)) {
                Some(q) => Some(q + 2),
                None => None,
            }
        } else {
            None
        }
    } else {
        match scan_end(v.skip(1)) {
            Some(q) => Some(q + 1),
            None => None,
        }
    }
}

pub open spec fn pow16(n: nat) -> nat
    decreases n,
{
    if n == 0 {
        1
    } else {
        16 * pow16((n - 1) as nat)
    }
}

pub open spec fn pow10(n: nat) -> nat
    decreases n,
{
    if n == 0 {
        1
    } else {
        10 * pow10((n - 1) as nat)
    }
}

// ---------------------------------------------------------------------------
// Lemmas: concrete powers.
// ---------------------------------------------------------------------------

proof fn lemma_pow16_32()
    ensures
        pow16(31) == 0x10000000000000000000000000000000,
        pow16(32) == 0x100000000000000000000000000000000,
{
    assert(pow16(0) == 1);
    assert(pow16(1) == 16);
    assert(pow16(2) == 0x100);
    assert(pow16(3) == 0x1000);
    assert(pow16(4) == 0x10000);
    assert(pow16(5) == 0x100000);
    assert(pow16(6) == 0x1000000);
    assert(pow16(7) == 0x10000000);
    assert(pow16(8) == 0x100000000);
    assert(pow16(9) == 0x1000000000);
    assert(pow16(10) == 0x10000000000);
    assert(pow16(11) == 0x100000000000);
    assert(pow16(12) == 0x1000000000000);
    assert(pow16(13) == 0x10000000000000);
    assert(pow16(14) == 0x100000000000000);
    assert(pow16(15) == 0x1000000000000000);
    assert(pow16(16) == 0x10000000000000000);
    assert(pow16(17) == 0x100000000000000000);
    assert(pow16(18) == 0x1000000000000000000);
    assert(pow16(19) == 0x10000000000000000000);
    assert(pow16(20) == 0x100000000000000000000);
    assert(pow16(21) == 0x1000000000000000000000);
    assert(pow16(22) == 0x10000000000000000000000);
    assert(pow16(23) == 0x100000000000000000000000);
    assert(pow16(24) == 0x1000000000000000000000000);
    assert(pow16(25) == 0x10000000000000000000000000);
    assert(pow16(26) == 0x100000000000000000000000000);
    assert(pow16(27) == 0x1000000000000000000000000000);
    assert(pow16(28) == 0x10000000000000000000000000000);
    assert(pow16(29) == 0x100000000000000000000000000000);
    assert(pow16(30) == 0x1000000000000000000000000000000);
    assert(pow16(31) == 0x10000000000000000000000000000000);
    assert(pow16(32) == 0x100000000000000000000000000000000);
}

proof fn lemma_pow10_19()
    ensures
        pow10(18) == 1000000000000000000,
        pow10(19) == 10000000000000000000,
{
    assert(pow10(0) == 1);
    assert(pow10(1) == 10);
    assert(pow10(2) == 100);
    assert(pow10(3) == 1000);
    assert(pow10(4) == 10000);
    assert(pow10(5) == 100000);
    assert(pow10(6) == 1000000);
    assert(pow10(7) == 10000000);
    assert(pow10(8) == 100000000);
    assert(pow10(9) == 1000000000);
    assert(pow10(10) == 10000000000);
    assert(pow10(11) == 100000000000);
    assert(pow10(12) == 1000000000000);
    assert(pow10(13) == 10000000000000);
    assert(pow10(14) == 100000000000000);
    assert(pow10(15) == 1000000000000000);
    assert(pow10(16) == 10000000000000000);
    assert(pow10(17) == 100000000000000000);
    assert(pow10(18) == 1000000000000000000);
    assert(pow10(19) == 10000000000000000000);
}

// ---------------------------------------------------------------------------
// Lemmas: hex digits.
// ---------------------------------------------------------------------------

proof fn lemma_hex_seq_shape(v: nat, n: nat)
    ensures
        hex_seq(v, n).len() == n,
        is_hex_seq(hex_seq(v, n)),
    decreases n,
{
    if n > 0 {
        lemma_hex_seq_shape(v / 16, (n - 1) as nat);
        let s = hex_seq(v / 16, (n - 1) as nat);
        assert forall|i: int| 0 <= i < n implies is_hex_char(#[trigger] hex_seq(v, n)[i]) by {
            if i < n - 1 {
                assert(hex_seq(v, n)[i] == s[i]);
            } else {
                assert(hex_seq(v, n)[i] == hex_char_of(v % 16));
            }
        }
    }
}

proof fn lemma_hex_val_bound(s: Seq<char>)
    ensures
        hex_val(s) < pow16(s.len() as nat),
    decreases s.len(),
{
    if s.len() == 0 {
    } else {
        lemma_hex_val_bound(s.drop_last());
        let a = hex_val(s.drop_last());
        let p = pow16((s.len() - 1) as nat);
        assert(hex_digit_of(s.last()) <= 15);
        assert(a * 16 + hex_digit_of(s.last()) < p * 16) by (nonlinear_arith)
            requires
                a < p,
                hex_digit_of(s.last()) <= 15,
        ;
    }
}

/// Reading back the digits of `v` gives `v`.
proof fn lemma_hex_round(v: nat, n: nat)
    requires
        v < pow16(n),
    ensures
        hex_val(hex_seq(v, n)) == v,
    decreases n,
{
    if n == 0 {
    } else {
        lemma_hex_seq_shape(v / 16, (n - 1) as nat);
        assert(v / 16 < pow16((n - 1) as nat)) by (nonlinear_arith)
            requires
                v < 16 * pow16((n - 1) as nat),
        ;
        lemma_hex_round(v / 16, (n - 1) as nat);
        let s = hex_seq(v, n);
        assert(s.drop_last() =~= hex_seq(v / 16, (n - 1) as nat));
        assert(hex_digit_of(hex_char_of(v % 16)) == v % 16);
        assert((v / 16) * 16 + v % 16 == v) by (nonlinear_arith);
    }
}

/// Every fixed-width hex digit string is the canonical digits of its value.
proof fn lemma_hex_seq_of_val(s: Seq<char>)
    requires
        is_hex_seq(s),
    ensures
        hex_seq(hex_val(s), s.len() as nat) == s,
    decreases s.len(),
{
    if s.len() == 0 {
        assert(hex_seq(0, 0) =~= s);
    } else {
        let s0 = s.drop_last();
        assert(is_hex_seq(s0)) by {
            assert(forall|i: int| 0 <= i < s0.len() ==> s0[i] == s[i]);
        }
        lemma_hex_seq_of_val(s0);
        let a = hex_val(s0);
        let d = hex_digit_of(s.last());
        assert(d < 16 && is_hex_char(s.last())) by {
            assert(s[s.len() - 1] == s.last());
        }
        assert((a * 16 + d) / 16 == a && (a * 16 + d) % 16 == d) by (nonlinear_arith)
            requires
                0 <= d < 16,
                0 <= a,
        ;
        assert(hex_char_of(hex_digit_of(s.last())) == s.last());
        assert(hex_seq(hex_val(s), s.len() as nat) =~= s);
    }
}

// ---------------------------------------------------------------------------
// Lemmas: decimal digits.
// ---------------------------------------------------------------------------

proof fn lemma_dec_seq_shape(v: nat)
    ensures
        dec_seq(v).len() >= 1,
        is_dec_seq(dec_seq(v)),
        v >= 10 ==> dec_seq(v)[0] != '0',
        1 <= v < 10 ==> dec_seq(v)[0] != '0',
    decreases v,
{
    if v < 10 {
        assert(dec_seq(v) =~= seq![dec_char_of(v)]);
    } else {
        assert(v / 10 < v && v / 10 >= 1) by (nonlinear_arith)
            requires
                v >= 10,
        ;
        lemma_dec_seq_shape(v / 10);
        let s = dec_seq(v / 10);
        assert forall|i: int| 0 <= i < dec_seq(v).len() implies is_dec_char(
            #[trigger] dec_seq(v)[i],
        ) by {
            if i < s.len() {
                assert(dec_seq(v)[i] == s[i]);
            } else {
                assert(dec_seq(v)[i] == dec_char_of(v % 10));
            }
        }
        assert(dec_seq(v)[0] == s[0]);
    }
}

proof fn lemma_dec_val_bound(s: Seq<char>)
    ensures
        dec_val(s) < pow10(s.len() as nat),
    decreases s.len(),
{
    if s.len() == 0 {
    } else {
        lemma_dec_val_bound(s.drop_last());
        let a = dec_val(s.drop_last());
        let p = pow10((s.len() - 1) as nat);
        assert(dec_digit_of(s.last()) <= 9);
        assert(a * 10 + dec_digit_of(s.last()) < p * 10) by (nonlinear_arith)
            requires
                a < p,
                dec_digit_of(s.last()) <= 9,
        ;
    }
}

proof fn lemma_dec_round(v: nat)
    ensures
        dec_val(dec_seq(v)) == v,
    decreases v,
{
    if v < 10 {
        let s = dec_seq(v);
        assert(s =~= seq![dec_char_of(v)]);
        assert(s.last() == dec_char_of(v));
        assert(s.drop_last() =~= Seq::<char>::empty());
        assert(dec_val(s.drop_last()) == 0);
        assert(dec_val(s) == dec_val(s.drop_last()) * 10 + dec_digit_of(s.last()));
        assert(dec_digit_of(dec_char_of(v)) == v);
    } else {
        assert(v / 10 < v) by (nonlinear_arith)
            requires
                v >= 10,
        ;
        lemma_dec_round(v / 10);
        lemma_dec_seq_shape(v / 10);
        let s = dec_seq(v);
        assert(s.drop_last() =~= dec_seq(v / 10));
        assert(dec_digit_of(dec_char_of(v % 10)) == v % 10);
        assert((v / 10) * 10 + v % 10 == v) by (nonlinear_arith);
    }
}

/// How many digits `v` has: no more than any power of ten above it.
proof fn lemma_dec_seq_len_bound(v: nat, n: nat)
    requires
        v < pow10(n),
        n >= 1,
    ensures
        dec_seq(v).len() <= n,
    decreases v,
{
    if v < 10 {
    } else {
        assert(n >= 2) by {
            if n == 1 {
                assert(pow10(0) == 1);
                assert(pow10(1) == 10);
            }
        }
        assert(v / 10 < v && v / 10 < pow10((n - 1) as nat)) by (nonlinear_arith)
            requires
                v >= 10,
                v < 10 * pow10((n - 1) as nat),
        ;
        lemma_dec_seq_len_bound(v / 10, (n - 1) as nat);
    }
}

/// A canonical digit string (no leading zero) reads back to its own digits.
proof fn lemma_dec_seq_of_val(s: Seq<char>)
    requires
        is_dec_seq(s),
        s.len() >= 1,
        s.len() > 1 ==> s[0] != '0',
    ensures
        dec_seq(dec_val(s)) == s,
    decreases s.len(),
{
    if s.len() == 1 {
        let d = dec_digit_of(s[0]);
        assert(s[0] == s.last());
        assert(s.drop_last() =~= Seq::<char>::empty());
        assert(dec_val(s.drop_last()) == 0);
        assert(dec_val(s) == dec_val(s.drop_last()) * 10 + dec_digit_of(s.last()));
        assert(dec_val(s) == d);
        assert(dec_char_of(dec_digit_of(s[0])) == s[0]);
        assert(dec_seq(d) =~= s);
    } else {
        let s0 = s.drop_last();
        assert(is_dec_seq(s0)) by {
            assert(forall|i: int| 0 <= i < s0.len() ==> s0[i] == s[i]);
        }
        assert(s0[0] == s[0]);
        lemma_dec_seq_of_val(s0);
        lemma_dec_val_pos(s0);
        let a = dec_val(s0);
        let d = dec_digit_of(s.last());
        assert(d < 10);
        assert(a >= 1);
        assert(a * 10 + d >= 10 && (a * 10 + d) / 10 == a && (a * 10 + d) % 10 == d)
            by (nonlinear_arith)
            requires
                a >= 1,
                0 <= d < 10,
        ;
        assert(s[s.len() - 1] == s.last());
        assert(is_dec_char(s.last()));
        assert(dec_char_of(dec_digit_of(s.last())) == s.last());
        assert(dec_seq(dec_val(s)) =~= s);
    }
}

/// A digit string without a leading zero names a positive number.
proof fn lemma_dec_val_pos(s: Seq<char>)
    requires
        is_dec_seq(s),
        s.len() >= 1,
        s[0] != '0',
    ensures
        dec_val(s) >= 1,
    decreases s.len(),
{
    if s.len() == 1 {
        assert(s[0] == s.last());
        assert(is_dec_char(s[0]));
        assert(dec_digit_of(s[0]) >= 1);
    } else {
        let s0 = s.drop_last();
        assert(is_dec_seq(s0)) by {
            assert(forall|i: int| 0 <= i < s0.len() ==> s0[i] == s[i]);
        }
        assert(s0[0] == s[0]);
        lemma_dec_val_pos(s0);
        let a = dec_val(s0);
        assert(a * 10 >= 10) by (nonlinear_arith)
            requires
                a >= 1,
        ;
    }
}

/// No two integers share a wire form.
proof fn lemma_int_seq_inject(a: int, b: int)
    requires
        int_seq(a) == int_seq(b),
    ensures
        a == b,
{
    lemma_dec_seq_shape(if a < 0 { (-a) as nat } else { a as nat });
    lemma_dec_seq_shape(if b < 0 { (-b) as nat } else { b as nat });
    if a < 0 && b >= 0 {
        assert(int_seq(a)[0] == '-');
        assert(is_dec_char(int_seq(b)[0]));
        assert(false);
    } else if a >= 0 && b < 0 {
        assert(int_seq(b)[0] == '-');
        assert(is_dec_char(int_seq(a)[0]));
        assert(false);
    } else if a >= 0 && b >= 0 {
        lemma_dec_round(a as nat);
        lemma_dec_round(b as nat);
    } else {
        assert(dec_seq((-a) as nat) =~= int_seq(a).drop_first());
        assert(dec_seq((-b) as nat) =~= int_seq(b).drop_first());
        lemma_dec_round((-a) as nat);
        lemma_dec_round((-b) as nat);
    }
}

// ---------------------------------------------------------------------------
// Lemmas: escaping.
// ---------------------------------------------------------------------------

/// The wire form of any text is valid and reads back as the same text.
proof fn lemma_esc_valid(s: Seq<char>)
    ensures
        valid_esc(esc_str(s)),
        unesc(esc_str(s)) == s,
        esc_str(s).len() >= s.len(),
    decreases s.len(),
{
    if s.len() == 0 {
        assert(unesc(esc_str(s)) =~= s);
    } else {
        let c = s[0];
        let rest = s.drop_first();
        lemma_esc_valid(rest);
        let e = esc_str(s);
        assert(e == esc_char(c) + esc_str(rest));
        if needs_escape(c) {
            assert(e.len() == 2 + esc_str(rest).len());
            assert(e[0] == '\\');
            assert(e.skip(2) =~= esc_str(rest));
            assert(is_escapable(e[1]));
            assert(unesc_char(e[1]) == c);
            assert(unesc(e) =~= seq![c] + unesc(esc_str(rest)));
            assert(seq![c] + rest =~= s);
        } else {
            assert(e[0] == c);
            assert(c != '\\' && !needs_escape(c));
            assert(e.skip(1) =~= esc_str(rest));
            assert(unesc(e) =~= seq![c] + unesc(esc_str(rest)));
            assert(seq![c] + rest =~= s);
        }
    }
}

/// A valid wire form is the wire form of the text it reads back to.
proof fn lemma_esc_of_unesc(v: Seq<char>)
    requires
        valid_esc(v),
    ensures
        esc_str(unesc(v)) == v,
    decreases v.len(),
{
    if v.len() == 0 {
        assert(esc_str(unesc(v)) =~= v);
    } else if v[0] == '\\' {
        lemma_esc_of_unesc(v.skip(2));
        let c = unesc_char(v[1]);
        let u = unesc(v);
        assert(u == seq![c] + unesc(v.skip(2)));
        assert(u.len() >= 1 && u[0] == c);
        assert(u.drop_first() =~= unesc(v.skip(2)));
        assert(esc_str(u) == esc_char(c) + esc_str(unesc(v.skip(2))));
        assert(esc_char(c) =~= seq![v[0], v[1]]);
        assert(seq![v[0], v[1]] + v.skip(2) =~= v);
    } else {
        lemma_esc_of_unesc(v.skip(1));
        let c = v[0];
        let u = unesc(v);
        assert(u == seq![c] + unesc(v.skip(1)));
        assert(u.len() >= 1 && u[0] == c);
        assert(u.drop_first() =~= unesc(v.skip(1)));
        assert(esc_str(u) == esc_char(c) + esc_str(unesc(v.skip(1))));
        assert(esc_char(c) =~= seq![c]);
        assert(seq![c] + v.skip(1) =~= v);
    }
}

/// Scanning past a wire-form text finds exactly the quote that closes it.
proof fn lemma_scan_esc(s: Seq<char>, rest: Seq<char>)
    ensures
        scan_end(esc_str(s) + seq!['"'] + rest) == Some(esc_str(s).len() as nat),
    decreases s.len(),
{
    if s.len() == 0 {
        let w = esc_str(s) + seq!['"'] + rest;
        assert(w =~= seq!['"'] + rest);
        assert(w[0] == '"');
    } else {
        let c = s[0];
        let tail = s.drop_first();
        lemma_scan_esc(tail, rest);
        let w = esc_str(s) + seq!['"'] + rest;
        let w2 = esc_str(tail) + seq!['"'] + rest;
        assert(esc_str(s) == esc_char(c) + esc_str(tail));
        if needs_escape(c) {
            assert(w[0] == '\\');
            assert(w.len() >= 2);
            assert(w.skip(2) =~= w2);
            assert(scan_end(w) == Some((esc_str(tail).len() + 2) as nat));
        } else {
            assert(w[0] == c);
            assert(c != '"' && c != '\\');
            assert(w.skip(1) =~= w2);
            assert(scan_end(w) == Some((esc_str(tail).len() + 1) as nat));
        }
    }
}

// ---------------------------------------------------------------------------
// Lemmas: trimming.
// ---------------------------------------------------------------------------

/// A string with solid ends is already trimmed; one trailing newline goes.
proof fn lemma_trim_solid(s: Seq<char>)
    requires
        s.len() > 0,
        !is_ws(s[0]),
        !is_ws(s.last()),
    ensures
        trim_spec(s) == s,
        trim_spec(s.push('\n')) == s,
{
    assert(trim_front(s) == s);
    assert(trim_back(s) == s);
    let p = s.push('\n');
    assert(p[0] == s[0]);
    assert(trim_front(p) == p);
    assert(p.last() == '\n');
    assert(p.drop_last() =~= s);
    assert(trim_back(p) == trim_back(s));
}

// ---------------------------------------------------------------------------
// Encoding.
// ---------------------------------------------------------------------------

/// Relies on `String::push`: appends the given character to the end.
#[verifier::external_body]
fn push_char(out: &mut String, c: char)
    ensures
        final(out)@ == old(out)@.push(c),
{
    out.push(c);
}

fn hex_char(d: u8) -> (c: char)
    requires
        d < 16,
    ensures
        c == hex_char_of(d as nat),
{
    match d {
        0 => '0', 1 => '1', 2 => '2', 3 => '3', 4 => '4', 5 => '5', 6 => '6', 7 => '7',
        8 => '8', 9 => '9', 10 => 'a', 11 => 'b', 12 => 'c', 13 => 'd', 14 => 'e', _ => 'f',
    }
}

fn dec_char(d: u8) -> (c: char)
    requires
        d < 10,
    ensures
        c == dec_char_of(d as nat),
{
    match d {
        0 => '0', 1 => '1', 2 => '2', 3 => '3', 4 => '4', 5 => '5', 6 => '6', 7 => '7',
        8 => '8', _ => '9',
    }
}

fn append_hex_digits(out: &mut String, v: u128, n: usize)
    ensures
        final(out)@ == old(out)@ + hex_seq(v as nat, n as nat),
    decreases n,
{
    if n == 0 {
        assert(old(out)@ + hex_seq(v as nat, 0) =~= old(out)@);
    } else {
        append_hex_digits(out, v / 16, n - 1);
        let d = (v % 16) as u8;
        push_char(out, hex_char(d));
        assert(old(out)@ + hex_seq((v / 16) as nat, (n - 1) as nat).push(hex_char_of(
            (v % 16) as nat,
        )) =~= (old(out)@ + hex_seq((v / 16) as nat, (n - 1) as nat)).push(hex_char_of(
            (v % 16) as nat,
        )));
    }
}

fn append_hex32(out: &mut String, id: u128)
    ensures
        final(out)@ == old(out)@ + hex32_of(id),
{
    append_hex_digits(out, id, 32);
}

fn append_dec_digits(out: &mut String, v: u64)
    ensures
        final(out)@ == old(out)@ + dec_seq(v as nat),
    decreases v,
{
    if v < 10 {
        push_char(out, dec_char(v as u8));
        assert(old(out)@ + dec_seq(v as nat) =~= old(out)@.push(dec_char_of(v as nat)));
    } else {
        append_dec_digits(out, v / 10);
        push_char(out, dec_char((v % 10) as u8));
        assert(old(out)@ + dec_seq((v / 10) as nat).push(dec_char_of((v % 10) as nat)) =~= (old(
            out,
        )@ + dec_seq((v / 10) as nat)).push(dec_char_of((v % 10) as nat)));
    }
}

fn append_i64(out: &mut String, t: i64)
    ensures
        final(out)@ == old(out)@ + int_seq(t as int),
{
    if t < 0 {
        push_char(out, '-');
        let abs: u64 = if t == i64::MIN {
            9223372036854775808u64
        } else {
            (-t) as u64
        };
        assert(abs as nat == (-(t as int)) as nat);
        append_dec_digits(out, abs);
        assert(old(out)@ + int_seq(t as int) =~= old(out)@.push('-') + dec_seq(
            (-(t as int)) as nat,
        ));
    } else {
        append_dec_digits(out, t as u64);
    }
}

/// One character of a string field, written in its wire form.
fn append_esc_char(out: &mut String, c: char)
    ensures
        final(out)@ == old(out)@ + esc_char(c),
{
    if c == '"' {
        push_char(out, '\\');
        push_char(out, '"');
        assert(old(out)@ + esc_char(c) =~= old(out)@.push('\\').push('"'));
    } else if c == '\\' {
        push_char(out, '\\');
        push_char(out, '\\');
        assert(old(out)@ + esc_char(c) =~= old(out)@.push('\\').push('\\'));
    } else if c == '\n' {
        push_char(out, '\\');
        push_char(out, 'n');
        assert(old(out)@ + esc_char(c) =~= old(out)@.push('\\').push('n'));
    } else if c == '\r' {
        push_char(out, '\\');
        push_char(out, 'r');
        assert(old(out)@ + esc_char(c) =~= old(out)@.push('\\').push('r'));
    } else if c == '\t' {
        push_char(out, '\\');
        push_char(out, 't');
        assert(old(out)@ + esc_char(c) =~= old(out)@.push('\\').push('t'));
    } else {
        push_char(out, c);
        assert(old(out)@ + esc_char(c) =~= old(out)@.push(c));
    }
}

proof fn lemma_esc_str_singleton(c: char)
    ensures
        esc_str(seq![c]) == esc_char(c),
{
    let s = seq![c];
    assert(s.drop_first() =~= Seq::<char>::empty());
    assert(esc_str(Seq::<char>::empty()) =~= Seq::<char>::empty());
    assert(esc_str(s) == esc_char(c) + esc_str(s.drop_first()));
    assert(esc_char(c) + Seq::<char>::empty() =~= esc_char(c));
}

/// Splitting an escaped string at any point splits its wire form.
proof fn lemma_esc_str_concat(a: Seq<char>, b: Seq<char>)
    ensures
        esc_str(a + b) == esc_str(a) + esc_str(b),
    decreases a.len(),
{
    if a.len() == 0 {
        assert(a + b =~= b);
        assert(esc_str(a) + esc_str(b) =~= esc_str(b));
    } else {
        lemma_esc_str_concat(a.drop_first(), b);
        assert((a + b).drop_first() =~= a.drop_first() + b);
        assert((a + b)[0] == a[0]);
        assert(esc_str(a + b) == esc_char(a[0]) + (esc_str(a.drop_first()) + esc_str(b)));
        assert(esc_char(a[0]) + (esc_str(a.drop_first()) + esc_str(b)) =~= (esc_char(a[0])
            + esc_str(a.drop_first())) + esc_str(b));
    }
}

fn append_escaped(out: &mut String, s: &str)
    ensures
        final(out)@ == old(out)@ + esc_str(s@),
{
    let len = s.unicode_len();
    let mut i: usize = 0;
    while i < len
        invariant
            i <= len,
            len == s@.len(),
            out@ == old(out)@ + esc_str(s@.take(i as int)),
        decreases len - i,
    {
        let c = s.get_char(i);
        append_esc_char(out, c);
        proof {
            lemma_esc_str_concat(s@.take(i as int), seq![s@[i as int]]);
            assert(s@.take(i + 1) =~= s@.take(i as int) + seq![s@[i as int]]);
            lemma_esc_str_singleton(s@[i as int]);
            assert(old(out)@ + (esc_str(s@.take(i as int)) + esc_char(s@[i as int])) =~= (old(out)@
                + esc_str(s@.take(i as int))) + esc_char(s@[i as int]));
        }
        i = i + 1;
    }
    proof {
        assert(s@.take(len as int) =~= s@);
    }
}

// ---------------------------------------------------------------------------
// Decoding.
// ---------------------------------------------------------------------------

/// The line is not the encoding of any well-formed message.
#[derive(Clone, Copy, PartialEq, Eq, Structural, Debug)]
pub struct DecodeError;

proof fn lemma_pow16_mono(a: nat, b: nat)
    requires
        a <= b,
    ensures
        pow16(a) <= pow16(b),
    decreases b,
{
    if a < b {
        lemma_pow16_mono(a, (b - 1) as nat);
        assert(pow16(b) == 16 * pow16((b - 1) as nat));
    }
}

proof fn lemma_pow10_mono(a: nat, b: nat)
    requires
        a <= b,
    ensures
        pow10(a) <= pow10(b),
    decreases b,
{
    if a < b {
        lemma_pow10_mono(a, (b - 1) as nat);
        assert(pow10(b) == 10 * pow10((b - 1) as nat));
    }
}

fn is_ws_exec(c: char) -> (r: bool)
    ensures
        r == is_ws(c),
{
    c == ' ' || c == '\t' || c == '\r' || c == '\n'
}

/// The line's characters with surrounding whitespace removed.
fn trimmed_chars(line: &str) -> (t: Vec<char>)
    ensures
        t@ == trim_spec(line@),
{
    let len = line.unicode_len();
    let mut i: usize = 0;
    proof {
        assert(line@.skip(0) =~= line@);
    }
    while i < len && is_ws_exec(line.get_char(i))
        invariant
            i <= len,
            len == line@.len(),
            trim_front(line@) == trim_front(line@.skip(i as int)),
        decreases len - i,
    {
        proof {
            assert(line@.skip(i as int)[0] == line@[i as int]);
            assert(line@.skip(i as int).drop_first() =~= line@.skip(i + 1));
        }
        i = i + 1;
    }
    proof {
        if i == len {
            assert(line@.skip(i as int) =~= Seq::<char>::empty());
        }
        assert(trim_front(line@) == line@.skip(i as int));
        assert(line@.skip(i as int) =~= line@.subrange(i as int, len as int));
    }
    let mut j: usize = len;
    while j > i && is_ws_exec(line.get_char(j - 1))
        invariant
            i <= j <= len,
            len == line@.len(),
            trim_spec(line@) == trim_back(line@.subrange(i as int, j as int)),
        decreases j,
    {
        proof {
            let s = line@.subrange(i as int, j as int);
            assert(s.last() == line@[j - 1]);
            assert(s.drop_last() =~= line@.subrange(i as int, j - 1));
        }
        j = j - 1;
    }
    proof {
        let s = line@.subrange(i as int, j as int);
        assert(trim_spec(line@) == s);
    }
    let mut out: Vec<char> = Vec::new();
    let mut k: usize = i;
    while k < j
        invariant
            i <= k <= j <= len,
            len == line@.len(),
            out@ == line@.subrange(i as int, k as int),
        decreases j - k,
    {
        let c = line.get_char(k);
        out.push(c);
        proof {
            assert(line@.subrange(i as int, k + 1) =~= line@.subrange(i as int, k as int).push(
                line@[k as int],
            ));
        }
        k = k + 1;
    }
    out
}

/// Is the line nothing but whitespace? Readers ignore such lines.
pub fn is_blank(line: &str) -> (r: bool)
    ensures
        r == (trim_spec(line@).len() == 0),
{
    let t = trimmed_chars(line);
    t.len() == 0
}

/// Does `lit` stand in `t` at position `at`?
fn has_at(t: &Vec<char>, at: usize, lit: &str) -> (r: bool)
    ensures
        r == (at + lit@.len() <= t@.len() && t@.subrange(at as int, at + lit@.len()) == lit@),
{
    let llen = lit.unicode_len();
    let tlen = t.len();
    if at > tlen || tlen - at < llen {
        return false;
    }
    let mut k: usize = 0;
    while k < llen
        invariant
            k <= llen,
            llen == lit@.len(),
            tlen == t@.len(),
            at + llen <= tlen,
            forall|l: int| 0 <= l < k ==> t@[at + l] == lit@[l],
        decreases llen - k,
    {
        let a = t[at + k];
        let b = lit.get_char(k);
        if a != b {
            proof {
                let seg = t@.subrange(at as int, at + lit@.len());
                assert(seg[k as int] == t@[at + k]);
                assert(seg != lit@);
            }
            return false;
        }
        k = k + 1;
    }
    proof {
        assert(t@.subrange(at as int, at + lit@.len()) =~= lit@);
    }
    true
}

fn hex_digit_val(c: char) -> (r: Option<u8>)
    ensures
        match r {
            Some(d) => is_hex_char(c) && d < 16 && d as nat == hex_digit_of(c),
            None => !is_hex_char(c),
        },
{
    match c {
        '0' => Some(0), '1' => Some(1), '2' => Some(2), '3' => Some(3), '4' => Some(4),
        '5' => Some(5), '6' => Some(6), '7' => Some(7), '8' => Some(8), '9' => Some(9),
        'a' => Some(10), 'b' => Some(11), 'c' => Some(12), 'd' => Some(13), 'e' => Some(14),
        'f' => Some(15),
        _ => None,
    }
}

fn dec_digit_val(c: char) -> (r: Option<u8>)
    ensures
        match r {
            Some(d) => is_dec_char(c) && d < 10 && d as nat == dec_digit_of(c),
            None => !is_dec_char(c),
        },
{
    match c {
        '0' => Some(0), '1' => Some(1), '2' => Some(2), '3' => Some(3), '4' => Some(4),
        '5' => Some(5), '6' => Some(6), '7' => Some(7), '8' => Some(8), '9' => Some(9),
        _ => None,
    }
}

/// No two identifiers share their 32 hex digits.
proof fn lemma_hex32_inject(a: u128, b: u128)
    requires
        hex32_of(a) == hex32_of(b),
    ensures
        a == b,
{
    lemma_pow16_32();
    lemma_hex_round(a as nat, 32);
    lemma_hex_round(b as nat, 32);
}

/// The 32 characters at `at`, as an identifier, when they are hex digits.
fn parse_hex32(t: &Vec<char>, at: usize) -> (r: Option<u128>)
    requires
        at + 32 <= t@.len(),
    ensures
        ({
            let seg = t@.subrange(at as int, at + 32);
            match r {
                Some(id) => seg == hex32_of(id),
                None => !is_hex_seq(seg),
            }
        }),
{
    let ghost seg = t@.subrange(at as int, at + 32);
    let tlen = t.len();
    let mut acc: u128 = 0;
    let mut k: usize = 0;
    proof {
        assert(seg.take(0) =~= Seq::<char>::empty());
    }
    while k < 32
        invariant
            k <= 32,
            tlen == t@.len(),
            at + 32 <= tlen,
            seg == t@.subrange(at as int, at + 32),
            is_hex_seq(seg.take(k as int)),
            acc as nat == hex_val(seg.take(k as int)),
        decreases 32 - k,
    {
        let c = t[at + k];
        proof {
            assert(seg[k as int] == t@[at + k]);
        }
        match hex_digit_val(c) {
            Some(d) => {
                proof {
                    lemma_hex_val_bound(seg.take(k as int));
                    lemma_pow16_mono(k as nat, 31);
                    lemma_pow16_32();
                    assert((acc as nat) * 16 + 15 < pow16(32)) by (nonlinear_arith)
                        requires
                            (acc as nat) < pow16(31),
                            pow16(32) == 16 * pow16(31),
                    ;
                }
                let next = acc * 16 + (d as u128);
                proof {
                    assert(seg.take(k + 1) =~= seg.take(k as int).push(seg[k as int]));
                    assert(seg.take(k + 1).drop_last() =~= seg.take(k as int));
                    assert(seg.take(k + 1).last() == c);
                    assert(hex_val(seg.take(k + 1)) == hex_val(seg.take(k as int)) * 16
                        + hex_digit_of(c));
                    assert forall|l: int| 0 <= l < k + 1 implies is_hex_char(
                        #[trigger] seg.take(k + 1)[l],
                    ) by {
                        if l < k {
                            assert(seg.take(k + 1)[l] == seg.take(k as int)[l]);
                        }
                    }
                }
                acc = next;
            }
            None => {
                proof {
                    assert(!is_hex_char(seg[k as int]));
                }
                return None;
            }
        }
        k = k + 1;
    }
    proof {
        assert(seg.take(32) =~= seg);
        lemma_hex_seq_of_val(seg);
    }
    Some(acc)
}

/// Index of the first quote at or after `from` not consumed by an escape pair.
fn scan_string_end(t: &Vec<char>, from: usize) -> (r: Option<usize>)
    requires
        from <= t@.len(),
    ensures
        match r {
            Some(q) => from <= q < t@.len() && scan_end(t@.skip(from as int)) == Some(
                (q - from) as nat,
            ),
            None => scan_end(t@.skip(from as int)) is None,
        },
{
    let len = t.len();
    let mut i: usize = from;
    while i < len
        invariant
            from <= i <= len,
            len == t@.len(),
            match scan_end(t@.skip(i as int)) {
                Some(q) => scan_end(t@.skip(from as int)) == Some((q + i - from) as nat),
                None => scan_end(t@.skip(from as int)) is None,
            },
        decreases len - i,
    {
        let c = t[i];
        proof {
            assert(t@.skip(i as int)[0] == t@[i as int]);
        }
        if c == '"' {
            return Some(i);
        } else if c == '\\' {
            if i + 1 >= len {
                proof {
                    assert(t@.skip(i as int).len() == 1);
                }
                return None;
            }
            proof {
                assert(t@.skip(i as int).skip(2) =~= t@.skip(i + 2));
            }
            i = i + 2;
        } else {
            proof {
                assert(t@.skip(i as int).skip(1) =~= t@.skip(i + 1));
            }
            i = i + 1;
        }
    }
    proof {
        assert(t@.skip(i as int) =~= Seq::<char>::empty());
    }
    None
}

/// The text the characters in `[from, to)` stand for, when they are a valid
/// wire-form string field.
fn unescape_segment(t: &Vec<char>, from: usize, to: usize) -> (r: Option<String>)
    requires
        from <= to <= t@.len(),
    ensures
        ({
            let seg = t@.subrange(from as int, to as int);
            match r {
                Some(c) => valid_esc(seg) && c@ == unesc(seg),
                None => !valid_esc(seg),
            }
        }),
{
    let ghost seg = t@.subrange(from as int, to as int);
    let mut out = String::new();
    let mut i: usize = from;
    proof {
        assert(seg.skip(0) =~= seg);
        assert(Seq::<char>::empty() + unesc(seg) =~= unesc(seg));
    }
    while i < to
        invariant
            from <= i <= to <= t@.len(),
            seg == t@.subrange(from as int, to as int),
            valid_esc(seg) == valid_esc(seg.skip(i - from)),
            unesc(seg) == out@ + unesc(seg.skip(i - from)),
        decreases to - i,
    {
        let ghost j = i - from;
        let c = t[i];
        proof {
            assert(seg.skip(j)[0] == seg[j]);
            assert(seg[j] == t@[i as int]);
        }
        if c == '\\' {
            if i + 1 >= to {
                proof {
                    assert(seg.skip(j).len() == 1);
                }
                return None;
            }
            let x = t[i + 1];
            proof {
                assert(seg.skip(j)[1] == seg[j + 1]);
                assert(seg[j + 1] == t@[i + 1]);
                assert(seg.skip(j).skip(2) =~= seg.skip(j + 2));
            }
            let u: char;
            match x {
                'n' => { u = '\n'; }
                'r' => { u = '\r'; }
                't' => { u = '\t'; }
                '"' => { u = '"'; }
                '\\' => { u = '\\'; }
                _ => {
                    proof {
                        assert(!is_escapable(seg.skip(j)[1]));
                    }
                    return None;
                }
            }
            let ghost prev = out@;
            push_char(&mut out, u);
            proof {
                assert(is_escapable(seg.skip(j)[1]));
                assert(u == unesc_char(seg.skip(j)[1]));
                assert(unesc(seg.skip(j)) == seq![u] + unesc(seg.skip(j + 2)));
                assert(prev + (seq![u] + unesc(seg.skip(j + 2))) =~= prev.push(u) + unesc(
                    seg.skip(j + 2),
                ));
            }
            i = i + 2;
        } else {
            let escape_needed = c == '"' || c == '\n' || c == '\r' || c == '\t';
            if escape_needed {
                proof {
                    assert(needs_escape(seg.skip(j)[0]));
                }
                return None;
            }
            let ghost prev = out@;
            push_char(&mut out, c);
            proof {
                assert(!needs_escape(seg.skip(j)[0]));
                assert(seg.skip(j).skip(1) =~= seg.skip(j + 1));
                assert(unesc(seg.skip(j)) == seq![c] + unesc(seg.skip(j + 1)));
                assert(prev + (seq![c] + unesc(seg.skip(j + 1))) =~= prev.push(c) + unesc(
                    seg.skip(j + 1),
                ));
            }
            i = i + 1;
        }
    }
    proof {
        assert(seg.skip(to - from) =~= Seq::<char>::empty());
        assert(unesc(seg) =~= out@);
    }
    Some(out)
}

/// The characters in `[from, to)` as a signed integer, when they are exactly
/// the wire form of one that fits.
fn parse_i64(t: &Vec<char>, from: usize, to: usize) -> (r: Option<i64>)
    requires
        from <= to <= t@.len(),
    ensures
        ({
            let seg = t@.subrange(from as int, to as int);
            match r {
                Some(x) => seg == int_seq(x as int),
                None => forall|x: i64| seg != int_seq(x as int),
            }
        }),
{
    let ghost seg = t@.subrange(from as int, to as int);
    if to == from {
        proof {
            assert forall|x: i64| seg != int_seq(x as int) by {
                lemma_dec_seq_shape(if x < 0 { (-(x as int)) as nat } else { x as nat });
            }
        }
        return None;
    }
    let neg = t[from] == '-';
    proof {
        assert(seg[0] == t@[from as int]);
    }
    let dstart: usize = if neg { from + 1 } else { from };
    if dstart == to {
        proof {
            assert forall|x: i64| seg != int_seq(x as int) by {
                lemma_dec_seq_shape(if x < 0 { (-(x as int)) as nat } else { x as nat });
                if seg == int_seq(x as int) {
                    if x >= 0 {
                        assert(is_dec_char(int_seq(x as int)[0]));
                    } else {
                        assert(int_seq(x as int).len() >= 2);
                    }
                }
            }
        }
        return None;
    }
    let ghost digits = seg.subrange(dstart - from, seg.len() as int);
    proof {
        lemma_int_seq_digits(seg, digits, neg);
    }
    let dcount = to - dstart;
    if dcount > 19 {
        proof {
            lemma_pow10_19();
            assert forall|x: i64| seg != int_seq(x as int) by {
                if seg == int_seq(x as int) {
                    let v = if x < 0 { (-(x as int)) as nat } else { x as nat };
                    assert(v < pow10(19));
                    lemma_dec_seq_len_bound(v, 19);
                    lemma_int_seq_split(seg, digits, neg, x as int);
                }
            }
        }
        return None;
    }
    if dcount > 1 {
        let c0 = t[dstart];
        proof {
            assert(digits[0] == seg[dstart - from]);
            assert(seg[dstart - from] == t@[dstart as int]);
        }
        if c0 == '0' {
            proof {
                assert forall|x: i64| seg != int_seq(x as int) by {
                    if seg == int_seq(x as int) {
                        let v = if x < 0 { (-(x as int)) as nat } else { x as nat };
                        lemma_int_seq_split(seg, digits, neg, x as int);
                        lemma_dec_seq_shape(v);
                    }
                }
            }
            return None;
        }
    }
    let mut acc: u64 = 0;
    let mut k: usize = dstart;
    proof {
        assert(digits.take(0) =~= Seq::<char>::empty());
    }
    while k < to
        invariant
            dstart <= k <= to <= t@.len(),
            from <= dstart <= to,
            from < to,
            dstart < to,
            dstart - from <= 1,
            to - dstart <= 19,
            seg == t@.subrange(from as int, to as int),
            neg == (seg[0] == '-'),
            dstart - from == if neg { 1int } else { 0int },
            digits == seg.subrange(dstart - from, seg.len() as int),
            digits.len() > 1 ==> digits[0] != '0',
            is_dec_seq(digits.take(k - dstart)),
            acc as nat == dec_val(digits.take(k - dstart)),
        decreases to - k,
    {
        let ghost dk = k - dstart;
        let c = t[k];
        proof {
            assert(digits[dk] == seg[dk + dstart - from]);
            assert(seg[dk + dstart - from] == t@[k as int]);
        }
        match dec_digit_val(c) {
            Some(d) => {
                proof {
                    lemma_dec_val_bound(digits.take(dk));
                    lemma_pow10_mono((dk) as nat, 18);
                    lemma_pow10_19();
                    assert((acc as nat) * 10 + 9 < pow10(19)) by (nonlinear_arith)
                        requires
                            (acc as nat) < pow10(18),
                            pow10(19) == 10 * pow10(18),
                    ;
                }
                let next = acc * 10 + (d as u64);
                proof {
                    assert(digits.take(dk + 1) =~= digits.take(dk).push(digits[dk]));
                    assert(digits.take(dk + 1).drop_last() =~= digits.take(dk));
                    assert(dec_val(digits.take(dk + 1)) == dec_val(digits.take(dk)) * 10
                        + dec_digit_of(c));
                    assert forall|l: int| 0 <= l < dk + 1 implies is_dec_char(
                        #[trigger] digits.take(dk + 1)[l],
                    ) by {
                        if l < dk {
                            assert(digits.take(dk + 1)[l] == digits.take(dk)[l]);
                        }
                    }
                }
                acc = next;
            }
            None => {
                proof {
                    assert(!is_dec_char(digits[dk]));
                    assert forall|x: i64| seg != int_seq(x as int) by {
                        if seg == int_seq(x as int) {
                            let v = if x < 0 { (-(x as int)) as nat } else { x as nat };
                            lemma_int_seq_split(seg, digits, neg, x as int);
                            lemma_dec_seq_shape(v);
                        }
                    }
                }
                return None;
            }
        }
        k = k + 1;
    }
    proof {
        assert(digits.take(to - dstart) =~= digits);
    }
    if neg {
        if acc > 9223372036854775808u64 || acc == 0 {
            proof {
                lemma_pow10_19();
                assert forall|x: i64| seg != int_seq(x as int) by {
                    if seg == int_seq(x as int) {
                        lemma_int_seq_split(seg, digits, neg, x as int);
                        let v = if x < 0 { (-(x as int)) as nat } else { x as nat };
                        lemma_dec_round(v);
                    }
                }
            }
            return None;
        }
        proof {
            lemma_dec_seq_of_val(digits);
            assert(seq!['-'] + digits =~= seg);
        }
        if acc == 9223372036854775808u64 {
            return Some(i64::MIN);
        }
        return Some(-(acc as i64));
    }
    if acc > 9223372036854775807u64 {
        proof {
            assert forall|x: i64| seg != int_seq(x as int) by {
                if seg == int_seq(x as int) {
                    lemma_int_seq_split(seg, digits, neg, x as int);
                    let v = if x < 0 { (-(x as int)) as nat } else { x as nat };
                    lemma_dec_round(v);
                }
            }
        }
        return None;
    }
    proof {
        lemma_dec_seq_of_val(digits);
        assert(digits =~= seg);
    }
    Some(acc as i64)
}

/// In a signed wire form, everything after the optional sign is the digit
/// string of the magnitude.
proof fn lemma_int_seq_split(seg: Seq<char>, digits: Seq<char>, neg: bool, x: int)
    requires
        seg == int_seq(x),
        seg.len() >= 1,
        neg == (seg[0] == '-'),
        digits == seg.subrange(if neg { 1int } else { 0int }, seg.len() as int),
    ensures
        neg == (x < 0),
        digits == dec_seq(if x < 0 { (-x) as nat } else { x as nat }),
{
    lemma_dec_seq_shape(if x < 0 { (-x) as nat } else { x as nat });
    if x < 0 {
        assert(seg[0] == '-');
        assert(digits =~= dec_seq((-x) as nat));
    } else {
        assert(is_dec_char(seg[0]));
        assert(seg[0] != '-');
        assert(digits =~= dec_seq(x as nat));
    }
}

/// The digit region a decimal parse looks at, characterized.
proof fn lemma_int_seq_digits(seg: Seq<char>, digits: Seq<char>, neg: bool)
    requires
        seg.len() >= 1,
        neg == (seg[0] == '-'),
        digits == seg.subrange(if neg { 1int } else { 0int }, seg.len() as int),
    ensures
        digits.len() == seg.len() - (if neg { 1int } else { 0int }),
{
}

// ---------------------------------------------------------------------------
// Layout of each variant's body, for parsing in both directions.
// ---------------------------------------------------------------------------

proof fn lemma_lit_lens()
    ensures
        lit_log().len() == 27,
        lit_chat().len() == 28,
        lit_heartbeat().len() == 20,
        lit_system().len() == 28,
        lit_content().len() == 13,
        lit_timestamp().len() == 14,
        lit_end_str().len() == 2,
        lit_end_obj().len() == 1,
        lit_log()[9] == 'l',
        lit_chat()[9] == 'c',
        lit_heartbeat()[9] == 'h',
        lit_system()[9] == 's',
        lit_timestamp()[0] == '"',
        lit_end_str()[0] == '"',
        lit_end_str()[1] == '}',
        lit_end_obj()[0] == '}',
        lit_heartbeat()[0] == '{',
        lit_log()[0] == '{',
        lit_chat()[0] == '{',
        lit_system()[0] == '{',
        lit_heartbeat()[19] == '}',
{
    reveal_strlit("{\"type\":\"log\",\"client_id\":\"");
    reveal_strlit("{\"type\":\"chat\",\"client_id\":\"");
    reveal_strlit("{\"type\":\"heartbeat\"}");
    reveal_strlit("{\"type\":\"system\",\"content\":\"");
    reveal_strlit("\",\"content\":\"");
    reveal_strlit("\",\"timestamp\":");
    reveal_strlit("\"}");
    reveal_strlit("}");
}

/// Where each piece of a handshake body stands.
proof fn lemma_log_layout(id: u128)
    ensures
        ({
            let b = body_spec(MessageView::Log { client_id: id });
            &&& b.len() == 61
            &&& b.subrange(0, 27) == lit_log()
            &&& b.subrange(27, 59) == hex32_of(id)
            &&& b.subrange(59, 61) == lit_end_str()
        }),
{
    lemma_lit_lens();
    lemma_hex_seq_shape(id as nat, 32);
    let b = body_spec(MessageView::Log { client_id: id });
    assert(b.subrange(0, 27) =~= lit_log());
    assert(b.subrange(27, 59) =~= hex32_of(id));
    assert(b.subrange(59, 61) =~= lit_end_str());
}

/// Where each piece of a chat body stands.
proof fn lemma_chat_layout(content: Seq<char>, id: u128, x: i64)
    ensures
        ({
            let b = body_spec(MessageView::Chat { content, client_id: id, timestamp: x });
            let e = esc_str(content).len() as int;
            let d = int_seq(x as int).len() as int;
            &&& b.len() == 73 + e + 14 + d + 1
            &&& b.subrange(0, 28) == lit_chat()
            &&& b.subrange(28, 60) == hex32_of(id)
            &&& b.subrange(60, 73) == lit_content()
            &&& b.subrange(73, 73 + e) == esc_str(content)
            &&& b.subrange(73 + e, 73 + e + 14) == lit_timestamp()
            &&& b.subrange(73 + e + 14, b.len() - 1) == int_seq(x as int)
            &&& b[b.len() - 1] == '}'
            &&& b.skip(73) == esc_str(content) + seq!['"'] + (lit_timestamp().skip(1) + int_seq(
                x as int,
            ) + lit_end_obj())
        }),
{
    lemma_lit_lens();
    lemma_hex_seq_shape(id as nat, 32);
    let b = body_spec(MessageView::Chat { content, client_id: id, timestamp: x });
    let e = esc_str(content).len() as int;
    let d = int_seq(x as int).len() as int;
    assert(b.subrange(0, 28) =~= lit_chat());
    assert(b.subrange(28, 60) =~= hex32_of(id));
    assert(b.subrange(60, 73) =~= lit_content());
    assert(b.subrange(73, 73 + e) =~= esc_str(content));
    assert(b.subrange(73 + e, 73 + e + 14) =~= lit_timestamp());
    assert(b.subrange(73 + e + 14, b.len() - 1) =~= int_seq(x as int));
    assert(b.skip(73) =~= esc_str(content) + seq!['"'] + (lit_timestamp().skip(1) + int_seq(
        x as int,
    ) + lit_end_obj()));
}

/// Where each piece of a system body stands.
proof fn lemma_system_layout(content: Seq<char>)
    ensures
        ({
            let b = body_spec(MessageView::System { content });
            let e = esc_str(content).len() as int;
            &&& b.len() == 28 + e + 2
            &&& b.subrange(0, 28) == lit_system()
            &&& b.subrange(28, 28 + e) == esc_str(content)
            &&& b.subrange(28 + e, b.len() as int) == lit_end_str()
            &&& b.skip(28) == esc_str(content) + seq!['"'] + seq!['}']
        }),
{
    lemma_lit_lens();
    let b = body_spec(MessageView::System { content });
    let e = esc_str(content).len() as int;
    assert(b.subrange(0, 28) =~= lit_system());
    assert(b.subrange(28, 28 + e) =~= esc_str(content));
    assert(b.subrange(28 + e, b.len() as int) =~= lit_end_str());
    reveal_strlit("\"}");
    assert(b.skip(28) =~= esc_str(content) + seq!['"'] + seq!['}']);
}

/// Every body is one brace-delimited line, and its tenth character names
/// the variant.
proof fn lemma_body_shape(m: MessageView)
    ensures
        body_spec(m).len() >= 20,
        body_spec(m)[0] == '{',
        body_spec(m).last() == '}',
        body_spec(m)[9] == (match m {
            MessageView::Log { .. } => 'l',
            MessageView::Chat { .. } => 'c',
            MessageView::Heartbeat => 'h',
            MessageView::System { .. } => 's',
        }),
{
    lemma_lit_lens();
    let b = body_spec(m);
    match m {
        MessageView::Log { client_id } => {
            lemma_log_layout(client_id);
            assert(b[0] == lit_log()[0]);
            assert(b[9] == lit_log()[9]);
            assert(b.last() == lit_end_str()[1]);
        }
        MessageView::Chat { content, client_id, timestamp } => {
            lemma_chat_layout(content, client_id, timestamp);
            assert(b[0] == lit_chat()[0]);
            assert(b[9] == lit_chat()[9]);
            assert(b.last() == lit_end_obj()[0]);
        }
        MessageView::Heartbeat => {
            assert(b[0] == lit_heartbeat()[0]);
            assert(b[9] == lit_heartbeat()[9]);
            assert(b.last() == lit_heartbeat()[19]);
        }
        MessageView::System { content } => {
            lemma_system_layout(content);
            assert(b[0] == lit_system()[0]);
            assert(b[9] == lit_system()[9]);
            assert(b.last() == lit_end_str()[1]);
        }
    }
}

/// No two well-formed messages share a body: the encoding is injective.
proof fn lemma_body_inject(m1: MessageView, m2: MessageView)
    requires
        m1.wf(),
        m2.wf(),
        body_spec(m1) == body_spec(m2),
    ensures
        m1 == m2,
{
    lemma_lit_lens();
    lemma_body_shape(m1);
    lemma_body_shape(m2);
    let b = body_spec(m1);
    match m1 {
        MessageView::Log { client_id: id1 } => {
            let id2 = m2->Log_client_id;
            assert(m2 is Log);
            lemma_log_layout(id1);
            lemma_log_layout(id2);
            lemma_hex32_inject(id1, id2);
        }
        MessageView::Chat { content: c1, client_id: id1, timestamp: x1 } => {
            assert(m2 is Chat);
            let c2 = m2->Chat_content;
            let id2 = m2->Chat_client_id;
            let x2 = m2->Chat_timestamp;
            lemma_chat_layout(c1, id1, x1);
            lemma_chat_layout(c2, id2, x2);
            lemma_hex32_inject(id1, id2);
            let e1 = esc_str(c1).len() as int;
            let e2 = esc_str(c2).len() as int;
            let tail = b.skip(73);
            lemma_scan_esc(c1, lit_timestamp().skip(1) + int_seq(x1 as int) + lit_end_obj());
            lemma_scan_esc(c2, lit_timestamp().skip(1) + int_seq(x2 as int) + lit_end_obj());
            assert(scan_end(tail) == Some(e1 as nat));
            assert(scan_end(tail) == Some(e2 as nat));
            assert(e1 == e2);
            assert(esc_str(c1) == b.subrange(73, 73 + e1));
            assert(esc_str(c2) == b.subrange(73, 73 + e2));
            lemma_esc_valid(c1);
            lemma_esc_valid(c2);
            assert(c1 == c2);
            assert(int_seq(x1 as int) == b.subrange(73 + e1 + 14, b.len() - 1));
            assert(int_seq(x2 as int) == b.subrange(73 + e2 + 14, b.len() - 1));
            lemma_int_seq_inject(x1 as int, x2 as int);
        }
        MessageView::Heartbeat => {
            assert(m2 is Heartbeat);
        }
        MessageView::System { content: c1 } => {
            assert(m2 is System);
            let c2 = m2->System_content;
            lemma_system_layout(c1);
            lemma_system_layout(c2);
            let e1 = esc_str(c1).len() as int;
            let e2 = esc_str(c2).len() as int;
            assert(e1 == e2);
            assert(esc_str(c1) == b.subrange(28, 28 + e1));
            assert(esc_str(c2) == b.subrange(28, 28 + e2));
            lemma_esc_valid(c1);
            lemma_esc_valid(c2);
            assert(c1 == c2);
        }
    }
}

/// A line reads as at most one well-formed message.
pub proof fn lemma_decodes_unique(s: Seq<char>, m1: MessageView, m2: MessageView)
    requires
        decodes_to(s, m1),
        decodes_to(s, m2),
    ensures
        m1 == m2,
{
    lemma_body_inject(m1, m2);
}

/// Encode a message as one newline-terminated line of the wire convention.
pub fn encode(m: &crate::messages::Message) -> (r: String)
    ensures
        r@ == encode_spec(m@),
{
    let mut out = String::new();
    match m {
        crate::messages::Message::Log { client_id } => {
            out.append("{\"type\":\"log\",\"client_id\":\"");
            append_hex32(&mut out, client_id.0);
            out.append("\"}");
            assert(out@ =~= body_spec(m@));
        }
        crate::messages::Message::Chat { content, client_id, timestamp } => {
            out.append("{\"type\":\"chat\",\"client_id\":\"");
            append_hex32(&mut out, client_id.0);
            out.append("\",\"content\":\"");
            append_escaped(&mut out, content.as_str());
            out.append("\",\"timestamp\":");
            append_i64(&mut out, *timestamp);
            out.append("}");
            assert(out@ =~= body_spec(m@));
        }
        crate::messages::Message::Heartbeat => {
            out.append("{\"type\":\"heartbeat\"}");
            assert(out@ =~= body_spec(m@));
        }
        crate::messages::Message::System { content } => {
            out.append("{\"type\":\"system\",\"content\":\"");
            append_escaped(&mut out, content.as_str());
            out.append("\"}");
            assert(out@ =~= body_spec(m@));
        }
    }
    push_char(&mut out, '\n');
    out
}

/// Parse a handshake body; the tag prefix has already been matched.
fn parse_log(t: &Vec<char>) -> (r: Option<Message>)
    requires
        t@.len() >= lit_log().len(),
        t@.subrange(0, lit_log().len() as int) == lit_log(),
    ensures
        match r {
            Some(m) => m@.wf() && m@ is Log && t@ == body_spec(m@),
            None => forall|m: MessageView| !(m.wf() && m is Log && t@ == body_spec(m)),
        },
{
    proof {
        lemma_lit_lens();
    }
    let tlen = t.len();
    if tlen != 61 {
        proof {
            assert forall|m: MessageView| !(m.wf() && m is Log && t@ == body_spec(m)) by {
                if m.wf() && m is Log && t@ == body_spec(m) {
                    lemma_log_layout(m->Log_client_id);
                }
            }
        }
        return None;
    }
    match parse_hex32(t, 27) {
        Some(id) => {
            if has_at(t, 59, "\"}") {
                proof {
                    assert(t@ =~= t@.subrange(0, 27) + t@.subrange(27, 59) + t@.subrange(59, 61));
                    lemma_log_layout(id);
                    assert(body_spec(MessageView::Log { client_id: id }) =~= t@.subrange(0, 27)
                        + t@.subrange(27, 59) + t@.subrange(59, 61));
                }
                Some(Message::Log { client_id: ClientId(id) })
            } else {
                proof {
                    assert forall|m: MessageView| !(m.wf() && m is Log && t@ == body_spec(m)) by {
                        if m.wf() && m is Log && t@ == body_spec(m) {
                            lemma_log_layout(m->Log_client_id);
                        }
                    }
                }
                None
            }
        }
        None => {
            proof {
                assert forall|m: MessageView| !(m.wf() && m is Log && t@ == body_spec(m)) by {
                    if m.wf() && m is Log && t@ == body_spec(m) {
                        lemma_log_layout(m->Log_client_id);
                        lemma_hex_seq_shape(m->Log_client_id as nat, 32);
                    }
                }
            }
            None
        }
    }
}

/// Parse a system body; the tag prefix has already been matched.
fn parse_system(t: &Vec<char>) -> (r: Option<Message>)
    requires
        t@.len() >= lit_system().len(),
        t@.subrange(0, lit_system().len() as int) == lit_system(),
    ensures
        match r {
            Some(m) => m@.wf() && m@ is System && t@ == body_spec(m@),
            None => forall|m: MessageView| !(m.wf() && m is System && t@ == body_spec(m)),
        },
{
    proof {
        lemma_lit_lens();
    }
    let tlen = t.len();
    match scan_string_end(t, 28) {
        Some(q) => {
            match unescape_segment(t, 28, q) {
                Some(content) => {
                    if tlen - q == 2 && has_at(t, q, "\"}") {
                        proof {
                            let seg = t@.subrange(28, q as int);
                            lemma_esc_of_unesc(seg);
                            assert(t@ =~= t@.subrange(0, 28) + seg + t@.subrange(q as int, tlen as int));
                            lemma_system_layout(content@);
                            assert(body_spec(MessageView::System { content: content@ })
                                =~= t@.subrange(0, 28) + seg + t@.subrange(q as int, tlen as int));
                        }
                        Some(Message::System { content })
                    } else {
                        proof {
                            assert forall|m: MessageView| !(m.wf() && m is System && t@
                                == body_spec(m)) by {
                                if m.wf() && m is System && t@ == body_spec(m) {
                                    let c = m->System_content;
                                    lemma_system_layout(c);
                                    lemma_scan_esc(c, seq!['}']);
                                    assert(esc_str(c) + seq!['"'] + seq!['}'] =~= esc_str(c)
                                        + seq!['"'] + (Seq::<char>::empty() + seq!['}']));
                                    assert(q - 28 == esc_str(c).len());
                                    assert(t@.subrange(q as int, q + 2) =~= lit_end_str());
                                }
                            }
                        }
                        None
                    }
                }
                None => {
                    proof {
                        assert forall|m: MessageView| !(m.wf() && m is System && t@ == body_spec(
                            m,
                        )) by {
                            if m.wf() && m is System && t@ == body_spec(m) {
                                let c = m->System_content;
                                lemma_system_layout(c);
                                lemma_scan_esc(c, seq!['}']);
                                assert(esc_str(c) + seq!['"'] + seq!['}'] =~= esc_str(c)
                                    + seq!['"'] + (Seq::<char>::empty() + seq!['}']));
                                assert(q - 28 == esc_str(c).len());
                                assert(t@.subrange(28, q as int) =~= esc_str(c));
                                lemma_esc_valid(c);
                            }
                        }
                    }
                    None
                }
            }
        }
        None => {
            proof {
                assert forall|m: MessageView| !(m.wf() && m is System && t@ == body_spec(m)) by {
                    if m.wf() && m is System && t@ == body_spec(m) {
                        let c = m->System_content;
                        lemma_system_layout(c);
                        lemma_scan_esc(c, seq!['}']);
                        assert(esc_str(c) + seq!['"'] + seq!['}'] =~= esc_str(c) + seq!['"'] + (
                        Seq::<char>::empty() + seq!['}']));
                        assert(scan_end(t@.skip(28)) is Some);
                    }
                }
            }
            None
        }
    }
}

/// Parse a chat body; the tag prefix has already been matched.
fn parse_chat(t: &Vec<char>) -> (r: Option<Message>)
    requires
        t@.len() >= lit_chat().len(),
        t@.subrange(0, lit_chat().len() as int) == lit_chat(),
    ensures
        match r {
            Some(m) => m@.wf() && m@ is Chat && t@ == body_spec(m@),
            None => forall|m: MessageView| !(m.wf() && m is Chat && t@ == body_spec(m)),
        },
{
    proof {
        lemma_lit_lens();
    }
    let tlen = t.len();
    if tlen < 60 {
        proof {
            assert forall|m: MessageView| !(m.wf() && m is Chat && t@ == body_spec(m)) by {
                if m.wf() && m is Chat && t@ == body_spec(m) {
                    lemma_chat_layout(m->Chat_content, m->Chat_client_id, m->Chat_timestamp);
                }
            }
        }
        return None;
    }
    let id_opt = parse_hex32(t, 28);
    if id_opt.is_none() {
        proof {
            assert forall|m: MessageView| !(m.wf() && m is Chat && t@ == body_spec(m)) by {
                if m.wf() && m is Chat && t@ == body_spec(m) {
                    lemma_chat_layout(m->Chat_content, m->Chat_client_id, m->Chat_timestamp);
                    lemma_hex_seq_shape(m->Chat_client_id as nat, 32);
                }
            }
        }
        return None;
    }
    let id = id_opt.unwrap();
    if !has_at(t, 60, "\",\"content\":\"") {
        proof {
            assert forall|m: MessageView| !(m.wf() && m is Chat && t@ == body_spec(m)) by {
                if m.wf() && m is Chat && t@ == body_spec(m) {
                    lemma_chat_layout(m->Chat_content, m->Chat_client_id, m->Chat_timestamp);
                }
            }
        }
        return None;
    }
    let q_opt = scan_string_end(t, 73);
    if q_opt.is_none() {
        proof {
            assert forall|m: MessageView| !(m.wf() && m is Chat && t@ == body_spec(m)) by {
                if m.wf() && m is Chat && t@ == body_spec(m) {
                    let c = m->Chat_content;
                    let x = m->Chat_timestamp;
                    lemma_chat_layout(c, m->Chat_client_id, x);
                    lemma_scan_esc(c, lit_timestamp().skip(1) + int_seq(x as int)
                        + lit_end_obj());
                    assert(scan_end(t@.skip(73)) is Some);
                }
            }
        }
        return None;
    }
    let q = q_opt.unwrap();
    let content_opt = unescape_segment(t, 73, q);
    if content_opt.is_none() {
        proof {
            assert forall|m: MessageView| !(m.wf() && m is Chat && t@ == body_spec(m)) by {
                if m.wf() && m is Chat && t@ == body_spec(m) {
                    let c = m->Chat_content;
                    let x = m->Chat_timestamp;
                    lemma_chat_layout(c, m->Chat_client_id, x);
                    lemma_scan_esc(c, lit_timestamp().skip(1) + int_seq(x as int)
                        + lit_end_obj());
                    assert(q - 73 == esc_str(c).len());
                    assert(t@.subrange(73, q as int) =~= esc_str(c));
                    lemma_esc_valid(c);
                }
            }
        }
        return None;
    }
    let content = content_opt.unwrap();
    if content.as_str().is_empty() {
        proof {
            assert forall|m: MessageView| !(m.wf() && m is Chat && t@ == body_spec(m)) by {
                if m.wf() && m is Chat && t@ == body_spec(m) {
                    let c = m->Chat_content;
                    let x = m->Chat_timestamp;
                    lemma_chat_layout(c, m->Chat_client_id, x);
                    lemma_scan_esc(c, lit_timestamp().skip(1) + int_seq(x as int)
                        + lit_end_obj());
                    assert(q - 73 == esc_str(c).len());
                    assert(t@.subrange(73, q as int) =~= esc_str(c));
                    lemma_esc_valid(c);
                }
            }
        }
        return None;
    }
    if !has_at(t, q, "\",\"timestamp\":") {
        proof {
            assert forall|m: MessageView| !(m.wf() && m is Chat && t@ == body_spec(m)) by {
                if m.wf() && m is Chat && t@ == body_spec(m) {
                    let c = m->Chat_content;
                    let x = m->Chat_timestamp;
                    lemma_chat_layout(c, m->Chat_client_id, x);
                    lemma_scan_esc(c, lit_timestamp().skip(1) + int_seq(x as int)
                        + lit_end_obj());
                    let e = esc_str(c).len() as int;
                    assert(q - 73 == e);
                    assert(t@.subrange(q as int, q + 14) =~= lit_timestamp());
                }
            }
        }
        return None;
    }
    if tlen - (q + 14) < 2 {
        proof {
            assert forall|m: MessageView| !(m.wf() && m is Chat && t@ == body_spec(m)) by {
                if m.wf() && m is Chat && t@ == body_spec(m) {
                    let c = m->Chat_content;
                    let x = m->Chat_timestamp;
                    lemma_chat_layout(c, m->Chat_client_id, x);
                    lemma_scan_esc(c, lit_timestamp().skip(1) + int_seq(x as int)
                        + lit_end_obj());
                    assert(q - 73 == esc_str(c).len());
                    lemma_dec_seq_shape(if x < 0 { (-(x as int)) as nat } else { x as nat });
                }
            }
        }
        return None;
    }
    let lastc = t[tlen - 1];
    if lastc != '}' {
        proof {
            assert forall|m: MessageView| !(m.wf() && m is Chat && t@ == body_spec(m)) by {
                if m.wf() && m is Chat && t@ == body_spec(m) {
                    lemma_chat_layout(m->Chat_content, m->Chat_client_id, m->Chat_timestamp);
                }
            }
        }
        return None;
    }
    match parse_i64(t, q + 14, tlen - 1) {
        Some(x) => {
            proof {
                let seg = t@.subrange(73, q as int);
                lemma_esc_of_unesc(seg);
                assert(t@ =~= t@.subrange(0, 28) + t@.subrange(28, 60) + t@.subrange(60, 73) + seg
                    + t@.subrange(q as int, q + 14) + t@.subrange(q + 14, tlen - 1) + t@.subrange(
                    tlen - 1,
                    tlen as int,
                ));
                lemma_chat_layout(content@, id, x);
                assert(t@.subrange(tlen - 1, tlen as int) =~= lit_end_obj());
                assert(body_spec(
                    MessageView::Chat { content: content@, client_id: id, timestamp: x },
                ) =~= t@.subrange(0, 28) + t@.subrange(28, 60) + t@.subrange(60, 73) + seg
                    + t@.subrange(q as int, q + 14) + t@.subrange(q + 14, tlen - 1) + t@.subrange(
                    tlen - 1,
                    tlen as int,
                ));
            }
            Some(Message::Chat { content, client_id: ClientId(id), timestamp: x })
        }
        None => {
            proof {
                assert forall|m: MessageView| !(m.wf() && m is Chat && t@ == body_spec(m)) by {
                    if m.wf() && m is Chat && t@ == body_spec(m) {
                        let c = m->Chat_content;
                        let x = m->Chat_timestamp;
                        lemma_chat_layout(c, m->Chat_client_id, x);
                        lemma_scan_esc(c, lit_timestamp().skip(1) + int_seq(x as int)
                            + lit_end_obj());
                        let e = esc_str(c).len() as int;
                        assert(q - 73 == e);
                        assert(t@.subrange(q + 14, tlen - 1) =~= int_seq(x as int));
                    }
                }
            }
            None
        }
    }
}

/// Parse a trimmed line as the body of some message.
fn parse_body(t: &Vec<char>) -> (r: Option<Message>)
    ensures
        match r {
            Some(m) => m@.wf() && t@ == body_spec(m@),
            None => forall|m: MessageView| !(m.wf() && t@ == body_spec(m)),
        },
{
    proof {
        lemma_lit_lens();
    }
    let tlen = t.len();
    if tlen == 20 && has_at(t, 0, "{\"type\":\"heartbeat\"}") {
        proof {
            assert(t@ =~= lit_heartbeat());
        }
        return Some(Message::Heartbeat);
    }
    if has_at(t, 0, "{\"type\":\"log\",\"client_id\":\"") {
        let r = parse_log(t);
        proof {
            if r is None {
                assert forall|m: MessageView| !(m.wf() && t@ == body_spec(m)) by {
                    if m.wf() && t@ == body_spec(m) {
                        lemma_body_shape(m);
                        assert(t@[9] == lit_log()[9]);
                    }
                }
            }
        }
        return r;
    }
    if has_at(t, 0, "{\"type\":\"chat\",\"client_id\":\"") {
        let r = parse_chat(t);
        proof {
            if r is None {
                assert forall|m: MessageView| !(m.wf() && t@ == body_spec(m)) by {
                    if m.wf() && t@ == body_spec(m) {
                        lemma_body_shape(m);
                        assert(t@[9] == lit_chat()[9]);
                    }
                }
            }
        }
        return r;
    }
    if has_at(t, 0, "{\"type\":\"system\",\"content\":\"") {
        let r = parse_system(t);
        proof {
            if r is None {
                assert forall|m: MessageView| !(m.wf() && t@ == body_spec(m)) by {
                    if m.wf() && t@ == body_spec(m) {
                        lemma_body_shape(m);
                        assert(t@[9] == lit_system()[9]);
                    }
                }
            }
        }
        return r;
    }
    proof {
        assert forall|m: MessageView| !(m.wf() && t@ == body_spec(m)) by {
            if m.wf() && t@ == body_spec(m) {
                lemma_body_shape(m);
                match m {
                    MessageView::Log { client_id } => {
                        lemma_log_layout(client_id);
                    }
                    MessageView::Chat { content, client_id, timestamp } => {
                        lemma_chat_layout(content, client_id, timestamp);
                    }
                    MessageView::Heartbeat => {
                        assert(t@.subrange(0, 20) =~= lit_heartbeat());
                    }
                    MessageView::System { content } => {
                        lemma_system_layout(content);
                    }
                }
            }
        }
    }
    None
}

/// Decode one line. Returns the unique well-formed message the line encodes,
/// or an error when, once surrounding whitespace is removed, the line is not
/// exactly the encoding of any well-formed message. Never panics, whatever
/// the input.
pub fn decode(line: &str) -> (r: Result<Message, DecodeError>)
    ensures
        match r {
            Ok(m) => m@.wf() && decode_spec(line@) == Some(m@),
            Err(_) => decode_spec(line@) is None,
        },
{
    let t = trimmed_chars(line);
    match parse_body(&t) {
        Some(m) => {
            proof {
                assert(decodes_to(line@, m@));
                let w = choose|m2: MessageView| decodes_to(line@, m2);
                lemma_decodes_unique(line@, w, m@);
            }
            Ok(m)
        }
        None => {
            proof {
                if exists|m2: MessageView| decodes_to(line@, m2) {
                    let w = choose|m2: MessageView| decodes_to(line@, m2);
                    assert(t@ == body_spec(w));
                    assert(false);
                }
            }
            Err(DecodeError)
        }
    }
}

/// Round trip: decoding the encoding of any well-formed message gives that
/// message back, exactly.
pub proof fn lemma_round_trip(m: MessageView)
    requires
        m.wf(),
    ensures
        decode_spec(encode_spec(m)) == Some(m),
{
    lemma_body_shape(m);
    lemma_trim_solid(body_spec(m));
    assert(decodes_to(encode_spec(m), m));
    let w = choose|m2: MessageView| decodes_to(encode_spec(m), m2);
    lemma_decodes_unique(encode_spec(m), w, m);
}

/// A line decodes one way or not at all: the decoder's result is a function
/// of the line, with success exactly on encodings of well-formed messages.
pub proof fn lemma_decode_exact(s: Seq<char>)
    ensures
        (exists|m: MessageView| decodes_to(s, m)) ==> (decode_spec(s) matches Some(m2)
            && decodes_to(s, m2)),
        (forall|m: MessageView| !decodes_to(s, m)) ==> decode_spec(s) is None,
{
}

} // verus!
