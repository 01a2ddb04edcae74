//! The store client's logic, apart from the connection: which command each
//! query sends, and what each reply means.
use vstd::prelude::*;
use vstd::utf8::*;
use vstd::string::*;
use crate::number::{lemma_nat_text, nat_text, push_digits};
use crate::resp::{
    Decoding, RespError, RespParser, RespValue, Outcome, Wire, decode, encode, lemma_views,
    utf8_text, views,
};

verus! {

broadcast use {encode_utf8_valid_utf8, encode_utf8_decode_utf8};

/// The most bytes one reply may take: the client reads once, into a window of
/// this size.
pub const READ_WINDOW: usize = 128;

/// The texts of a run of strings.
pub open spec fn texts(words: Seq<String>) -> Seq<Seq<char>> {
    Seq::new(words.len(), |i: int| words[i]@)
}

/// A command as the store receives it: a list of bulk strings.
pub open spec fn command(words: Seq<Seq<char>>) -> Wire {
    Wire::List(Seq::new(words.len(), |i: int| Wire::Bulk(Some(words[i]))))
}

/// What one read of a reply into the window yields. A reply that is cut
/// short where the window is full did not fit it.
pub open spec fn reply(window: Seq<u8>) -> Result<Wire, RespError> {
    if window.len() > READ_WINDOW {
        Err(RespError::Oversized)
    } else {
        match decode(window) {
            Decoding::Complete(w, _) => Ok(w),
            Decoding::Incomplete => if window.len() == READ_WINDOW {
                Err(RespError::Oversized)
            } else {
                Err(RespError::Incomplete)
            },
            Decoding::Malformed => Err(RespError::Malformed),
        }
    }
}

/// The answer to a query whose reply is read from `window`, given what the
/// query makes of a decoded reply.
pub open spec fn answer(window: Seq<u8>, yes: spec_fn(Wire) -> bool) -> Result<bool, RespError> {
    match reply(window) {
        Ok(w) => Ok(yes(w)),
        Err(e) => Err(e),
    }
}

/// The key a session is stored under.
pub open spec fn session_key(key: Seq<char>) -> Seq<char> {
    "Session-"@ + key
}

/// The characters of a run of ASCII bytes.
pub open spec fn ascii_chars(b: Seq<u8>) -> Seq<char> {
    Seq::new(b.len(), |i: int| b[i] as char)
}

/// The bytes of the command `cmd` on the wire.
pub fn command_bytes(cmd: Vec<String>) -> (r: Vec<u8>)
    ensures
        r@ == encode(command(texts(cmd@))),
{
    let mut items: Vec<RespValue> = Vec::new();
    let mut i: usize = 0;
    while i < cmd.len()
        invariant
            i <= cmd@.len(),
            items@.len() == i,
            forall|j: int| 0 <= j < i ==> #[trigger] items@[j] == RespValue::BulkString(Some(cmd@[j])),
        decreases cmd@.len() - i,
    {
        items.push(RespValue::BulkString(Some(cmd[i].clone())));
        i = i + 1;
    }
    proof {
        lemma_views(items@);
        assert(views(items@) =~= command(texts(cmd@))->List_0);
    }
    RespParser::serializer(RespValue::Array(items))
}

/// Decodes the reply read into `window`.
pub fn reply_value(window: &[u8]) -> (r: Result<RespValue, RespError>)
    ensures
        reply(window@) matches Ok(w) ==> r matches Ok(v) && v@ == w,
        reply(window@) matches Err(e) ==> r == Err::<RespValue, RespError>(e),
{
    if window.len() > READ_WINDOW {
        return Err(RespError::Oversized);
    }
    match RespParser::decode(window) {
        Outcome::Complete(v, _) => Ok(v),
        Outcome::Incomplete => if window.len() == READ_WINDOW {
            Err(RespError::Oversized)
        } else {
            Err(RespError::Incomplete)
        },
        Outcome::Malformed => Err(RespError::Malformed),
    }
}

/// Whether `v` is a bulk string holding exactly `text`.
fn holds_text(v: &RespValue, text: &str) -> (r: bool)
    ensures
        r == (v@ == Wire::Bulk(Some(text@))),
{
    match v {
        RespValue::BulkString(Some(s)) => *s == String::from_str(text),
        _ => false,
    }
}

/// `n` in base 10, as text.
pub(crate) fn decimal_text(n: u64) -> (r: String)
    ensures
        r@ == ascii_chars(nat_text(n as nat)),
{
    let mut digits: Vec<u8> = Vec::new();
    push_digits(&mut digits, n);
    let ghost t = nat_text(n as nat);
    let ghost c = ascii_chars(t);
    proof {
        assert(digits@ =~= t);
        lemma_nat_text(n as nat);
        assert(is_ascii_chars(c)) by {
            assert forall|i: int| 0 <= i < c.len() implies '\0' <= #[trigger] c[i] <= '\u{7f}' by {
                assert(48 <= t[i] <= 57);
            }
        }
        is_ascii_chars_encode_utf8(c);
        assert(encode_utf8(c) =~= t);
    }
    match utf8_text(digits.as_slice()) {
        Some(s) => s.to_owned(),
        None => String::new(),
    }
}

/// The store key for the session `key`.
fn session_key_text(key: &str) -> (r: String)
    ensures
        r@ == session_key(key@),
{
    let mut k = String::from_str("Session-");
    k.append(key);
    k
}

/// The lookup of the secret stored for `user`.
pub fn credential_command(user: &str) -> (r: Vec<String>)
    ensures
        texts(r@) == seq!["HGET"@, "usr-pwd"@, user@],
{
    let r = vec![String::from_str("HGET"), String::from_str("usr-pwd"), String::from_str(user)];
    assert(texts(r@) =~= seq!["HGET"@, "usr-pwd"@, user@]);
    r
}

/// Whether the reply to a credential lookup holds exactly `secret`; any other
/// well-formed reply means no.
pub fn credential_verdict(window: &[u8], secret: &str) -> (r: Result<bool, RespError>)
    ensures
        r == answer(window@, |w: Wire| w == Wire::Bulk(Some(secret@))),
{
    match reply_value(window) {
        Ok(v) => Ok(holds_text(&v, secret)),
        Err(e) => Err(e),
    }
}

/// The query whether `key` is stored.
pub fn uniqueness_command(key: &str) -> (r: Vec<String>)
    ensures
        texts(r@) == seq!["EXISTS"@, key@],
{
    let r = vec![String::from_str("EXISTS"), String::from_str(key)];
    assert(texts(r@) =~= seq!["EXISTS"@, key@]);
    r
}

/// Whether the reply to an existence query is the integer zero: any other
/// well-formed reply means no.
pub fn uniqueness_verdict(window: &[u8]) -> (r: Result<bool, RespError>)
    ensures
        r == answer(window@, |w: Wire| w == Wire::Int(0)),
{
    match reply_value(window) {
        Ok(RespValue::Integer(n)) => Ok(n == 0),
        Ok(_) => Ok(false),
        Err(e) => Err(e),
    }
}

/// The command that binds the session `key` to `address` for `ttl_seconds`.
pub fn session_write_command(key: &str, address: &str, ttl_seconds: usize) -> (r: Vec<String>)
    ensures
        texts(r@) == seq![
            "SET"@,
            session_key(key@),
            address@,
            "EX"@,
            ascii_chars(nat_text(ttl_seconds as nat)),
        ],
{
    let r = vec![
        String::from_str("SET"),
        session_key_text(key),
        String::from_str(address),
        String::from_str("EX"),
        decimal_text(ttl_seconds as u64),
    ];
    assert(texts(r@) =~= seq![
        "SET"@,
        session_key(key@),
        address@,
        "EX"@,
        ascii_chars(nat_text(ttl_seconds as nat)),
    ]);
    r
}

/// Whether the store acknowledged a session write with a status line.
pub fn session_write_verdict(window: &[u8]) -> (r: Result<bool, RespError>)
    ensures
        r == answer(window@, |w: Wire| w is Status),
{
    match reply_value(window) {
        Ok(RespValue::SimpleString(_)) => Ok(true),
        Ok(_) => Ok(false),
        Err(e) => Err(e),
    }
}

/// The lookup of the address bound to the session `key`.
pub fn session_read_command(key: &str) -> (r: Vec<String>)
    ensures
        texts(r@) == seq!["GET"@, session_key(key@)],
{
    let r = vec![String::from_str("GET"), session_key_text(key)];
    assert(texts(r@) =~= seq!["GET"@, session_key(key@)]);
    r
}

/// Whether the session is bound to exactly `address`.
pub fn session_read_verdict(window: &[u8], address: &str) -> (r: Result<bool, RespError>)
    ensures
        r == answer(window@, |w: Wire| w == Wire::Bulk(Some(address@))),
{
    match reply_value(window) {
        Ok(v) => Ok(holds_text(&v, address)),
        Err(e) => Err(e),
    }
}

} // verus!
