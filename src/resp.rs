//! Values of the wire protocol, their byte encoding, and the decoder that
//! reads them back from a buffer that may hold only part of a value.
use vstd::prelude::*;
use vstd::utf8::*;
use vstd::string::*;
use vstd::slice::slice_subrange;
use bytes::BytesMut;
use crate::buffer::{buffered, drop_front, held_bytes};
use crate::number::{
    decimal, int_text, nat_text, parse_decimal, parse_unsigned, push_decimal, push_digits,
    unsigned_decimal,
};

verus! {

broadcast use {
    encode_utf8_valid_utf8,
    encode_utf8_decode_utf8,
    vstd::std_specs::vec::group_vec_axioms,
};

/// The mathematical model of a wire value.
pub enum Wire {
    Status(Seq<char>),
    Failure(Seq<char>),
    Int(int),
    Bulk(Option<Seq<char>>),
    List(Seq<Wire>),
    Nil,
}

/// What the decoder makes of a buffer: a value and the number of bytes it
/// spans, a need for more bytes, or bytes that can never form a value.
pub enum Decoding {
    Complete(Wire, nat),
    Incomplete,
    Malformed,
}

/// A value of the protocol.
#[derive(Debug, PartialEq)]
pub enum RespValue {
    SimpleString(String),
    Error(String),
    Integer(i64),
    BulkString(Option<String>),
    Array(Vec<RespValue>),
    Null,
}

impl View for RespValue {
    type V = Wire;

    open spec fn view(&self) -> Wire
        decreases self,
    {
        match self {
            RespValue::SimpleString(s) => Wire::Status(s@),
            RespValue::Error(s) => Wire::Failure(s@),
            RespValue::Integer(n) => Wire::Int(*n as int),
            RespValue::BulkString(None) => Wire::Bulk(None),
            RespValue::BulkString(Some(s)) => Wire::Bulk(Some(s@)),
            RespValue::Array(xs) => Wire::List(views(xs@)),
            RespValue::Null => Wire::Nil,
        }
    }
}

/// The models of a run of values.
pub open spec fn views(xs: Seq<RespValue>) -> Seq<Wire>
    decreases xs,
{
    if xs.len() == 0 {
        Seq::empty()
    } else {
        views(xs.drop_last()).push(xs.last().view())
    }
}

/// The models of a run of values, one for each value.
pub proof fn lemma_views(xs: Seq<RespValue>)
    ensures
        views(xs).len() == xs.len(),
        forall|i: int| 0 <= i < xs.len() ==> #[trigger] views(xs)[i] == xs[i]@,
    decreases xs.len(),
{
    if xs.len() > 0 {
        lemma_views(xs.drop_last());
        assert(views(xs) == views(xs.drop_last()).push(xs.last()@));
    } else {
        assert(views(xs) == Seq::<Wire>::empty());
    }
}

/// The outcome of decoding a buffer.
#[derive(Debug, PartialEq)]
pub enum Outcome {
    /// A whole value, and the number of bytes it spans from the buffer's start.
    Complete(RespValue, usize),
    /// The buffer holds the start of a value; nothing was consumed.
    Incomplete,
    /// The buffer can never start a value.
    Malformed,
}

impl View for Outcome {
    type V = Decoding;

    open spec fn view(&self) -> Decoding {
        match self {
            Outcome::Complete(v, n) => Decoding::Complete(v@, *n as nat),
            Outcome::Incomplete => Decoding::Incomplete,
            Outcome::Malformed => Decoding::Malformed,
        }
    }
}

/// The two bytes that end a line.
pub open spec fn crlf() -> Seq<u8> {
    seq![13u8, 10u8]
}

/// The bytes of a value on the wire.
pub open spec fn encode(w: Wire) -> Seq<u8>
    decreases w,
{
    match w {
        Wire::Status(t) => seq![43u8] + encode_utf8(t) + crlf(),
        Wire::Failure(t) => seq![45u8] + encode_utf8(t) + crlf(),
        Wire::Int(n) => seq![58u8] + int_text(n) + crlf(),
        Wire::Bulk(None) => seq![36u8, 45u8, 49u8, 13u8, 10u8],
        Wire::Bulk(Some(t)) => seq![36u8] + nat_text(encode_utf8(t).len()) + crlf() + encode_utf8(t)
            + crlf(),
        Wire::List(xs) => seq![42u8] + nat_text(xs.len()) + crlf() + encode_items(xs),
        Wire::Nil => seq![95u8, 13u8, 10u8],
    }
}

/// The bytes of a run of values, one after the other.
pub open spec fn encode_items(xs: Seq<Wire>) -> Seq<u8>
    decreases xs,
{
    if xs.len() == 0 {
        Seq::empty()
    } else {
        encode_items(xs.drop_last()) + encode(xs.last())
    }
}

/// The position of the first CR at or after `i`.
pub open spec fn line_end(buf: Seq<u8>, i: int) -> Option<int>
    decreases buf.len() - i,
{
    if i < 0 || i >= buf.len() {
        None
    } else if buf[i] == 13 {
        Some(i)
    } else {
        line_end(buf, i + 1)
    }
}

/// The position of the CR that ends the first line, when an LF follows it.
pub open spec fn header_end(buf: Seq<u8>) -> Option<int> {
    match line_end(buf, 0) {
        Some(p) => if p + 1 < buf.len() && buf[p + 1] == 10 {
            Some(p)
        } else {
            None
        },
        None => None,
    }
}

/// Whether `b` is the first byte of some kind of value.
pub open spec fn is_discriminator(b: u8) -> bool {
    b == 43 || b == 45 || b == 58 || b == 36 || b == 42 || b == 95
}

/// Text of a line, when it is well-formed UTF-8.
pub open spec fn line_text(h: Seq<u8>, failure: bool, next: int) -> Decoding {
    if !valid_utf8(h) {
        Decoding::Malformed
    } else if failure {
        Decoding::Complete(Wire::Failure(decode_utf8(h)), next as nat)
    } else {
        Decoding::Complete(Wire::Status(decode_utf8(h)), next as nat)
    }
}

/// A bulk string whose header `h` ends at `next`.
pub open spec fn decode_bulk(buf: Seq<u8>, h: Seq<u8>, next: int) -> Decoding {
    if h == seq![45u8, 49u8] {
        Decoding::Complete(Wire::Nil, next as nat)
    } else {
        match unsigned_decimal(h) {
            Some(n) => if buf.len() < next + n + 2 {
                Decoding::Incomplete
            } else if buf[next + n] == 13 && buf[next + n + 1] == 10 {
                let payload = buf.subrange(next, next + n);
                if valid_utf8(payload) {
                    Decoding::Complete(Wire::Bulk(Some(decode_utf8(payload))), (next + n + 2) as nat)
                } else {
                    Decoding::Malformed
                }
            } else {
                Decoding::Incomplete
            },
            None => Decoding::Malformed,
        }
    }
}

/// The first value in `buf`.
pub open spec fn decode(buf: Seq<u8>) -> Decoding
    decreases buf.len(), 1int, 0int,
{
    if buf.len() == 0 {
        Decoding::Incomplete
    } else if buf[0] == 95 {
        if buf == seq![95u8, 13u8, 10u8] {
            Decoding::Complete(Wire::Nil, 3)
        } else {
            Decoding::Incomplete
        }
    } else if !is_discriminator(buf[0]) {
        Decoding::Malformed
    } else {
        match header_end(buf) {
            None => Decoding::Incomplete,
            Some(p) => {
                let h = buf.subrange(1, p);
                if buf[0] == 43 {
                    line_text(h, false, p + 2)
                } else if buf[0] == 45 {
                    line_text(h, true, p + 2)
                } else if buf[0] == 58 {
                    match decimal(h) {
                        Some(n) => Decoding::Complete(Wire::Int(n), (p + 2) as nat),
                        None => Decoding::Malformed,
                    }
                } else if buf[0] == 36 {
                    decode_bulk(buf, h, p + 2)
                } else {
                    match decimal(h) {
                        Some(n) => if n == -1 {
                            Decoding::Complete(Wire::Nil, (p + 2) as nat)
                        } else if n < 0 {
                            Decoding::Malformed
                        } else {
                            decode_items(buf, p + 2, n as nat)
                        },
                        None => Decoding::Malformed,
                    }
                }
            },
        }
    }
}

/// The first `k` values after `start`, as a list that ends at the returned
/// position of `buf`.
pub open spec fn decode_items(buf: Seq<u8>, start: int, k: nat) -> Decoding
    decreases buf.len(), 0int, k,
{
    if k == 0 {
        Decoding::Complete(Wire::List(Seq::empty()), start as nat)
    } else {
        match decode_items(buf, start, (k - 1) as nat) {
            Decoding::Complete(Wire::List(items), at) => if 0 < at <= buf.len() {
                match decode(buf.subrange(at as int, buf.len() as int)) {
                    Decoding::Complete(w, m) => Decoding::Complete(
                        Wire::List(items.push(w)),
                        at + m,
                    ),
                    Decoding::Incomplete => Decoding::Incomplete,
                    Decoding::Malformed => Decoding::Malformed,
                }
            } else {
                Decoding::Malformed
            },
            Decoding::Complete(_, _) => Decoding::Malformed,
            Decoding::Incomplete => Decoding::Incomplete,
            Decoding::Malformed => Decoding::Malformed,
        }
    }
}

/// The bytes of `buf` from `start` on.
pub open spec fn rest(buf: Seq<u8>, start: int) -> Seq<u8> {
    buf.subrange(start, buf.len() as int)
}

/// Once the items of a list stop decoding, no later item changes that.
pub(crate) proof fn lemma_items_stuck(buf: Seq<u8>, start: int, k: nat, j: nat)
    requires
        k <= j,
        !(decode_items(buf, start, k) is Complete),
    ensures
        decode_items(buf, start, j) == decode_items(buf, start, k),
    decreases j,
{
    if j > k {
        lemma_items_stuck(buf, start, k, (j - 1) as nat);
    }
}

/// The models of a run grow with the run.
proof fn lemma_views_push(xs: Seq<RespValue>, v: RespValue)
    ensures
        views(xs.push(v)) == views(xs).push(v@),
{
    assert(xs.push(v).drop_last() =~= xs);
}

/// Relies on std::str::from_utf8: it accepts exactly the well-formed UTF-8
/// byte strings, and reads them as the text they encode.
#[verifier::external_body]
pub(crate) fn utf8_text(b: &[u8]) -> (r: Option<&str>)
    ensures
        r is Some <==> valid_utf8(b@),
        r matches Some(t) ==> t@ == decode_utf8(b@),
{
    std::str::from_utf8(b).ok()
}

/// Appends `b` to `out`.
fn push_bytes(out: &mut Vec<u8>, b: &[u8])
    ensures
        final(out)@ == old(out)@ + b@,
{
    let mut i: usize = 0;
    while i < b.len()
        invariant
            i <= b@.len(),
            out@ == old(out)@ + b@.subrange(0, i as int),
        decreases b@.len() - i,
    {
        out.push(b[i]);
        i = i + 1;
        assert(out@ =~= old(out)@ + b@.subrange(0, i as int));
    }
    assert(b@.subrange(0, i as int) =~= b@);
}

fn push_crlf(out: &mut Vec<u8>)
    ensures
        final(out)@ == old(out)@ + crlf(),
{
    out.push(13);
    out.push(10);
    assert(out@ =~= old(out)@ + crlf());
}

/// Appends the encoding of `v` to `out`.
fn write_value(v: &RespValue, out: &mut Vec<u8>)
    ensures
        final(out)@ == old(out)@ + encode(v@),
    decreases v@,
{
    let ghost start = out@;
    match v {
        RespValue::SimpleString(s) => {
            out.push(43);
            push_bytes(out, s.as_str().as_bytes());
            push_crlf(out);
            assert(out@ =~= start + encode(v@));
        },
        RespValue::Error(s) => {
            out.push(45);
            push_bytes(out, s.as_str().as_bytes());
            push_crlf(out);
            assert(out@ =~= start + encode(v@));
        },
        RespValue::Integer(n) => {
            out.push(58);
            push_decimal(out, *n);
            push_crlf(out);
            assert(out@ =~= start + encode(v@));
        },
        RespValue::BulkString(None) => {
            out.push(36);
            out.push(45);
            out.push(49);
            push_crlf(out);
            assert(out@ =~= start + encode(v@));
        },
        RespValue::BulkString(Some(s)) => {
            let b = s.as_str().as_bytes();
            out.push(36);
            push_digits(out, b.len() as u64);
            push_crlf(out);
            push_bytes(out, b);
            push_crlf(out);
            assert(out@ =~= start + encode(v@));
        },
        RespValue::Array(xs) => {
            let ghost ws = views(xs@);
            proof {
                lemma_views(xs@);
            }
            out.push(42);
            push_digits(out, xs.len() as u64);
            push_crlf(out);
            let ghost head = out@;
            let mut i: usize = 0;
            while i < xs.len()
                invariant
                    i <= xs@.len(),
                    *v == RespValue::Array(*xs),
                    ws == views(xs@),
                    v@ == Wire::List(ws),
                    ws.len() == xs@.len(),
                    out@ == head + encode_items(ws.subrange(0, i as int)),
                decreases xs@.len() - i,
            {
                proof {
                    lemma_views(xs@);
                    assert(decreases_to!(v@ => v@->List_0));
                    assert(decreases_to!(v@->List_0 => v@->List_0[i as int]));
                    assert(decreases_to!(v@ => ws[i as int]));
                }
                write_value(&xs[i], out);
                let ghost next = ws.subrange(0, i + 1);
                assert(next.drop_last() =~= ws.subrange(0, i as int));
                i = i + 1;
                assert(out@ =~= head + encode_items(ws.subrange(0, i as int)));
            }
            assert(ws.subrange(0, i as int) =~= ws);
            assert(out@ =~= start + encode(v@));
        },
        RespValue::Null => {
            out.push(95);
            push_crlf(out);
            assert(out@ =~= start + encode(v@));
        },
    }
}

/// The position of the CR that ends the line starting at `start`, when an LF
/// follows it.
fn find_header_end(buf: &[u8], start: usize) -> (r: Option<usize>)
    requires
        start < buf@.len(),
        buf@[start as int] != 13,
    ensures
        r matches Some(p) ==> start < p && header_end(rest(buf@, start as int)) == Some(p - start),
        r is None ==> header_end(rest(buf@, start as int)) is None,
{
    let ghost sub = rest(buf@, start as int);
    let mut i: usize = start;
    while i < buf.len()
        invariant
            start <= i <= buf@.len(),
            sub == rest(buf@, start as int),
            line_end(sub, 0) == line_end(sub, i - start),
            buf@[start as int] != 13,
        decreases buf@.len() - i,
    {
        assert(sub[i - start] == buf@[i as int]);
        if buf[i] == 13 {
            assert(line_end(sub, i - start) == Some(i - start));
            if i + 1 < buf.len() && buf[i + 1] == 10 {
                assert(sub[i - start + 1] == buf@[i + 1]);
                return Some(i);
            }
            return None;
        }
        assert(line_end(sub, i - start) == line_end(sub, i - start + 1));
        i = i + 1;
    }
    assert(line_end(sub, i - start) is None);
    None
}

/// Decodes a bulk string whose header line starts at `start` and ends with
/// the CR at `p`.
#[verifier::rlimit(40)]
fn decode_bulk_at(buf: &[u8], start: usize, p: usize) -> (r: Outcome)
    requires
        start < p,
        p + 1 < buf@.len(),
    ensures
        r@ == decode_bulk(
            rest(buf@, start as int),
            rest(buf@, start as int).subrange(1, p - start),
            p - start + 2,
        ),
        r matches Outcome::Complete(_, n) ==> 0 < n <= buf@.len() - start,
{
    let ghost sub = rest(buf@, start as int);
    let ghost h = sub.subrange(1, p - start);
    assert(h =~= buf@.subrange(start + 1, p as int));
    let len = buf.len();
    let next = p + 2;
    if p - start == 3 && buf[start + 1] == 45 && buf[start + 2] == 49 {
        assert(h =~= seq![45u8, 49u8]);
        return Outcome::Complete(RespValue::Null, next - start);
    }
    assert(h != seq![45u8, 49u8]) by {
        if h == seq![45u8, 49u8] {
            assert(h[0] == buf@[start + 1] && h[1] == buf@[start + 2]);
        }
    }
    match parse_unsigned(buf, start + 1, p) {
        Some(n) => {
            let remaining: usize = buf.len() - next;
            if remaining < 2 || ((remaining - 2) as u64) < n {
                return Outcome::Incomplete;
            }
            let end: usize = next + n as usize;
            assert(sub[end - start] == buf@[end as int]);
            assert(sub[end - start + 1] == buf@[end + 1]);
            if buf[end] == 13 && buf[end + 1] == 10 {
                let payload = slice_subrange(buf, next, end);
                assert(payload@ =~= sub.subrange(next - start, end - start));
                match utf8_text(payload) {
                    Some(t) => Outcome::Complete(
                        RespValue::BulkString(Some(t.to_owned())),
                        end + 2 - start,
                    ),
                    None => Outcome::Malformed,
                }
            } else {
                Outcome::Incomplete
            }
        },
        None => Outcome::Malformed,
    }
}

/// Decodes `count` values one after the other from `next` on, as the items of
/// a list whose header starts at `start`.
fn decode_items_at(buf: &[u8], start: usize, next: usize, count: u64) -> (r: Outcome)
    requires
        start < next <= buf@.len(),
    ensures
        r@ == decode_items(rest(buf@, start as int), next - start, count as nat),
        r matches Outcome::Complete(_, n) ==> 0 < n <= buf@.len() - start,
    decreases buf@.len() - start, 0int,
{
    let ghost sub = rest(buf@, start as int);
    let len = buf.len();
    let mut items: Vec<RespValue> = Vec::new();
    let mut at: usize = next;
    let mut k: u64 = 0;
    while k < count
        invariant
            start < next <= at <= buf@.len(),
            len == buf@.len(),
            k <= count,
            sub == rest(buf@, start as int),
            decode_items(sub, next - start, k as nat) == Decoding::Complete(
                Wire::List(views(items@)),
                (at - start) as nat,
            ),
        decreases count - k,
    {
        let r = decode_at(buf, at);
        assert(sub.subrange(at - start, sub.len() as int) =~= rest(buf@, at as int));
        assert(decode_items(sub, next - start, (k + 1) as nat) == match decode(
            rest(buf@, at as int),
        ) {
            Decoding::Complete(w, m) => Decoding::Complete(
                Wire::List(views(items@).push(w)),
                ((at - start) + m) as nat,
            ),
            Decoding::Incomplete => Decoding::Incomplete,
            Decoding::Malformed => Decoding::Malformed,
        });
        match r {
            Outcome::Complete(v, m) => {
                proof {
                    lemma_views_push(items@, v);
                }
                items.push(v);
                at = at + m;
                k = k + 1;
            },
            Outcome::Incomplete => {
                proof {
                    lemma_items_stuck(sub, next - start, (k + 1) as nat, count as nat);
                }
                return Outcome::Incomplete;
            },
            Outcome::Malformed => {
                proof {
                    lemma_items_stuck(sub, next - start, (k + 1) as nat, count as nat);
                }
                return Outcome::Malformed;
            },
        }
    }
    Outcome::Complete(RespValue::Array(items), at - start)
}

/// Decodes the first value in `buf` from `start` on.
fn decode_at(buf: &[u8], start: usize) -> (r: Outcome)
    requires
        start <= buf@.len(),
    ensures
        r@ == decode(rest(buf@, start as int)),
        r matches Outcome::Complete(_, n) ==> 0 < n <= buf@.len() - start,
    decreases buf@.len() - start, 1int,
{
    let ghost sub = rest(buf@, start as int);
    if start == buf.len() {
        return Outcome::Incomplete;
    }
    let tag = buf[start];
    assert(sub[0] == tag);
    if tag == 95 {
        if buf.len() - start == 3 && buf[start + 1] == 13 && buf[start + 2] == 10 {
            assert(sub =~= seq![95u8, 13u8, 10u8]);
            return Outcome::Complete(RespValue::Null, 3);
        }
        assert(sub != seq![95u8, 13u8, 10u8]) by {
            if sub == seq![95u8, 13u8, 10u8] {
                assert(sub[1] == buf@[start + 1] && sub[2] == buf@[start + 2]);
            }
        }
        return Outcome::Incomplete;
    }
    if !(tag == 43 || tag == 45 || tag == 58 || tag == 36 || tag == 42) {
        return Outcome::Malformed;
    }
    match find_header_end(buf, start) {
        None => Outcome::Incomplete,
        Some(p) => {
            let ghost h = sub.subrange(1, p - start);
            assert(h =~= buf@.subrange(start + 1, p as int));
            assert(sub[p - start + 1] == buf@[p + 1]);
            let next = p + 2;
            if tag == 43 || tag == 45 {
                let line = slice_subrange(buf, start + 1, p);
                match utf8_text(line) {
                    Some(t) => if tag == 43 {
                        Outcome::Complete(RespValue::SimpleString(t.to_owned()), next - start)
                    } else {
                        Outcome::Complete(RespValue::Error(t.to_owned()), next - start)
                    },
                    None => Outcome::Malformed,
                }
            } else if tag == 58 {
                match parse_decimal(buf, start + 1, p) {
                    Some(n) => Outcome::Complete(RespValue::Integer(n), next - start),
                    None => Outcome::Malformed,
                }
            } else if tag == 36 {
                decode_bulk_at(buf, start, p)
            } else {
                match parse_decimal(buf, start + 1, p) {
                    Some(n) => if n == -1 {
                        Outcome::Complete(RespValue::Null, next - start)
                    } else if n < 0 {
                        Outcome::Malformed
                    } else {
                        decode_items_at(buf, start, next, n as u64)
                    },
                    None => Outcome::Malformed,
                }
            }
        },
    }
}

/// Why a buffer did not yield a value.
#[derive(Debug, PartialEq, Eq, Clone, Copy)]
pub enum RespError {
    /// The bytes can never form a value: the stream must be abandoned.
    Malformed,
    /// The bytes stop before the value does.
    Incomplete,
    /// The reply did not fit the read window.
    Oversized,
}

/// Entry points of the codec.
pub struct RespParser;

impl RespParser {
    /// Decodes the value at the start of `buf`, without consuming anything.
    pub fn decode(buf: &[u8]) -> (r: Outcome)
        ensures
            r@ == decode(buf@),
            r matches Outcome::Complete(_, n) ==> 0 < n <= buf@.len(),
    {
        assert(rest(buf@, 0) =~= buf@);
        decode_at(buf, 0)
    }

    /// Takes the value at the start of `buf` off it. When the bytes there are
    /// only the start of a value, or can never form one, `buf` is left as it was.
    pub fn parse(buf: &mut BytesMut) -> (r: Result<Option<RespValue>, RespError>)
        ensures
            decode(buffered(*old(buf))) matches Decoding::Complete(w, n) ==> {
                &&& r matches Ok(Some(v))
                &&& v@ == w
                &&& buffered(*final(buf)) == rest(buffered(*old(buf)), n as int)
            },
            decode(buffered(*old(buf))) is Incomplete ==> r == Ok::<Option<RespValue>, RespError>(
                None,
            ) && *final(buf) == *old(buf),
            decode(buffered(*old(buf))) is Malformed ==> r == Err::<Option<RespValue>, RespError>(
                RespError::Malformed,
            ) && *final(buf) == *old(buf),
    {
        let outcome = RespParser::decode(held_bytes(buf));
        match outcome {
            Outcome::Complete(v, n) => {
                drop_front(buf, n);
                Ok(Some(v))
            },
            Outcome::Incomplete => Ok(None),
            Outcome::Malformed => Err(RespError::Malformed),
        }
    }

    /// The bytes of `response` on the wire.
    pub fn serializer(response: RespValue) -> (r: Vec<u8>)
        ensures
            r@ == encode(response@),
    {
        let mut out: Vec<u8> = Vec::new();
        write_value(&response, &mut out);
        assert(out@ =~= encode(response@));
        out
    }
}

} // verus!
