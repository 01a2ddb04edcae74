//! What holds of the codec as a whole: encoding then decoding gives the value
//! back, a value cut short never reads as anything but incomplete, and a
//! buffer that starts with an unknown byte is rejected.
use vstd::prelude::*;
use vstd::utf8::*;
use crate::number::{
    int_text, is_digit, lemma_decimal_int_text, lemma_nat_text, lemma_unsigned_nat_text, nat_text,
};
use crate::client::{READ_WINDOW, reply};
use crate::resp::{
    Decoding, RespError, RespValue, Wire, crlf, decode, decode_items, encode, encode_items, header_end,
    is_discriminator, lemma_items_stuck, line_end,
};

verus! {

broadcast use {encode_utf8_valid_utf8, encode_utf8_decode_utf8};

/// Whether `s` holds no CR byte.
pub open spec fn no_cr(s: Seq<u8>) -> bool {
    forall|i: int| 0 <= i < s.len() ==> #[trigger] s[i] != 13
}

/// Whether the encoding of `w` reads back as `w`, where `last` says that no
/// byte follows it. Status and error text must hold no CR, since a CR ends
/// the line; integers and list lengths must fit a signed 64-bit integer and
/// bulk lengths an unsigned one; an absent bulk string reads back as the null
/// value; and the null value is read only from a buffer that holds it alone.
pub open spec fn round_trips(w: Wire, last: bool) -> bool
    decreases w,
{
    match w {
        Wire::Status(t) => no_cr(encode_utf8(t)),
        Wire::Failure(t) => no_cr(encode_utf8(t)),
        Wire::Int(n) => i64::MIN <= n <= i64::MAX,
        Wire::Bulk(Some(t)) => encode_utf8(t).len() <= u64::MAX,
        Wire::Bulk(None) => false,
        Wire::List(xs) => xs.len() <= i64::MAX && forall|i: int|
            0 <= i < xs.len() ==> round_trips(#[trigger] xs[i], last && i == xs.len() - 1),
        Wire::Nil => last,
    }
}

/// The first CR at or after `i` is at `j`, or there is none when `j` is
/// the buffer's end.
proof fn lemma_line_end(buf: Seq<u8>, i: int, j: int)
    requires
        0 <= i <= j <= buf.len(),
        forall|m: int| i <= m < j ==> #[trigger] buf[m] != 13,
        j < buf.len() ==> buf[j] == 13,
    ensures
        line_end(buf, i) == (if j < buf.len() {
            Some(j)
        } else {
            None::<int>
        }),
    decreases j - i,
{
    if i < j {
        lemma_line_end(buf, i + 1, j);
    }
}

/// The digits of a number hold no CR.
proof fn lemma_nat_text_no_cr(n: nat)
    ensures
        no_cr(nat_text(n)),
        nat_text(n).len() > 0,
        is_digit(nat_text(n)[0]),
{
    lemma_nat_text(n);
    let t = nat_text(n);
    assert forall|i: int| 0 <= i < t.len() implies #[trigger] t[i] != 13 by {
        assert(is_digit(t[i]));
    }
}

/// The text of an integer holds no CR.
proof fn lemma_int_text_no_cr(n: int)
    ensures
        no_cr(int_text(n)),
{
    if n < 0 {
        lemma_nat_text_no_cr((-n) as nat);
        let t = int_text(n);
        assert forall|i: int| 0 <= i < t.len() implies #[trigger] t[i] != 13 by {
            if i > 0 {
                assert(t[i] == nat_text((-n) as nat)[i - 1]);
            }
        }
    } else {
        lemma_nat_text_no_cr(n as nat);
    }
}

/// The first line of `buf` is `buf[0]`, then `h`, then CR LF.
proof fn lemma_header(buf: Seq<u8>, h: Seq<u8>)
    requires
        buf.len() >= h.len() as int + 3,
        no_cr(h),
        buf.subrange(1, h.len() as int + 1) == h,
        buf[h.len() as int + 1] == 13,
        buf[h.len() as int + 2] == 10,
        buf[0] != 13,
    ensures
        header_end(buf) == Some(h.len() as int + 1),
{
    assert forall|m: int| 0 <= m < h.len() as int + 1 implies #[trigger] buf[m] != 13 by {
        if m > 0 {
            assert(buf[m] == h[m - 1]);
        }
    }
    lemma_line_end(buf, 0, h.len() as int + 1);
}

/// The bytes of two runs of values, one after the other.
proof fn lemma_encode_items_append(a: Seq<Wire>, b: Seq<Wire>)
    ensures
        encode_items(a + b) == encode_items(a) + encode_items(b),
    decreases b.len(),
{
    if b.len() == 0 {
        assert(a + b =~= a);
        assert(encode_items(a) + encode_items(b) =~= encode_items(a));
    } else {
        lemma_encode_items_append(a, b.drop_last());
        assert((a + b).drop_last() =~= a + b.drop_last());
        assert((a + b).last() == b.last());
        assert(encode_items(a + b) =~= encode_items(a) + encode_items(b));
    }
}

/// The bytes of a run of one value are the value's bytes.
proof fn lemma_encode_one(x: Wire)
    ensures
        encode_items(seq![x]) == encode(x),
{
    let one = seq![x];
    assert(one.drop_last() =~= Seq::<Wire>::empty());
    assert(encode_items(one.drop_last()) == Seq::<u8>::empty());
    assert(one.last() == x);
    assert(encode_items(one) =~= encode(x));
}

/// Every encoding starts with the byte that gives its kind.
proof fn lemma_encode_nonempty(w: Wire)
    ensures
        encode(w).len() > 0,
        is_discriminator(encode(w)[0]),
{
}

/// The first `k` items of a list whose items start right after `pre` read
/// back as themselves.
proof fn lemma_items(w: Wire, pre: Seq<u8>, tail: Seq<u8>, k: nat)
    requires
        w is List,
        k <= w->List_0.len(),
        pre.len() > 0,
        round_trips(w, tail.len() == 0),
    ensures
        decode_items(pre + encode_items(w->List_0) + tail, pre.len() as int, k) == Decoding::Complete(
            Wire::List(w->List_0.take(k as int)),
            (pre.len() + encode_items(w->List_0.take(k as int)).len()) as nat,
        ),
    decreases w, 0int, k,
{
    let xs = w->List_0;
    let buf = pre + encode_items(xs) + tail;
    if k == 0 {
        assert(xs.take(0) =~= Seq::<Wire>::empty());
    } else {
        let i = k - 1;
        lemma_items(w, pre, tail, i as nat);
        let before = xs.take(i);
        let after = xs.skip(k as int);
        assert(xs =~= before + seq![xs[i]] + after);
        lemma_encode_items_append(before + seq![xs[i]], after);
        lemma_encode_items_append(before, seq![xs[i]]);
        lemma_encode_one(xs[i]);
        let at = pre.len() + encode_items(before).len() as int;
        let more = encode_items(after) + tail;
        assert(buf.subrange(at, buf.len() as int) =~= encode(xs[i]) + more);
        assert(buf =~= pre + encode_items(before) + encode(xs[i]) + more);
        lemma_encode_nonempty(xs[i]);
        if i < xs.len() - 1 {
            lemma_encode_nonempty(xs[k as int]);
            assert(after[0] == xs[k as int]);
            assert(after =~= seq![after[0]] + after.skip(1));
            lemma_encode_items_append(seq![after[0]], after.skip(1));
            lemma_encode_one(after[0]);
            assert(more.len() > 0);
        } else {
            assert(after =~= Seq::<Wire>::empty());
            assert(more =~= tail);
        }
        assert(round_trips(xs[i], more.len() == 0));
        assert(decreases_to!(w => w->List_0));
        assert(decreases_to!(w->List_0 => w->List_0[i]));
        lemma_decode_encode(xs[i], more);
        assert(xs.take(k as int).drop_last() =~= before);
        assert(xs.take(k as int) =~= before.push(xs[i]));
        lemma_encode_items_append(before, seq![xs[i]]);
        assert(before + seq![xs[i]] =~= xs.take(k as int));
    }
}

/// A value followed by any bytes `tail` reads back as itself, spanning exactly
/// its own bytes and leaving `tail` for what comes next.
pub proof fn lemma_decode_encode(w: Wire, tail: Seq<u8>)
    requires
        round_trips(w, tail.len() == 0),
    ensures
        decode(encode(w) + tail) == Decoding::Complete(w, encode(w).len()),
    decreases w, 1int, 0int,
{
    let buf = encode(w) + tail;
    match w {
        Wire::Status(t) => {
            let e = encode_utf8(t);
            assert(buf.subrange(1, e.len() as int + 1) =~= e);
            lemma_header(buf, e);
        },
        Wire::Failure(t) => {
            let e = encode_utf8(t);
            assert(buf.subrange(1, e.len() as int + 1) =~= e);
            lemma_header(buf, e);
        },
        Wire::Int(n) => {
            let e = int_text(n);
            lemma_int_text_no_cr(n);
            lemma_decimal_int_text(n);
            assert(buf.subrange(1, e.len() as int + 1) =~= e);
            lemma_header(buf, e);
        },
        Wire::Bulk(Some(t)) => {
            let e = encode_utf8(t);
            let h = nat_text(e.len());
            lemma_nat_text_no_cr(e.len());
            lemma_unsigned_nat_text(e.len());
            assert(buf.subrange(1, h.len() as int + 1) =~= h);
            lemma_header(buf, h);
            let next = h.len() as int + 3;
            assert(h != seq![45u8, 49u8]) by {
                if h == seq![45u8, 49u8] {
                    assert(is_digit(h[0]));
                }
            }
            assert(buf.subrange(next, next + e.len()) =~= e);
            assert(buf[next + e.len()] == 13);
            assert(buf[next + e.len() as int + 1] == 10);
        },
        Wire::Bulk(None) => {},
        Wire::List(xs) => {
            let h = nat_text(xs.len());
            lemma_nat_text_no_cr(xs.len());
            lemma_decimal_int_text(xs.len() as int);
            assert(buf.subrange(1, h.len() as int + 1) =~= h);
            lemma_header(buf, h);
            let pre = seq![42u8] + h + crlf();
            assert(buf =~= pre + encode_items(xs) + tail);
            lemma_items(w, pre, tail, xs.len());
            assert(xs.take(xs.len() as int) =~= xs);
        },
        Wire::Nil => {
            assert(tail.len() == 0);
            assert(buf =~= seq![95u8, 13u8, 10u8]);
        },
    }
}

/// Whether `s` holds no CR directly followed by LF.
pub open spec fn no_crlf(s: Seq<u8>) -> bool {
    forall|i: int| 0 <= i < s.len() - 1 ==> !(#[trigger] s[i] == 13 && s[i + 1] == 10)
}

/// Whether no strict prefix of the encoding of `w` can pass for a whole value
/// or be rejected: status and error text hold no CR LF pair, which would end
/// the line early, integers and list lengths fit a signed 64-bit integer, and
/// bulk lengths an unsigned one.
pub open spec fn prefix_safe(w: Wire) -> bool
    decreases w,
{
    match w {
        Wire::Status(t) => no_crlf(encode_utf8(t)),
        Wire::Failure(t) => no_crlf(encode_utf8(t)),
        Wire::Int(n) => i64::MIN <= n <= i64::MAX,
        Wire::Bulk(Some(t)) => encode_utf8(t).len() <= u64::MAX,
        Wire::Bulk(None) => true,
        Wire::List(xs) => xs.len() <= i64::MAX && forall|i: int|
            0 <= i < xs.len() ==> prefix_safe(#[trigger] xs[i]),
        Wire::Nil => true,
    }
}

/// A CR found by the scan is a CR at or after where it started.
proof fn lemma_line_end_found(buf: Seq<u8>, i: int)
    requires
        0 <= i,
    ensures
        line_end(buf, i) matches Some(p) ==> i <= p < buf.len() && buf[p] == 13,
    decreases buf.len() - i,
{
    if i < buf.len() && buf[i] != 13 {
        lemma_line_end_found(buf, i + 1);
    }
}

/// The scan stops at the latest at a CR ahead of it.
proof fn lemma_line_end_at_most(buf: Seq<u8>, i: int, j: int)
    requires
        0 <= i <= j < buf.len(),
        buf[j] == 13,
    ensures
        line_end(buf, i) matches Some(p) && p <= j,
    decreases j - i,
{
    if i < j && buf[i] != 13 {
        lemma_line_end_at_most(buf, i + 1, j);
    }
}

/// A buffer with no CR LF pair has no complete first line.
proof fn lemma_no_line(buf: Seq<u8>)
    requires
        no_crlf(buf),
    ensures
        header_end(buf) is None,
{
    lemma_line_end_found(buf, 0);
    if let Some(p) = line_end(buf, 0) {
        if p + 1 < buf.len() {
            assert(!(buf[p] == 13 && buf[p + 1] == 10));
        }
    }
}

/// The first line of a buffer that stops before the CR LF ending `buf[0]`
/// then `h` is not complete.
proof fn lemma_cut_line(buf: Seq<u8>, h: Seq<u8>)
    requires
        buf.len() <= h.len() as int + 2,
        no_crlf(h),
        buf.len() > 0 ==> buf[0] != 13,
        forall|m: int| 1 <= m < buf.len() && m <= h.len() ==> #[trigger] buf[m] == h[m - 1],
        buf.len() == h.len() as int + 2 ==> buf[h.len() as int + 1] == 13,
    ensures
        header_end(buf) is None,
{
    assert forall|i: int| 0 <= i < buf.len() - 1 implies !(#[trigger] buf[i] == 13 && buf[i + 1]
        == 10) by {
        if i >= 1 && i + 1 <= h.len() {
            assert(buf[i] == h[i - 1] && buf[i + 1] == h[i]);
            assert(!(h[i - 1] == 13 && h[i] == 10));
        }
    }
    lemma_no_line(buf);
}

/// The first line of a status or error whose text holds a CR, but no CR LF
/// pair, never ends.
proof fn lemma_broken_line(buf: Seq<u8>, e: Seq<u8>)
    requires
        buf.len() >= e.len() as int + 3,
        buf.subrange(1, e.len() as int + 1) == e,
        buf[e.len() as int + 1] == 13,
        buf[0] != 13,
        no_crlf(e),
        !no_cr(e),
    ensures
        header_end(buf) is None,
{
    let q = choose|q: int| 0 <= q < e.len() && e[q] == 13;
    assert(buf[q + 1] == e[q]);
    lemma_line_end_at_most(buf, 0, q + 1);
    lemma_line_end_found(buf, 0);
    let p = line_end(buf, 0)->Some_0;
    assert(p >= 1);
    assert(buf[p] == e[p - 1]);
    if p < e.len() {
        assert(buf[p + 1] == e[p]);
        assert(!(e[p - 1] == 13 && e[p] == 10));
    }
}

/// A value followed by `rest` reads either as incomplete or as a value that
/// spans exactly its own bytes.
proof fn lemma_settle(w: Wire, rest: Seq<u8>)
    requires
        prefix_safe(w),
    ensures
        !(decode(encode(w) + rest) is Malformed),
        decode(encode(w) + rest) matches Decoding::Complete(_, n) ==> n == encode(w).len(),
    decreases w, 1int, 0int,
{
    let buf = encode(w) + rest;
    match w {
        Wire::Status(t) => {
            let e = encode_utf8(t);
            assert(buf.subrange(1, e.len() as int + 1) =~= e);
            if no_cr(e) {
                lemma_header(buf, e);
            } else {
                lemma_broken_line(buf, e);
            }
        },
        Wire::Failure(t) => {
            let e = encode_utf8(t);
            assert(buf.subrange(1, e.len() as int + 1) =~= e);
            if no_cr(e) {
                lemma_header(buf, e);
            } else {
                lemma_broken_line(buf, e);
            }
        },
        Wire::Bulk(None) => {
            let h = seq![45u8, 49u8];
            assert(buf.subrange(1, 3) =~= h);
            lemma_header(buf, h);
            assert(buf.subrange(1, 3) == h);
        },
        Wire::List(xs) => {
            let h = nat_text(xs.len());
            lemma_nat_text_no_cr(xs.len());
            lemma_decimal_int_text(xs.len() as int);
            assert(buf.subrange(1, h.len() as int + 1) =~= h);
            lemma_header(buf, h);
            let pre = seq![42u8] + h + crlf();
            assert(buf =~= pre + encode_items(xs) + rest);
            lemma_items_settle(w, pre, rest, xs.len());
            assert(xs.take(xs.len() as int) =~= xs);
        },
        Wire::Nil => {
            if rest.len() == 0 {
                assert(buf =~= seq![95u8, 13u8, 10u8]);
            } else {
                assert(buf.len() != 3);
            }
        },
        _ => {
            assert(round_trips(w, rest.len() == 0));
            lemma_decode_encode(w, rest);
        },
    }
}

/// The first `k` items of a list, whose items start right after `pre`, read
/// either as incomplete or as items that span exactly their own bytes.
proof fn lemma_items_settle(w: Wire, pre: Seq<u8>, tail: Seq<u8>, k: nat)
    requires
        w is List,
        k <= w->List_0.len(),
        pre.len() > 0,
        prefix_safe(w),
    ensures
        !(decode_items(pre + encode_items(w->List_0) + tail, pre.len() as int, k) is Malformed),
        decode_items(pre + encode_items(w->List_0) + tail, pre.len() as int, k) matches
            Decoding::Complete(v, at) ==> v is List && at == pre.len() + encode_items(
            w->List_0.take(k as int),
        ).len(),
    decreases w, 0int, k,
{
    let xs = w->List_0;
    let buf = pre + encode_items(xs) + tail;
    if k == 0 {
        assert(xs.take(0) =~= Seq::<Wire>::empty());
    } else {
        let i = k - 1;
        lemma_items_settle(w, pre, tail, i as nat);
        let before = xs.take(i);
        let after = xs.skip(k as int);
        assert(xs =~= before + seq![xs[i]] + after);
        lemma_encode_items_append(before + seq![xs[i]], after);
        lemma_encode_items_append(before, seq![xs[i]]);
        lemma_encode_one(xs[i]);
        let at = pre.len() + encode_items(before).len() as int;
        let more = encode_items(after) + tail;
        assert(buf.subrange(at, buf.len() as int) =~= encode(xs[i]) + more);
        assert(decreases_to!(w => w->List_0));
        assert(decreases_to!(w->List_0 => w->List_0[i]));
        lemma_settle(xs[i], more);
        assert(xs.take(k as int) =~= before + seq![xs[i]]);
    }
}

/// The item of `xs` whose encoding holds the byte at offset `c`.
proof fn lemma_find_cut(xs: Seq<Wire>, c: int) -> (j: int)
    requires
        0 <= c < encode_items(xs).len(),
    ensures
        0 <= j < xs.len(),
        encode_items(xs.take(j)).len() <= c < encode_items(xs.take(j + 1)).len(),
    decreases xs.len(),
{
    let d = xs.drop_last();
    assert(xs.take(xs.len() - 1) =~= d);
    assert(xs.take(xs.len() as int) =~= xs);
    if c >= encode_items(d).len() {
        (xs.len() - 1) as int
    } else {
        let j = lemma_find_cut(d, c);
        assert(d.take(j) =~= xs.take(j));
        assert(d.take(j + 1) =~= xs.take(j + 1));
        j
    }
}

/// Items of a list cut off after `c` bytes of their encoding, behind the
/// list's header `pre`, read as incomplete.
#[verifier::rlimit(40)]
proof fn lemma_items_cut(w: Wire, pre: Seq<u8>, c: int)
    requires
        w is List,
        prefix_safe(w),
        pre.len() > 0,
        0 <= c < encode_items(w->List_0).len(),
    ensures
        decode_items(pre + encode_items(w->List_0).take(c), pre.len() as int, w->List_0.len())
            == Decoding::Incomplete,
    decreases w, 0int,
{
    let xs = w->List_0;
    let j = lemma_find_cut(xs, c);
    let front = xs.take(j);
    let xj = xs[j];
    let cut = c - encode_items(front).len();
    let tail = encode(xj).take(cut);
    lemma_encode_items_append(front, seq![xj]);
    lemma_encode_one(xj);
    assert(xs.take(j + 1) =~= front + seq![xj]);
    assert(encode_items(xs).take(c) =~= encode_items(front) + tail) by {
        lemma_encode_items_append(xs.take(j + 1), xs.skip(j + 1));
        assert(xs =~= xs.take(j + 1) + xs.skip(j + 1));
    }
    let buf = pre + encode_items(xs).take(c);
    assert(buf =~= pre + encode_items(front) + tail);
    let wf = Wire::List(front);
    assert(prefix_safe(wf)) by {
        assert forall|i: int| 0 <= i < front.len() implies prefix_safe(#[trigger] front[i]) by {
            assert(front[i] == xs[i]);
        }
    }
    lemma_items_settle(wf, pre, tail, j as nat);
    assert(front.take(j) =~= front);
    if decode_items(buf, pre.len() as int, j as nat) is Incomplete {
        lemma_items_stuck(buf, pre.len() as int, j as nat, xs.len());
    } else {
        let at = pre.len() + encode_items(front).len();
        assert(buf.subrange(at as int, buf.len() as int) =~= tail);
        assert(decreases_to!(w => w->List_0));
        assert(decreases_to!(w->List_0 => w->List_0[j]));
        lemma_prefix(xj, cut);
        lemma_items_stuck(buf, pre.len() as int, (j + 1) as nat, xs.len());
    }
}

/// A prefix of a list's encoding shorter than the whole reads as incomplete.
proof fn lemma_prefix_list(w: Wire, k: int)
    requires
        w is List,
        prefix_safe(w),
        0 < k < encode(w).len(),
    ensures
        decode(encode(w).take(k)) == Decoding::Incomplete,
    decreases w, 1int,
{
    let xs = w->List_0;
    let buf = encode(w).take(k);
    let h = nat_text(xs.len());
    lemma_nat_text_no_cr(xs.len());
    if k <= h.len() + 2 {
        lemma_cut_line(buf, h);
    } else {
        lemma_decimal_int_text(xs.len() as int);
        assert(buf.subrange(1, h.len() as int + 1) =~= h);
        lemma_header(buf, h);
        let pre = seq![42u8] + h + crlf();
        assert(encode(w) =~= pre + encode_items(xs));
        let c = k - pre.len();
        assert(buf =~= pre + encode_items(xs).take(c));
        lemma_items_cut(w, pre, c);
    }
}

/// A prefix of an encoding shorter than the whole reads as incomplete.
proof fn lemma_prefix(w: Wire, k: int)
    requires
        prefix_safe(w),
        0 <= k < encode(w).len(),
    ensures
        decode(encode(w).take(k)) == Decoding::Incomplete,
    decreases w, 2int,
{
    let full = encode(w);
    let buf = full.take(k);
    if k == 0 {
        return;
    }
    lemma_encode_nonempty(w);
    match w {
        Wire::Status(t) => {
            lemma_cut_line(buf, encode_utf8(t));
        },
        Wire::Failure(t) => {
            lemma_cut_line(buf, encode_utf8(t));
        },
        Wire::Int(n) => {
            lemma_int_text_no_cr(n);
            lemma_cut_line(buf, int_text(n));
        },
        Wire::Bulk(Some(t)) => {
            let e = encode_utf8(t);
            let h = nat_text(e.len());
            lemma_nat_text_no_cr(e.len());
            if k <= h.len() + 2 {
                lemma_cut_line(buf, h);
            } else {
                lemma_unsigned_nat_text(e.len());
                assert(buf.subrange(1, h.len() as int + 1) =~= h);
                lemma_header(buf, h);
                assert(h != seq![45u8, 49u8]) by {
                    if h == seq![45u8, 49u8] {
                        assert(is_digit(h[0]));
                    }
                }
            }
        },
        Wire::Bulk(None) => {
            lemma_cut_line(buf, seq![45u8, 49u8]);
        },
        Wire::List(_) => {
            lemma_prefix_list(w, k);
        },
        Wire::Nil => {
            assert(buf.len() != 3);
        },
    }
}

/// Every non-empty prefix of an encoding that stops before its end reads as
/// incomplete, never as malformed: more bytes may still complete it.
pub proof fn lemma_prefix_incomplete(v: RespValue, k: int)
    requires
        prefix_safe(v@),
        0 < k < encode(v@).len(),
    ensures
        decode(encode(v@).subrange(0, k)) == Decoding::Incomplete,
{
    lemma_prefix(v@, k);
}

/// A reply longer than the read window, of which one read sees only the
/// window's worth, is reported as oversized, never as a value.
pub proof fn lemma_oversized_reply(v: RespValue, window: Seq<u8>)
    requires
        prefix_safe(v@),
        encode(v@).len() > READ_WINDOW,
        window == encode(v@).subrange(0, READ_WINDOW as int),
    ensures
        reply(window) == Err::<Wire, RespError>(RespError::Oversized),
{
    lemma_prefix(v@, READ_WINDOW as int);
}

/// Encoding a value and decoding the bytes gives the value back, spanning
/// every byte of its encoding.
pub proof fn lemma_round_trip(v: RespValue)
    requires
        round_trips(v@, true),
    ensures
        decode(encode(v@)) == Decoding::Complete(v@, encode(v@).len()),
{
    lemma_decode_encode(v@, Seq::empty());
    assert(encode(v@) + Seq::<u8>::empty() =~= encode(v@));
}

/// A bulk string reads back with exactly its text, whatever characters the
/// text holds.
pub proof fn lemma_bulk_round_trip(s: String)
    requires
        encode_utf8(s@).len() <= u64::MAX,
    ensures
        decode(encode(RespValue::BulkString(Some(s))@)) == Decoding::Complete(
            Wire::Bulk(Some(s@)),
            encode(Wire::Bulk(Some(s@))).len(),
        ),
{
    lemma_round_trip(RespValue::BulkString(Some(s)));
}

/// A list holding a list holding a bulk string reads back as itself, spanning
/// every byte of its encoding.
pub proof fn lemma_nested_round_trip(s: String)
    requires
        encode_utf8(s@).len() <= u64::MAX,
    ensures
        ({
            let w = Wire::List(seq![Wire::List(seq![Wire::Bulk(Some(s@))])]);
            decode(encode(w)) == Decoding::Complete(w, encode(w).len())
        }),
{
    let inner = Wire::List(seq![Wire::Bulk(Some(s@))]);
    let w = Wire::List(seq![inner]);
    assert(round_trips(Wire::Bulk(Some(s@)), true));
    assert(round_trips(inner, true)) by {
        assert(seq![Wire::Bulk(Some(s@))][0] == Wire::Bulk(Some(s@)));
    }
    assert(round_trips(w, true)) by {
        assert(seq![inner][0] == inner);
    }
    lemma_decode_encode(w, Seq::empty());
    assert(encode(w) + Seq::<u8>::empty() =~= encode(w));
}

/// A buffer whose first byte starts no value is rejected, however it goes on.
pub proof fn lemma_unknown_first_byte(buf: Seq<u8>)
    requires
        buf.len() > 0,
        !is_discriminator(buf[0]),
    ensures
        decode(buf) == Decoding::Malformed,
{
}

} // verus!
