//! Base-10 integer text as it appears on the wire: an optional sign followed
//! by one or more ASCII digits.
use vstd::prelude::*;

verus! {

/// The largest magnitude a signed 64-bit value can have (that of `i64::MIN`).
pub const MAGNITUDE_LIMIT: u64 = 9223372036854775808;

/// Whether `b` is an ASCII digit.
pub open spec fn is_digit(b: u8) -> bool {
    48 <= b <= 57
}

/// Whether every byte of `d` is an ASCII digit.
pub open spec fn all_digits(d: Seq<u8>) -> bool {
    forall|i: int| 0 <= i < d.len() ==> is_digit(#[trigger] d[i])
}

/// The value of a run of digits, most significant first.
pub open spec fn digits_value(d: Seq<u8>) -> nat
    decreases d.len(),
{
    if d.len() == 0 {
        0
    } else {
        digits_value(d.drop_last()) * 10 + (d.last() - 48) as nat
    }
}

/// The value written by `h`, if `h` is an optional `+` or `-` followed by at
/// least one digit and the value fits a signed 64-bit integer.
pub open spec fn decimal(h: Seq<u8>) -> Option<int> {
    let neg = h.len() > 0 && h[0] == 45;
    let signed = h.len() > 0 && (h[0] == 45 || h[0] == 43);
    let d = if signed { h.drop_first() } else { h };
    if d.len() == 0 || !all_digits(d) {
        None
    } else if neg {
        if digits_value(d) <= MAGNITUDE_LIMIT {
            Some(-digits_value(d))
        } else {
            None
        }
    } else if digits_value(d) < MAGNITUDE_LIMIT {
        Some(digits_value(d) as int)
    } else {
        None
    }
}

/// The value written by `h`, if `h` is an optional `+` followed by at least
/// one digit and the value fits an unsigned 64-bit integer.
pub open spec fn unsigned_decimal(h: Seq<u8>) -> Option<nat> {
    let d = if h.len() > 0 && h[0] == 43 {
        h.drop_first()
    } else {
        h
    };
    if d.len() == 0 || !all_digits(d) || digits_value(d) > u64::MAX {
        None
    } else {
        Some(digits_value(d))
    }
}

/// The shortest digits that write `n`.
pub open spec fn nat_text(n: nat) -> Seq<u8>
    decreases n,
{
    if n < 10 {
        seq![(n + 48) as u8]
    } else {
        nat_text(n / 10).push((n % 10 + 48) as u8)
    }
}

/// `n` in base 10, with a leading `-` when negative.
pub open spec fn int_text(n: int) -> Seq<u8> {
    if n < 0 {
        seq![45u8] + nat_text((-n) as nat)
    } else {
        nat_text(n as nat)
    }
}

/// A run of digits is worth at least as much as any of its prefixes.
proof fn lemma_digits_value_prefix(d: Seq<u8>, k: int)
    requires
        0 <= k <= d.len(),
    ensures
        digits_value(d.subrange(0, k)) <= digits_value(d),
    decreases d.len() - k,
{
    if k < d.len() {
        lemma_digits_value_prefix(d, k + 1);
        let p = d.subrange(0, k + 1);
        assert(p.drop_last() =~= d.subrange(0, k));
    } else {
        assert(d.subrange(0, k) =~= d);
    }
}

/// The text of `n` is a non-empty run of digits worth `n`.
pub proof fn lemma_nat_text(n: nat)
    ensures
        nat_text(n).len() > 0,
        all_digits(nat_text(n)),
        digits_value(nat_text(n)) == n,
    decreases n,
{
    if n >= 10 {
        lemma_nat_text(n / 10);
        let t = nat_text(n);
        assert(t.drop_last() =~= nat_text(n / 10));
        assert(t.last() == (n % 10 + 48) as u8);
        assert(n == (n / 10) * 10 + n % 10) by (nonlinear_arith);
        assert(digits_value(t) == digits_value(nat_text(n / 10)) * 10 + n % 10);
        assert(all_digits(t)) by {
            assert forall|i: int| 0 <= i < t.len() implies is_digit(#[trigger] t[i]) by {
                if i < t.len() - 1 {
                    assert(t[i] == nat_text(n / 10)[i]);
                }
            }
        }
    } else {
        let t = nat_text(n);
        assert(t.drop_last() =~= Seq::<u8>::empty());
        assert(digits_value(t.drop_last()) == 0);
        assert(t.last() == (n + 48) as u8);
    }
}

/// Reading back the text of a signed 64-bit value gives the value.
pub proof fn lemma_decimal_int_text(n: int)
    requires
        i64::MIN <= n <= i64::MAX,
    ensures
        decimal(int_text(n)) == Some(n),
{
    if n < 0 {
        lemma_nat_text((-n) as nat);
        let h = int_text(n);
        assert(h.drop_first() =~= nat_text((-n) as nat));
    } else {
        lemma_nat_text(n as nat);
        let t = nat_text(n as nat);
        assert(t[0] != 45 && t[0] != 43) by {
            assert(is_digit(t[0]));
        }
    }
}

/// Reading back the digits of an unsigned 64-bit value gives the value.
pub proof fn lemma_unsigned_nat_text(n: nat)
    requires
        n <= u64::MAX,
    ensures
        unsigned_decimal(nat_text(n)) == Some(n),
{
    lemma_nat_text(n);
    let t = nat_text(n);
    assert(t[0] != 43) by {
        assert(is_digit(t[0]));
    }
}

/// Reads `h[lo..hi]` as an unsigned 64-bit decimal.
pub fn parse_unsigned(h: &[u8], lo: usize, hi: usize) -> (r: Option<u64>)
    requires
        lo <= hi <= h@.len(),
    ensures
        r matches Some(v) ==> unsigned_decimal(h@.subrange(lo as int, hi as int)) == Some(
            v as nat,
        ),
        r is None ==> unsigned_decimal(h@.subrange(lo as int, hi as int)) is None,
{
    let ghost s = h@.subrange(lo as int, hi as int);
    let mut start: usize = lo;
    if lo < hi && h[lo] == 43 {
        start = lo + 1;
    }
    let ghost d = h@.subrange(start as int, hi as int);
    proof {
        if lo < hi {
            assert(s[0] == h@[lo as int]);
        }
        if start > lo {
            assert(s.drop_first() =~= d);
        } else {
            assert(s =~= d);
        }
    }
    if start == hi {
        return None;
    }
    let mut i: usize = start;
    let mut acc: u64 = 0;
    while i < hi
        invariant
            lo <= start <= i <= hi <= h@.len(),
            d == h@.subrange(start as int, hi as int),
            s == h@.subrange(lo as int, hi as int),
            (start > lo) == (s.len() > 0 && s[0] == 43),
            start > lo ==> s.drop_first() == d,
            start == lo ==> s == d,
            all_digits(d.subrange(0, i - start)),
            acc as nat == digits_value(d.subrange(0, i - start)),
        decreases hi - i,
    {
        let b = h[i];
        if b < 48 || b > 57 {
            assert(d[i - start] == b);
            assert(!is_digit(d[i - start]));
            assert(!all_digits(d));
            return None;
        }
        let digit = (b - 48) as u64;
        let ghost p = d.subrange(0, i - start + 1);
        assert(p.drop_last() =~= d.subrange(0, i - start));
        assert(p.last() == b);
        if acc > (u64::MAX - digit) / 10 {
            proof {
                assert(digits_value(p) > u64::MAX) by (nonlinear_arith)
                    requires
                        acc > (u64::MAX - digit) / 10,
                        digits_value(p) == acc * 10 + digit,
                        digit <= 9,
                ;
                if all_digits(d) {
                    lemma_digits_value_prefix(d, i - start + 1);
                }
            }
            return None;
        }
        assert(acc * 10 + digit <= u64::MAX) by (nonlinear_arith)
            requires
                acc <= (u64::MAX - digit) / 10,
                digit <= 9,
        ;
        acc = acc * 10 + digit;
        i = i + 1;
        assert(all_digits(p)) by {
            assert forall|j: int| 0 <= j < p.len() implies is_digit(#[trigger] p[j]) by {
                if j < p.len() - 1 {
                    assert(p[j] == d.subrange(0, i - 1 - start)[j]);
                }
            }
        }
    }
    assert(d.subrange(0, i - start) =~= d);
    Some(acc)
}

/// Reads `h[lo..hi]` as a signed 64-bit decimal.
pub fn parse_decimal(h: &[u8], lo: usize, hi: usize) -> (r: Option<i64>)
    requires
        lo <= hi <= h@.len(),
    ensures
        r matches Some(v) ==> decimal(h@.subrange(lo as int, hi as int)) == Some(v as int),
        r is None ==> decimal(h@.subrange(lo as int, hi as int)) is None,
{
    let ghost s = h@.subrange(lo as int, hi as int);
    let mut i: usize = lo;
    let mut neg = false;
    if lo < hi && (h[lo] == 45 || h[lo] == 43) {
        neg = h[lo] == 45;
        i = lo + 1;
    }
    let start: usize = i;
    let ghost d = h@.subrange(start as int, hi as int);
    proof {
        if lo < hi {
            assert(s[0] == h@[lo as int]);
        }
        assert(neg == (s.len() > 0 && s[0] == 45));
        assert((start > lo) == (s.len() > 0 && (s[0] == 45 || s[0] == 43)));
        if start > lo {
            assert(s.drop_first() =~= d);
        } else {
            assert(s =~= d);
        }
    }
    if start == hi {
        return None;
    }
    let mut acc: u64 = 0;
    while i < hi
        invariant
            lo <= start <= i <= hi <= h@.len(),
            d == h@.subrange(start as int, hi as int),
            s == h@.subrange(lo as int, hi as int),
            neg == (s.len() > 0 && s[0] == 45),
            (start > lo) == (s.len() > 0 && (s[0] == 45 || s[0] == 43)),
            start > lo ==> s.drop_first() == d,
            start == lo ==> s == d,
            all_digits(d.subrange(0, i - start)),
            acc as nat == digits_value(d.subrange(0, i - start)),
            acc <= MAGNITUDE_LIMIT,
        decreases hi - i,
    {
        let b = h[i];
        if b < 48 || b > 57 {
            assert(d[i - start] == b);
            assert(!is_digit(d[i - start]));
            assert(!all_digits(d));
            return None;
        }
        let digit = (b - 48) as u64;
        let ghost p = d.subrange(0, i - start + 1);
        assert(p.drop_last() =~= d.subrange(0, i - start));
        assert(p.last() == b);
        if acc > (MAGNITUDE_LIMIT - digit) / 10 {
            proof {
                assert(digits_value(p) > MAGNITUDE_LIMIT) by (nonlinear_arith)
                    requires
                        acc > (MAGNITUDE_LIMIT - digit) / 10,
                        digits_value(p) == acc * 10 + digit,
                        digit <= 9,
                ;
                if all_digits(d) {
                    lemma_digits_value_prefix(d, i - start + 1);
                }
            }
            return None;
        }
        assert(acc * 10 + digit <= MAGNITUDE_LIMIT) by (nonlinear_arith)
            requires
                acc <= (MAGNITUDE_LIMIT - digit) / 10,
                digit <= 9,
        ;
        acc = acc * 10 + digit;
        i = i + 1;
        assert(all_digits(p)) by {
            assert forall|j: int| 0 <= j < p.len() implies is_digit(#[trigger] p[j]) by {
                if j < p.len() - 1 {
                    assert(p[j] == d.subrange(0, i - 1 - start)[j]);
                }
            }
        }
    }
    assert(d.subrange(0, i - start) =~= d);
    if neg {
        if acc == MAGNITUDE_LIMIT {
            Some(i64::MIN)
        } else {
            Some(-(acc as i64))
        }
    } else if acc < MAGNITUDE_LIMIT {
        Some(acc as i64)
    } else {
        None
    }
}

/// Appends the digits of `n` to `out`.
pub fn push_digits(out: &mut Vec<u8>, n: u64)
    ensures
        final(out)@ == old(out)@ + nat_text(n as nat),
    decreases n,
{
    if n >= 10 {
        push_digits(out, n / 10);
    }
    out.push((n % 10 + 48) as u8);
    proof {
        if n >= 10 {
            assert(final(out)@ =~= old(out)@ + nat_text(n as nat));
        } else {
            assert(final(out)@ =~= old(out)@ + nat_text(n as nat));
        }
    }
}

/// Appends `n` in base 10 to `out`.
pub fn push_decimal(out: &mut Vec<u8>, n: i64)
    ensures
        final(out)@ == old(out)@ + int_text(n as int),
{
    if n < 0 {
        out.push(45);
        let magnitude: u64 = (-(n + 1)) as u64 + 1;
        push_digits(out, magnitude);
        assert(final(out)@ =~= old(out)@ + int_text(n as int));
    } else {
        push_digits(out, n as u64);
    }
}

} // verus!
