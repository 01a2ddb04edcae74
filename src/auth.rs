//! Which sessions a request's cookies name, in the order they must be checked.
use vstd::prelude::*;
use vstd::string::*;
use vstd::utf8::*;
use crate::web::{ascii_lower, bytes_are, lower_bytes};

verus! {

/// What cookie::Cookie::split_parse makes of a `Cookie` header: for each part,
/// in order, its name and its value without surrounding quotes, or nothing
/// where the part does not parse.
pub uninterp spec fn cookies_of(raw: Seq<char>) -> Seq<Option<(Seq<char>, Seq<char>)>>;

/// The texts of a run of parsed cookie parts.
pub open spec fn entry_views(e: Seq<Option<(String, String)>>) -> Seq<
    Option<(Seq<char>, Seq<char>)>,
> {
    Seq::new(
        e.len(),
        |i: int|
            match e[i] {
                Some((n, v)) => Some((n@, v@)),
                None => None,
            },
    )
}

/// The texts of a run of steps.
pub open spec fn step_views(s: Seq<Option<String>>) -> Seq<Option<Seq<char>>> {
    Seq::new(
        s.len(),
        |i: int|
            match s[i] {
                Some(v) => Some(v@),
                None => None,
            },
    )
}

/// Relies on cookie::Cookie::split_parse, with Cookie::name and
/// Cookie::value_trimmed: the parts of a `Cookie` header, which depend on its
/// text alone.
#[verifier::external_body]
fn cookie_entries(raw: &str) -> (r: Vec<Option<(String, String)>>)
    ensures
        entry_views(r@) == cookies_of(raw@),
{
    cookie::Cookie::split_parse(raw).map(
        |c| c.ok().map(|c| (c.name().to_string(), c.value_trimmed().to_string())),
    ).collect()
}

/// The steps of a session check over parsed cookie parts, in order: `None`
/// for a part that did not parse, which ends the check with an error, and
/// the value of each cookie named `key`, a session to look up. Other cookies
/// take no step.
pub open spec fn session_steps(entries: Seq<Option<(Seq<char>, Seq<char>)>>) -> Seq<
    Option<Seq<char>>,
>
    decreases entries.len(),
{
    if entries.len() == 0 {
        Seq::empty()
    } else {
        let before = session_steps(entries.drop_last());
        match entries.last() {
            None => before.push(None),
            Some((name, value)) => if name == "key"@ {
                before.push(Some(value))
            } else {
                before
            },
        }
    }
}

/// The steps of a session check over parsed cookie parts.
pub fn session_steps_of(entries: &Vec<Option<(String, String)>>) -> (r: Vec<Option<String>>)
    ensures
        step_views(r@) == session_steps(entry_views(entries@)),
{
    let ghost all = entry_views(entries@);
    let mut steps: Vec<Option<String>> = Vec::new();
    let mut i: usize = 0;
    while i < entries.len()
        invariant
            i <= entries@.len(),
            all == entry_views(entries@),
            step_views(steps@) == session_steps(all.subrange(0, i as int)),
        decreases entries@.len() - i,
    {
        let ghost before = steps@;
        let ghost part = all.subrange(0, i + 1);
        assert(part.drop_last() =~= all.subrange(0, i as int));
        assert(part.last() == all[i as int]);
        match &entries[i] {
            None => {
                steps.push(None);
                assert(step_views(steps@) =~= step_views(before).push(None));
            },
            Some((name, value)) => {
                if *name == String::from_str("key") {
                    steps.push(Some(value.clone()));
                    assert(step_views(steps@) =~= step_views(before).push(Some(value@)));
                }
            },
        }
        i = i + 1;
    }
    assert(all.subrange(0, i as int) =~= all);
    steps
}

/// The steps of a session check over the `Cookie` header `raw`.
pub fn session_cookie_steps(raw: &str) -> (r: Vec<Option<String>>)
    ensures
        step_views(r@) == session_steps(cookies_of(raw@)),
{
    let entries = cookie_entries(raw);
    session_steps_of(&entries)
}

/// Whether a header name is `Cookie`, in any case of letters.
pub fn is_cookie_header(name: &str) -> (r: bool)
    ensures
        r == (ascii_lower(encode_utf8(name@)) == encode_utf8("cookie"@)),
{
    bytes_are(&lower_bytes(name.as_bytes()), "cookie")
}

} // verus!
