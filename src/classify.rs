//! The response classifier: turns what was observed of one HTTP exchange
//! into a `ResponseInfo`, checking the body for required substrings and
//! collecting configured header values.
use crate::response_info::{ResponseInfo, Status};
use vstd::prelude::*;

verus! {

/// What the driver observed of one exchange.
pub enum Exchange {
    /// The transport failed (connection, timeout, ...): its error text.
    TransportError(String),
    /// A response came.
    Response {
        /// For each configured collect name, in order, that header's value
        /// (empty when absent or not visible ASCII).
        collected_values: Vec<String>,
        /// The value of the latency header, when one is configured.
        latency_value: Option<String>,
        /// The body as text, when a content check is configured; none when
        /// it could not be read.
        body: Option<String>,
    },
}

/// `pat` occurs in `text`.
pub open spec fn occurs_in(pat: Seq<char>, text: Seq<char>) -> bool {
    exists|i: int| 0 <= i <= text.len() - pat.len() && #[trigger] text.subrange(i, i + pat.len()) == pat
}

/// The decimal value of a string of ASCII digits.
pub open spec fn digits_value(s: Seq<char>) -> nat
    decreases s.len(),
{
    if s.len() == 0 {
        0
    } else {
        digits_value(s.drop_last()) * 10 + (s.last() as u32 - '0' as u32) as nat
    }
}

pub open spec fn all_digits(s: Seq<char>) -> bool {
    forall|i: int| 0 <= i < s.len() ==> '0' <= #[trigger] s[i] <= '9'
}

/// An unsigned 64-bit integer as std reads it: an optional `+`, then one or
/// more ASCII digits, with a value that fits.
pub open spec fn parsed_u64(s: Seq<char>) -> Option<u64> {
    let d = if s.len() > 0 && s[0] == '+' {
        s.drop_first()
    } else {
        s
    };
    if d.len() > 0 && all_digits(d) && digits_value(d) <= u64::MAX {
        Some(digits_value(d) as u64)
    } else {
        None
    }
}

/// The server latency in milliseconds that a header value gives; zero where
/// it is not an integer.
pub open spec fn latency_ms(s: Seq<char>) -> u64 {
    match parsed_u64(s) {
        Some(n) => n,
        None => 0,
    }
}

/// The required items that do not occur in `text`, in order.
pub open spec fn missing(items: Seq<Seq<char>>, text: Seq<char>) -> Seq<Seq<char>>
    decreases items.len(),
{
    if items.len() == 0 {
        items
    } else if occurs_in(items.last(), text) {
        missing(items.drop_last(), text)
    } else {
        missing(items.drop_last(), text).push(items.last())
    }
}

/// The items separated by `", "`.
pub open spec fn joined(items: Seq<Seq<char>>) -> Seq<char>
    decreases items.len(),
{
    if items.len() == 0 {
        Seq::empty()
    } else if items.len() == 1 {
        items[0]
    } else {
        joined(items.drop_last()) + ", "@ + items.last()
    }
}

/// The failure reason that names the missing items.
pub open spec fn missing_reason_text(items: Seq<Seq<char>>) -> Seq<char> {
    "Missing values: ["@ + joined(items) + "]"@
}

/// The failure reason of a body that could not be read as text.
pub open spec fn unreadable_reason() -> Seq<char> {
    "text content unavailable"@
}

pub open spec fn strings_view(v: Seq<String>) -> Seq<Seq<char>> {
    v.map_values(|s: String| s@)
}

pub open spec fn pairs_view(v: Seq<(String, String)>) -> Seq<(Seq<char>, Seq<char>)> {
    v.map_values(|p: (String, String)| (p.0@, p.1@))
}

/// The map that a list of name / value pairs gives, a later pair winning.
pub open spec fn pairs_map(p: Seq<(Seq<char>, Seq<char>)>) -> Map<Seq<char>, Seq<char>>
    decreases p.len(),
{
    if p.len() == 0 {
        Map::empty()
    } else {
        pairs_map(p.drop_last()).insert(p.last().0, p.last().1)
    }
}

/// No name occurs twice.
pub open spec fn keys_unique(p: Seq<(Seq<char>, Seq<char>)>) -> bool {
    forall|i: int, j: int| 0 <= i < j < p.len() ==> p[i].0 != p[j].0
}

/// The map of each configured name to its value, a later name winning.
pub open spec fn collected_map(names: Seq<Seq<char>>, values: Seq<Seq<char>>) -> Map<
    Seq<char>,
    Seq<char>,
>
    decreases names.len(),
{
    if names.len() == 0 || values.len() == 0 {
        Map::empty()
    } else {
        collected_map(names.drop_last(), values.drop_last()).insert(names.last(), values.last())
    }
}

/// Relies on `str::contains`: whether `pat` matches a sub-slice of `text`.
#[verifier::external_body]
fn contains(text: &str, pat: &str) -> (r: bool)
    ensures
        r == occurs_in(pat@, text@),
{
    text.contains(pat)
}

/// Relies on `str::parse::<u64>`: an optional `+` and decimal digits whose
/// value fits, else an error.
#[verifier::external_body]
fn parse_u64(s: &str) -> (r: Option<u64>)
    ensures
        r == parsed_u64(s@),
{
    s.parse::<u64>().ok()
}

/// The server latency, in milliseconds, that a header value reports.
pub fn parse_latency(value: &str) -> (r: u64)
    ensures
        r == latency_ms(value@),
{
    match parse_u64(value) {
        Some(n) => n,
        None => 0,
    }
}

/// The items of `check_for` that do not occur in `body`, in order.
pub fn missing_values(check_for: &Vec<String>, body: &str) -> (r: Vec<String>)
    ensures
        strings_view(r@) == missing(strings_view(check_for@), body@),
{
    let mut out: Vec<String> = Vec::new();
    let mut i: usize = 0;
    while i < check_for.len()
        invariant
            i <= check_for.len(),
            strings_view(out@) == missing(strings_view(check_for@.subrange(0, i as int)), body@),
        decreases check_for.len() - i,
    {
        let ghost p = check_for@.subrange(0, i as int);
        let ghost q = check_for@.subrange(0, i + 1);
        proof {
            assert(strings_view(q).drop_last() =~= strings_view(p));
            assert(strings_view(q).last() == check_for@[i as int]@);
        }
        if !contains(body, check_for[i].as_str()) {
            let ghost before = out@;
            out.push(check_for[i].clone());
            proof {
                assert(strings_view(out@) =~= strings_view(before).push(check_for@[i as int]@));
            }
        }
        i = i + 1;
    }
    assert(check_for@.subrange(0, i as int) =~= check_for@);
    out
}

/// `"Missing values: [a, b]"` for the items `a` and `b`.
pub fn missing_reason(items: &Vec<String>) -> (r: String)
    ensures
        r@ == missing_reason_text(strings_view(items@)),
{
    let mut out = String::from_str("Missing values: [");
    let mut i: usize = 0;
    while i < items.len()
        invariant
            i <= items.len(),
            out@ == "Missing values: ["@ + joined(strings_view(items@.subrange(0, i as int))),
        decreases items.len() - i,
    {
        let ghost p = strings_view(items@.subrange(0, i as int));
        let ghost q = strings_view(items@.subrange(0, i + 1));
        proof {
            assert(q.drop_last() =~= p);
            assert(q.last() == items@[i as int]@);
        }
        if i > 0 {
            out.append(", ");
        } else {
            assert(q =~= seq![items@[0]@]);
        }
        out.append(items[i].as_str());
        proof {
            if i > 0 {
                assert(out@ =~= "Missing values: ["@ + joined(q));
            } else {
                assert(out@ =~= "Missing values: ["@ + joined(q));
            }
        }
        i = i + 1;
    }
    out.append("]");
    assert(items@.subrange(0, i as int) =~= items@);
    out
}

proof fn lemma_update_map(p: Seq<(Seq<char>, Seq<char>)>, j: int, k: Seq<char>, v: Seq<char>)
    requires
        keys_unique(p),
        0 <= j < p.len(),
        p[j].0 == k,
    ensures
        pairs_map(p.update(j, (k, v))) == pairs_map(p).insert(k, v),
        keys_unique(p.update(j, (k, v))),
    decreases p.len(),
{
    let q = p.update(j, (k, v));
    if j == p.len() - 1 {
        assert(q.drop_last() =~= p.drop_last());
        assert(pairs_map(q) =~= pairs_map(p).insert(k, v));
    } else {
        assert(q.drop_last() =~= p.drop_last().update(j, (k, v)));
        lemma_update_map(p.drop_last(), j, k, v);
        assert(p.last().0 != k);
        assert(pairs_map(q) =~= pairs_map(p).insert(k, v));
    }
}

/// Collects the configured header values: each name once, with the value of
/// its last occurrence.
pub fn collect_headers(names: &Vec<String>, values: &Vec<String>) -> (r: Vec<(String, String)>)
    requires
        names.len() == values.len(),
    ensures
        keys_unique(pairs_view(r@)),
        pairs_map(pairs_view(r@)) == collected_map(strings_view(names@), strings_view(values@)),
{
    let mut out: Vec<(String, String)> = Vec::new();
    let mut i: usize = 0;
    while i < names.len()
        invariant
            i <= names.len(),
            names.len() == values.len(),
            keys_unique(pairs_view(out@)),
            pairs_map(pairs_view(out@)) == collected_map(
                strings_view(names@.subrange(0, i as int)),
                strings_view(values@.subrange(0, i as int)),
            ),
        decreases names.len() - i,
    {
        proof {
            let pn = strings_view(names@.subrange(0, i as int));
            let pv = strings_view(values@.subrange(0, i as int));
            let qn = strings_view(names@.subrange(0, i + 1));
            let qv = strings_view(values@.subrange(0, i + 1));
            assert(qn.drop_last() =~= pn);
            assert(qv.drop_last() =~= pv);
            assert(qn.last() == names@[i as int]@);
            assert(qv.last() == values@[i as int]@);
        }
        let mut j: usize = 0;
        let mut found = false;
        while j < out.len() && !found
            invariant
                j <= out.len(),
                !found ==> forall|m: int| 0 <= m < j ==> pairs_view(out@)[m].0 != names@[i as int]@,
                found ==> j < out.len() && pairs_view(out@)[j as int].0 == names@[i as int]@,
                i < names.len(),
            decreases out.len() - j + if found { 0int } else { 1int },
        {
            if out[j].0 == names[i] {
                found = true;
            } else {
                j = j + 1;
            }
        }
        let ghost before = pairs_view(out@);
        proof {
            if !found {
                assert(j == out.len());
                assert(forall|m: int| 0 <= m < before.len() ==> before[m].0 != names@[i as int]@);
            }
        }
        let pair = (names[i].clone(), values[i].clone());
        if found {
            out.set(j, pair);
            proof {
                lemma_update_map(before, j as int, names@[i as int]@, values@[i as int]@);
                assert(pairs_view(out@) =~= before.update(
                    j as int,
                    (names@[i as int]@, values@[i as int]@),
                ));
            }
        } else {
            out.push(pair);
            proof {
                assert(pairs_view(out@) =~= before.push((names@[i as int]@, values@[i as int]@)));
                assert(pairs_view(out@).drop_last() =~= before);
                assert forall|a: int, b: int|
                    0 <= a < b < pairs_view(out@).len() implies pairs_view(out@)[a].0 != pairs_view(
                    out@,
                )[b].0 by {
                    if b == before.len() {
                        assert(pairs_view(out@)[a] == before[a]);
                        assert(before[a].0 != names@[i as int]@);
                        assert(pairs_view(out@)[b].0 == names@[i as int]@);
                    } else {
                        assert(pairs_view(out@)[a] == before[a]);
                        assert(pairs_view(out@)[b] == before[b]);
                    }
                }
            }
        }
        i = i + 1;
    }
    assert(names@.subrange(0, i as int) =~= names@);
    assert(values@.subrange(0, i as int) =~= values@);
    out
}

/// `None` for a success; the reason for a failure.
pub open spec fn failure_reason(s: Status) -> Option<Seq<char>> {
    match s {
        Status::Success => None,
        Status::Failure { reason } => Some(reason@),
    }
}

/// The verdict on a response that came: with no required items a success;
/// else a failure when the body could not be read or lacks some item.
pub open spec fn content_verdict(check_for: Option<Seq<Seq<char>>>, body: Option<Seq<char>>) -> Option<
    Seq<char>,
> {
    match check_for {
        None => None,
        Some(items) => match body {
            None => Some(unreadable_reason()),
            Some(text) => if missing(items, text).len() == 0 {
                None
            } else {
                Some(missing_reason_text(missing(items, text)))
            },
        },
    }
}

pub open spec fn option_strings_view(o: Option<Vec<String>>) -> Option<Seq<Seq<char>>> {
    match o {
        Some(v) => Some(strings_view(v@)),
        None => None,
    }
}

pub open spec fn option_view(o: Option<String>) -> Option<Seq<char>> {
    match o {
        Some(v) => Some(v@),
        None => None,
    }
}

/// The configured collect names, none standing for an empty list.
pub open spec fn names_of(collect: Option<Vec<String>>) -> Seq<Seq<char>> {
    match collect {
        Some(v) => strings_view(v@),
        None => Seq::empty(),
    }
}

/// Classifies one exchange that took `time` nanoseconds, against the test's
/// required body items, header names to collect and latency header.
pub fn classify(
    time: u64,
    exchange: Exchange,
    check_for: &Option<Vec<String>>,
    collect: &Option<Vec<String>>,
    latency_header: &Option<String>,
) -> (r: ResponseInfo)
    requires
        exchange is Response ==> exchange->collected_values@.len() == names_of(*collect).len(),
    ensures
        r.time == time,
        match exchange {
            Exchange::TransportError(e) => {
                &&& failure_reason(r.status) == Some(e@)
                &&& r.server_latency is None
                &&& r.collected@.len() == 0
            },
            Exchange::Response { collected_values, latency_value, body } => {
                &&& failure_reason(r.status) == content_verdict(
                    option_strings_view(*check_for),
                    option_view(body),
                )
                &&& r.server_latency == match latency_header {
                    Some(_) => Some(
                        latency_ms(
                            match latency_value {
                                Some(v) => v@,
                                None => Seq::empty(),
                            },
                        ),
                    ),
                    None => None,
                }
                &&& keys_unique(pairs_view(r.collected@))
                &&& pairs_map(pairs_view(r.collected@)) == collected_map(
                    names_of(*collect),
                    strings_view(collected_values@),
                )
            },
        },
{
    match exchange {
        Exchange::TransportError(e) => ResponseInfo::error(time, e, None, None),
        Exchange::Response { collected_values, latency_value, body } => {
            let collected = match collect {
                Some(names) => collect_headers(names, &collected_values),
                None => {
                    proof {
                        assert(collected_values@.len() == 0);
                        assert(strings_view(collected_values@) =~= Seq::empty());
                    }
                    let empty: Vec<(String, String)> = Vec::new();
                    proof {
                        assert(pairs_view(empty@) =~= Seq::empty());
                    }
                    empty
                },
            };
            let server_latency = match latency_header {
                Some(_) => match latency_value {
                    Some(v) => Some(parse_latency(v.as_str())),
                    None => {
                        proof {
                            reveal_strlit("");
                        }
                        Some(parse_latency(""))
                    },
                },
                None => None,
            };
            match check_for {
                None => ResponseInfo::success(time, server_latency, collected),
                Some(items) => match body {
                    None => ResponseInfo::error(
                        time,
                        String::from_str("text content unavailable"),
                        server_latency,
                        Some(collected),
                    ),
                    Some(text) => {
                        let absent = missing_values(items, text.as_str());
                        if absent.len() == 0 {
                            ResponseInfo::success(time, server_latency, collected)
                        } else {
                            let reason = missing_reason(&absent);
                            ResponseInfo::error(time, reason, server_latency, Some(collected))
                        }
                    },
                },
            }
        },
    }
}

} // verus!
