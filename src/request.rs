//! The request builder: a concrete request from a test's request template,
//! with a fresh random id in the `user` query parameter when asked, and the
//! template's malformed headers left out.
use crate::classify::pairs_view;
use crate::configs::{RequestConfig, TargetUrl};
use vstd::prelude::*;
use vstd::utf8::encode_utf8;

verus! {

/// The HTTP method of a built request.
#[derive(Debug, PartialEq, Eq)]
pub enum Method {
    Get,
    Post,
}

/// A request ready to send.
#[derive(Debug)]
pub struct BuiltRequest {
    pub method: Method,
    pub url: TargetUrl,
    pub headers: Vec<(String, String)>,
    pub body: Option<String>,
}

/// The pairs of `p` whose name is not `name`, in order.
pub open spec fn without_key(p: Seq<(Seq<char>, Seq<char>)>, name: Seq<char>) -> Seq<
    (Seq<char>, Seq<char>),
>
    decreases p.len(),
{
    if p.len() == 0 {
        p
    } else if p.last().0 == name {
        without_key(p.drop_last(), name)
    } else {
        without_key(p.drop_last(), name).push(p.last())
    }
}

/// How many pairs of `p` have the name `name`.
pub open spec fn key_count(p: Seq<(Seq<char>, Seq<char>)>, name: Seq<char>) -> nat
    decreases p.len(),
{
    if p.len() == 0 {
        0
    } else {
        key_count(p.drop_last(), name) + if p.last().0 == name {
            1nat
        } else {
            0nat
        }
    }
}

/// A query with the parameter `name` set to `value`: every other pair kept
/// in order, the parameter last.
pub open spec fn with_param(p: Seq<(Seq<char>, Seq<char>)>, name: Seq<char>, value: Seq<char>) -> Seq<
    (Seq<char>, Seq<char>),
> {
    without_key(p, name).push((name, value))
}

/// The query parameter that carries the random id.
pub open spec fn user_param() -> Seq<char> {
    "user"@
}

pub open spec fn is_lower_hex(c: char) -> bool {
    ('0' <= c <= '9') || ('a' <= c <= 'f')
}

/// What a random id looks like: `m-` and 32 lowercase hex digits.
pub open spec fn is_user_id(s: Seq<char>) -> bool {
    &&& s.len() == 34
    &&& s.subrange(0, 2) == "m-"@
    &&& forall|i: int| 2 <= i < 34 ==> is_lower_hex(#[trigger] s[i])
}

/// Whether `http` accepts `s` as a header name.
pub uninterp spec fn header_name_valid(s: Seq<char>) -> bool;

/// A byte that may stand in a header value: visible ASCII, space, tab, or
/// any byte of 128 and above.
pub open spec fn header_value_byte(b: u8) -> bool {
    (b >= 32 && b != 127) || b == 9
}

pub open spec fn header_value_valid(s: Seq<char>) -> bool {
    forall|i: int| 0 <= i < encode_utf8(s).len() ==> header_value_byte(#[trigger] encode_utf8(s)[i])
}

/// The headers of `p` with a valid name and value, in order.
pub open spec fn valid_headers(p: Seq<(Seq<char>, Seq<char>)>) -> Seq<(Seq<char>, Seq<char>)>
    decreases p.len(),
{
    if p.len() == 0 {
        p
    } else if header_name_valid(p.last().0) && header_value_valid(p.last().1) {
        valid_headers(p.drop_last()).push(p.last())
    } else {
        valid_headers(p.drop_last())
    }
}

/// Relies on `uuid::Uuid::new_v4` and its `simple` form: 32 lowercase hex
/// digits of a random version 4 UUID.
#[verifier::external_body]
fn random_uuid() -> (r: String)
    ensures
        r@.len() == 32,
        forall|i: int| 0 <= i < 32 ==> is_lower_hex(#[trigger] r@[i]),
{
    uuid::Uuid::new_v4().simple().to_string()
}

/// Relies on `HeaderName::from_str` of `http` (through reqwest): whether it
/// accepts the name.
#[verifier::external_body]
fn valid_header_name(s: &str) -> (r: bool)
    ensures
        r == header_name_valid(s@),
{
    <reqwest::header::HeaderName as std::str::FromStr>::from_str(s).is_ok()
}

/// Relies on `HeaderValue::from_str` of `http` (through reqwest): it accepts
/// exactly the strings whose every byte is a space, a tab, visible ASCII or
/// 128 and above.
#[verifier::external_body]
fn valid_header_value(s: &str) -> (r: bool)
    ensures
        r == header_value_valid(s@),
{
    reqwest::header::HeaderValue::from_str(s).is_ok()
}

/// A fresh random id: `m-` and 32 lowercase hex digits.
pub fn user_id() -> (r: String)
    ensures
        is_user_id(r@),
{
    let mut id = String::from_str("m-");
    let hex = random_uuid();
    id.append(hex.as_str());
    proof {
        reveal_strlit("m-");
        assert(id@.subrange(0, 2) =~= "m-"@);
        assert forall|i: int| 2 <= i < 34 implies is_lower_hex(#[trigger] id@[i]) by {
            assert(id@[i] == hex@[i - 2]);
        }
    }
    id
}

/// Sets the query parameter `name` to `value`: drops every pair of that
/// name and appends the new one.
pub fn replace_or_append_query_param(query: &mut Vec<(String, String)>, name: &str, value: &str)
    ensures
        pairs_view(final(query)@) == with_param(pairs_view(old(query)@), name@, value@),
{
    let ghost orig = pairs_view(query@);
    let mut kept: Vec<(String, String)> = Vec::new();
    let mut i: usize = 0;
    let name_owned = String::from_str(name);
    while i < query.len()
        invariant
            i <= query.len(),
            orig == pairs_view(query@),
            name_owned@ == name@,
            pairs_view(kept@) == without_key(orig.subrange(0, i as int), name@),
        decreases query.len() - i,
    {
        proof {
            assert(orig.subrange(0, i + 1).drop_last() =~= orig.subrange(0, i as int));
            assert(orig[i as int] == (query@[i as int].0@, query@[i as int].1@));
        }
        if query[i].0 != name_owned {
            let ghost before = kept@;
            kept.push((query[i].0.clone(), query[i].1.clone()));
            proof {
                assert(pairs_view(kept@) =~= pairs_view(before).push(orig[i as int]));
            }
        }
        i = i + 1;
    }
    proof {
        assert(orig.subrange(0, i as int) =~= orig);
    }
    let ghost before = kept@;
    kept.push((name_owned, String::from_str(value)));
    proof {
        assert(pairs_view(kept@) =~= pairs_view(before).push((name@, value@)));
    }
    *query = kept;
}

/// The target of one request: the template's own, or with a fresh random
/// id in its `user` parameter.
pub fn configure_url(rotate_uuids: bool, url: TargetUrl) -> (r: TargetUrl)
    ensures
        r.base == url.base,
        !rotate_uuids ==> r.query@ == url.query@,
        rotate_uuids ==> exists|id: Seq<char>|
            is_user_id(id) && pairs_view(r.query@) == with_param(
                pairs_view(url.query@),
                user_param(),
                id,
            ),
{
    if rotate_uuids {
        let id = user_id();
        let mut url = url;
        proof {
            reveal_strlit("user");
        }
        replace_or_append_query_param(&mut url.query, "user", id.as_str());
        url
    } else {
        url
    }
}

/// The headers of `p` whose flag in `accepted` is set, in order.
pub open spec fn kept(p: Seq<(Seq<char>, Seq<char>)>, accepted: Seq<bool>) -> Seq<(Seq<char>, Seq<char>)>
    decreases p.len(),
{
    if p.len() == 0 || accepted.len() == 0 {
        Seq::empty()
    } else if accepted.last() {
        kept(p.drop_last(), accepted.drop_last()).push(p.last())
    } else {
        kept(p.drop_last(), accepted.drop_last())
    }
}

/// Keeps the headers that were accepted, in order.
pub fn filter_headers(headers: &Vec<(String, String)>, accepted: &Vec<bool>) -> (r: Vec<
    (String, String),
>)
    requires
        accepted.len() == headers.len(),
    ensures
        pairs_view(r@) == kept(pairs_view(headers@), accepted@),
{
    let ghost orig = pairs_view(headers@);
    let mut out: Vec<(String, String)> = Vec::new();
    let mut i: usize = 0;
    while i < headers.len()
        invariant
            i <= headers.len(),
            accepted.len() == headers.len(),
            orig == pairs_view(headers@),
            pairs_view(out@) == kept(orig.subrange(0, i as int), accepted@.subrange(0, i as int)),
        decreases headers.len() - i,
    {
        proof {
            assert(orig.subrange(0, i + 1).drop_last() =~= orig.subrange(0, i as int));
            assert(accepted@.subrange(0, i + 1).drop_last() =~= accepted@.subrange(0, i as int));
            assert(orig[i as int] == (headers@[i as int].0@, headers@[i as int].1@));
        }
        if accepted[i] {
            let ghost before = out@;
            out.push((headers[i].0.clone(), headers[i].1.clone()));
            proof {
                assert(pairs_view(out@) =~= pairs_view(before).push(orig[i as int]));
            }
        }
        i = i + 1;
    }
    proof {
        assert(orig.subrange(0, i as int) =~= orig);
        assert(accepted@.subrange(0, i as int) =~= accepted@);
    }
    out
}

/// Whether `http` accepts each header, in order.
pub open spec fn header_verdicts(p: Seq<(Seq<char>, Seq<char>)>) -> Seq<bool> {
    p.map_values(|h: (Seq<char>, Seq<char>)| header_name_valid(h.0) && header_value_valid(h.1))
}

proof fn lemma_kept_valid(p: Seq<(Seq<char>, Seq<char>)>)
    ensures
        kept(p, header_verdicts(p)) == valid_headers(p),
    decreases p.len(),
{
    if p.len() > 0 {
        assert(header_verdicts(p).drop_last() =~= header_verdicts(p.drop_last()));
        lemma_kept_valid(p.drop_last());
    }
}

/// The headers of the template that `http` accepts, in order.
pub fn to_header_map(headers: &Vec<(String, String)>) -> (r: Vec<(String, String)>)
    ensures
        pairs_view(r@) == valid_headers(pairs_view(headers@)),
{
    let ghost orig = pairs_view(headers@);
    let mut accepted: Vec<bool> = Vec::new();
    let mut i: usize = 0;
    while i < headers.len()
        invariant
            i <= headers.len(),
            orig == pairs_view(headers@),
            accepted@ == header_verdicts(orig).subrange(0, i as int),
        decreases headers.len() - i,
    {
        proof {
            assert(orig[i as int] == (headers@[i as int].0@, headers@[i as int].1@));
        }
        let ok = valid_header_name(headers[i].0.as_str()) && valid_header_value(
            headers[i].1.as_str(),
        );
        accepted.push(ok);
        proof {
            assert(accepted@ =~= header_verdicts(orig).subrange(0, i + 1));
        }
        i = i + 1;
    }
    proof {
        assert(accepted@ =~= header_verdicts(orig));
        lemma_kept_valid(orig);
    }
    filter_headers(headers, &accepted)
}

/// One concrete request from a template: its method and body, its target
/// (with a fresh `user` id when `rotate_uuids` is set), and its valid headers.
pub fn build_request(config: &RequestConfig, rotate_uuids: bool) -> (r: BuiltRequest)
    ensures
        ({
            let (method, url, headers, body) = match *config {
                RequestConfig::Get { url, headers } => (Method::Get, url, headers, None),
                RequestConfig::Post { url, headers, body } => (
                    Method::Post,
                    url,
                    headers,
                    Some(body),
                ),
            };
            &&& r.method == method
            &&& r.body == body
            &&& r.url.base == url.base
            &&& pairs_view(r.headers@) == valid_headers(pairs_view(headers@))
            &&& !rotate_uuids ==> r.url.query@ == url.query@
            &&& rotate_uuids ==> exists|id: Seq<char>|
                is_user_id(id) && pairs_view(r.url.query@) == with_param(
                    pairs_view(url.query@),
                    user_param(),
                    id,
                )
        }),
{
    match config {
        RequestConfig::Get { url, headers } => BuiltRequest {
            method: Method::Get,
            url: configure_url(rotate_uuids, url.clone()),
            headers: to_header_map(headers),
            body: None,
        },
        RequestConfig::Post { url, headers, body } => BuiltRequest {
            method: Method::Post,
            url: configure_url(rotate_uuids, url.clone()),
            headers: to_header_map(headers),
            body: Some(body.clone()),
        },
    }
}

proof fn lemma_without_key_count(p: Seq<(Seq<char>, Seq<char>)>, name: Seq<char>)
    ensures
        key_count(without_key(p, name), name) == 0,
    decreases p.len(),
{
    if p.len() > 0 {
        lemma_without_key_count(p.drop_last(), name);
        let w = without_key(p.drop_last(), name);
        if p.last().0 != name {
            assert(w.push(p.last()).drop_last() =~= w);
        }
    }
}

/// Setting a query parameter leaves exactly one pair of that name, holding
/// the new value: an existing value is replaced, never duplicated.
pub proof fn lemma_param_set_once(
    query: Seq<(Seq<char>, Seq<char>)>,
    name: Seq<char>,
    value: Seq<char>,
)
    ensures
        key_count(with_param(query, name, value), name) == 1,
        with_param(query, name, value).last() == (name, value),
{
    lemma_without_key_count(query, name);
    assert(with_param(query, name, value).drop_last() =~= without_key(query, name));
}

} // verus!
