//! The persisted form of a `TestResult`: a self-describing, length-prefixed
//! binary encoding that a reader validates as it goes, and the batch loading
//! that skips files which do not decode.
//!
//! ```text
//! file     = magic name:str total_time:u64 n:u64 response{n}
//! response = time:u64 status latency k:u64 (name:str value:str){k}
//! status   = 0x00 | 0x01 reason:str
//! latency  = 0x00 | 0x01 millis:u64
//! str      = len:u64 utf8-bytes{len}
//! u64      = eight bytes, big-endian
//! ```
use crate::classify::pairs_view;
use crate::response_info::{ResponseInfo, Status};
use crate::test_result::{elapsed_sum, failures, successes, TestResult};
use vstd::prelude::*;
use vstd::utf8::{decode_utf8, encode_utf8, valid_utf8};

verus! {

broadcast use vstd::utf8::encode_utf8_valid_utf8, vstd::utf8::encode_utf8_decode_utf8;

// ---- integers ----
/// The value of big-endian bytes.
pub open spec fn be_value(b: Seq<u8>) -> nat
    decreases b.len(),
{
    if b.len() == 0 {
        0
    } else {
        (be_value(b.drop_last()) * 256 + b.last()) as nat
    }
}

/// The `k` low bytes of `n`, big-endian.
pub open spec fn be_bytes(n: nat, k: nat) -> Seq<u8>
    decreases k,
{
    if k == 0 {
        Seq::empty()
    } else {
        be_bytes(n / 256, (k - 1) as nat).push((n % 256) as u8)
    }
}

pub open spec fn pow256(k: nat) -> nat
    decreases k,
{
    if k == 0 {
        1
    } else {
        256 * pow256((k - 1) as nat)
    }
}

pub open spec fn enc_u64(n: u64) -> Seq<u8> {
    be_bytes(n as nat, 8)
}

proof fn lemma_pow256_8()
    ensures
        pow256(8) == u64::MAX + 1,
{
    reveal_with_fuel(pow256, 9);
}

proof fn lemma_be_round_trip(n: nat, k: nat)
    requires
        n < pow256(k),
    ensures
        be_bytes(n, k).len() == k,
        be_value(be_bytes(n, k)) == n,
    decreases k,
{
    if k > 0 {
        let q = n / 256;
        assert(q < pow256((k - 1) as nat)) by (nonlinear_arith)
            requires
                n < 256 * pow256((k - 1) as nat),
                q == n / 256,
        ;
        lemma_be_round_trip(q, (k - 1) as nat);
        let b = be_bytes(n, k);
        assert(b.drop_last() =~= be_bytes(q, (k - 1) as nat));
        assert(q * 256 + n % 256 == n) by (nonlinear_arith)
            requires
                q == n / 256,
        ;
    }
}

proof fn lemma_be_value_bound(b: Seq<u8>)
    ensures
        be_value(b) < pow256(b.len()),
    decreases b.len(),
{
    if b.len() > 0 {
        lemma_be_value_bound(b.drop_last());
        let v = be_value(b.drop_last());
        let p = pow256((b.len() - 1) as nat);
        assert(v * 256 + b.last() < 256 * p) by (nonlinear_arith)
            requires
                v < p,
                b.last() < 256,
        ;
    }
}

/// The u64 at `pos`, and the position after it.
pub open spec fn parse_u64(b: Seq<u8>, pos: int) -> Option<(u64, int)> {
    if 0 <= pos && pos + 8 <= b.len() {
        Some((be_value(b.subrange(pos, pos + 8)) as u64, pos + 8))
    } else {
        None
    }
}

/// The byte at `pos`, and the position after it.
pub open spec fn parse_byte(b: Seq<u8>, pos: int) -> Option<(u8, int)> {
    if 0 <= pos < b.len() {
        Some((b[pos], pos + 1))
    } else {
        None
    }
}

/// Appends the `k` low bytes of `n`, big-endian.
fn push_be(out: &mut Vec<u8>, n: u64, k: usize)
    requires
        k <= 8,
    ensures
        final(out)@ == old(out)@ + be_bytes(n as nat, k as nat),
    decreases k,
{
    if k > 0 {
        push_be(out, n / 256, k - 1);
        out.push((n % 256) as u8);
        proof {
            assert(be_bytes(n as nat, k as nat) == be_bytes((n / 256) as nat, (k - 1) as nat).push(
                (n % 256) as u8,
            ));
        }
    } else {
        assert(old(out)@ + be_bytes(n as nat, 0) =~= old(out)@);
    }
}

fn push_u64(out: &mut Vec<u8>, n: u64)
    ensures
        final(out)@ == old(out)@ + enc_u64(n),
{
    push_be(out, n, 8);
}

fn read_u64(b: &Vec<u8>, pos: usize) -> (r: Option<(u64, usize)>)
    ensures
        match r {
            Some((v, p)) => parse_u64(b@, pos as int) == Some((v, p as int)),
            None => parse_u64(b@, pos as int) is None,
        },
{
    if pos > b.len() || b.len() - pos < 8 {
        return None;
    }
    let mut v: u64 = 0;
    let mut i: usize = 0;
    while i < 8
        invariant
            i <= 8,
            pos + 8 <= b.len(),
            v == be_value(b@.subrange(pos as int, pos + i)),
        decreases 8 - i,
    {
        proof {
            let s = b@.subrange(pos as int, pos + i + 1);
            assert(s.drop_last() =~= b@.subrange(pos as int, pos + i));
            lemma_be_value_bound(s);
            lemma_pow256_8();
            assert(pow256(s.len()) <= pow256(8)) by {
                lemma_pow256_mono(s.len(), 8);
            }
            assert(v * 256 + b@[pos + i] == be_value(s));
        }
        v = v * 256 + b[pos + i] as u64;
        i = i + 1;
    }
    Some((v, pos + 8))
}

proof fn lemma_pow256_mono(a: nat, b: nat)
    requires
        a <= b,
    ensures
        pow256(a) <= pow256(b),
    decreases b,
{
    if a < b {
        lemma_pow256_mono(a, (b - 1) as nat);
    }
}

// ---- strings ----
/// The string's encoding has a length that a u64 holds.
pub open spec fn str_fits(s: Seq<char>) -> bool {
    encode_utf8(s).len() <= u64::MAX
}

pub open spec fn enc_str(s: Seq<char>) -> Seq<u8> {
    enc_u64(encode_utf8(s).len() as u64) + encode_utf8(s)
}

/// The string at `pos`, and the position after it.
pub open spec fn parse_str(b: Seq<u8>, pos: int) -> Option<(Seq<char>, int)> {
    match parse_u64(b, pos) {
        Some((n, p)) => if p + n <= b.len() && valid_utf8(b.subrange(p, p + n)) {
            Some((decode_utf8(b.subrange(p, p + n)), p + n))
        } else {
            None
        },
        None => None,
    }
}

/// Relies on `String::from_utf8`: a string when the bytes are well-formed
/// UTF-8, else an error.
#[verifier::external_body]
fn utf8_text(b: &[u8]) -> (r: Option<String>)
    ensures
        r is Some <==> valid_utf8(b@),
        r is Some ==> r->0@ == decode_utf8(b@),
{
    String::from_utf8(b.to_vec()).ok()
}

fn push_str(out: &mut Vec<u8>, s: &String)
    ensures
        final(out)@ == old(out)@ + enc_str(s@),
        str_fits(s@),
{
    let bytes = s.as_str().as_bytes();
    let n = bytes.len();
    push_u64(out, n as u64);
    let ghost mid = out@;
    let mut i: usize = 0;
    while i < bytes.len()
        invariant
            i <= bytes@.len(),
            bytes@ == encode_utf8(s@),
            out@ == mid + bytes@.subrange(0, i as int),
        decreases bytes.len() - i,
    {
        out.push(bytes[i]);
        proof {
            assert(out@ =~= mid + bytes@.subrange(0, i + 1));
        }
        i = i + 1;
    }
    assert(bytes@.subrange(0, i as int) =~= bytes@);
    assert(out@ =~= old(out)@ + enc_str(s@));
}

fn read_str(b: &Vec<u8>, pos: usize) -> (r: Option<(String, usize)>)
    ensures
        match r {
            Some((s, p)) => parse_str(b@, pos as int) == Some((s@, p as int)),
            None => parse_str(b@, pos as int) is None,
        },
{
    match read_u64(b, pos) {
        None => None,
        Some((n, p)) => {
            if n as u128 > (b.len() - p) as u128 {
                return None;
            }
            let end = p + n as usize;
            let slice = vstd::slice::slice_subrange(b.as_slice(), p, end);
            match utf8_text(slice) {
                Some(s) => Some((s, end)),
                None => None,
            }
        },
    }
}

// ---- splitting encodings ----
proof fn lemma_split(b: Seq<u8>, pos: int, e1: Seq<u8>, e2: Seq<u8>)
    requires
        0 <= pos,
        pos + e1.len() + e2.len() <= b.len(),
        b.subrange(pos, pos + e1.len() + e2.len()) == e1 + e2,
    ensures
        b.subrange(pos, pos + e1.len()) == e1,
        b.subrange(pos + e1.len(), pos + e1.len() + e2.len()) == e2,
{
    assert(b.subrange(pos, pos + e1.len()) =~= (e1 + e2).subrange(0, e1.len() as int));
    assert(b.subrange(pos + e1.len(), pos + e1.len() + e2.len()) =~= (e1 + e2).subrange(
        e1.len() as int,
        (e1.len() + e2.len()) as int,
    ));
}

proof fn lemma_u64_round_trip(b: Seq<u8>, pos: int, x: u64)
    requires
        0 <= pos,
        pos + 8 <= b.len(),
        b.subrange(pos, pos + 8) == enc_u64(x),
    ensures
        enc_u64(x).len() == 8,
        parse_u64(b, pos) == Some((x, pos + 8)),
{
    lemma_pow256_8();
    lemma_be_round_trip(x as nat, 8);
}

proof fn lemma_enc_u64_len(x: u64)
    ensures
        enc_u64(x).len() == 8,
{
    lemma_pow256_8();
    lemma_be_round_trip(x as nat, 8);
}

proof fn lemma_str_round_trip(b: Seq<u8>, pos: int, s: Seq<char>)
    requires
        str_fits(s),
        0 <= pos,
        pos + enc_str(s).len() <= b.len(),
        b.subrange(pos, pos + enc_str(s).len()) == enc_str(s),
    ensures
        parse_str(b, pos) == Some((s, pos + enc_str(s).len())),
{
    let n = encode_utf8(s).len() as u64;
    lemma_enc_u64_len(n);
    lemma_split(b, pos, enc_u64(n), encode_utf8(s));
    lemma_u64_round_trip(b, pos, n);
}

// ---- records ----
/// A record as it is persisted: text as characters, the verdict as the
/// failure reason (none for a success).
pub struct ResponseModel {
    pub time: u64,
    pub reason: Option<Seq<char>>,
    pub server_latency: Option<u64>,
    pub collected: Seq<(Seq<char>, Seq<char>)>,
}

pub open spec fn response_model(r: ResponseInfo) -> ResponseModel {
    ResponseModel {
        time: r.time,
        reason: match r.status {
            Status::Success => None,
            Status::Failure { reason } => Some(reason@),
        },
        server_latency: r.server_latency,
        collected: pairs_view(r.collected@),
    }
}

pub open spec fn models(s: Seq<ResponseInfo>) -> Seq<ResponseModel> {
    s.map_values(|r: ResponseInfo| response_model(r))
}

pub open spec fn pairs_fit(p: Seq<(Seq<char>, Seq<char>)>) -> bool {
    &&& p.len() <= u64::MAX
    &&& forall|i: int| 0 <= i < p.len() ==> str_fits(#[trigger] p[i].0) && str_fits(p[i].1)
}

pub open spec fn response_fits(m: ResponseModel) -> bool {
    &&& (m.reason is Some ==> str_fits(m.reason->0))
    &&& pairs_fit(m.collected)
}

pub open spec fn enc_pairs(p: Seq<(Seq<char>, Seq<char>)>) -> Seq<u8>
    decreases p.len(),
{
    if p.len() == 0 {
        Seq::empty()
    } else {
        enc_pairs(p.drop_last()) + enc_str(p.last().0) + enc_str(p.last().1)
    }
}

pub open spec fn enc_status(reason: Option<Seq<char>>) -> Seq<u8> {
    match reason {
        None => seq![0u8],
        Some(r) => seq![1u8] + enc_str(r),
    }
}

pub open spec fn enc_latency(l: Option<u64>) -> Seq<u8> {
    match l {
        None => seq![0u8],
        Some(ms) => seq![1u8] + enc_u64(ms),
    }
}

pub open spec fn enc_response(m: ResponseModel) -> Seq<u8> {
    enc_u64(m.time) + enc_status(m.reason) + enc_latency(m.server_latency) + enc_u64(
        m.collected.len() as u64,
    ) + enc_pairs(m.collected)
}

/// `k` name / value pairs from `pos`, and the position after them.
pub open spec fn parse_pairs(b: Seq<u8>, pos: int, k: nat) -> Option<
    (Seq<(Seq<char>, Seq<char>)>, int),
>
    decreases k,
{
    if k == 0 {
        Some((Seq::empty(), pos))
    } else {
        match parse_pairs(b, pos, (k - 1) as nat) {
            Some((ps, p)) => match parse_str(b, p) {
                Some((a, pos2)) => match parse_str(b, pos2) {
                    Some((c, pos3)) => Some((ps.push((a, c)), pos3)),
                    None => None,
                },
                None => None,
            },
            None => None,
        }
    }
}

pub open spec fn parse_status(b: Seq<u8>, pos: int) -> Option<(Option<Seq<char>>, int)> {
    match parse_byte(b, pos) {
        Some((0u8, p)) => Some((None, p)),
        Some((1u8, p)) => match parse_str(b, p) {
            Some((r, pos2)) => Some((Some(r), pos2)),
            None => None,
        },
        _ => None,
    }
}

pub open spec fn parse_latency(b: Seq<u8>, pos: int) -> Option<(Option<u64>, int)> {
    match parse_byte(b, pos) {
        Some((0u8, p)) => Some((None, p)),
        Some((1u8, p)) => match parse_u64(b, p) {
            Some((l, pos2)) => Some((Some(l), pos2)),
            None => None,
        },
        _ => None,
    }
}

pub open spec fn parse_response(b: Seq<u8>, pos: int) -> Option<(ResponseModel, int)> {
    match parse_u64(b, pos) {
        Some((time, pos1)) => match parse_status(b, pos1) {
            Some((reason, pos2)) => match parse_latency(b, pos2) {
                Some((server_latency, pos3)) => match parse_u64(b, pos3) {
                    Some((k, pos4)) => match parse_pairs(b, pos4, k as nat) {
                        Some((collected, pos5)) => Some(
                            (ResponseModel { time, reason, server_latency, collected }, pos5),
                        ),
                        None => None,
                    },
                    None => None,
                },
                None => None,
            },
            None => None,
        },
        None => None,
    }
}

proof fn lemma_pairs_failed(b: Seq<u8>, pos: int, i: nat, k: nat)
    requires
        i <= k,
        parse_pairs(b, pos, i) is None,
    ensures
        parse_pairs(b, pos, k) is None,
    decreases k,
{
    if i < k {
        lemma_pairs_failed(b, pos, i, (k - 1) as nat);
    }
}

fn read_pairs(b: &Vec<u8>, pos: usize, k: u64) -> (r: Option<(Vec<(String, String)>, usize)>)
    ensures
        match r {
            Some((v, p)) => parse_pairs(b@, pos as int, k as nat) == Some((pairs_view(v@), p as int)),
            None => parse_pairs(b@, pos as int, k as nat) is None,
        },
{
    let mut out: Vec<(String, String)> = Vec::new();
    let mut cur = pos;
    let mut i: u64 = 0;
    while i < k
        invariant
            i <= k,
            parse_pairs(b@, pos as int, i as nat) == Some((pairs_view(out@), cur as int)),
        decreases k - i,
    {
        let ghost before = out@;
        match read_str(b, cur) {
            None => {
                proof {
                    lemma_pairs_failed(b@, pos as int, (i + 1) as nat, k as nat);
                }
                return None;
            },
            Some((a, pos2)) => match read_str(b, pos2) {
                None => {
                    proof {
                        lemma_pairs_failed(b@, pos as int, (i + 1) as nat, k as nat);
                    }
                    return None;
                },
                Some((c, pos3)) => {
                    out.push((a, c));
                    cur = pos3;
                    proof {
                        assert(pairs_view(out@) =~= pairs_view(before).push((a@, c@)));
                    }
                },
            },
        }
        i = i + 1;
    }
    Some((out, cur))
}

fn push_pairs(out: &mut Vec<u8>, p: &Vec<(String, String)>)
    ensures
        final(out)@ == old(out)@ + enc_pairs(pairs_view(p@)),
        pairs_fit(pairs_view(p@)),
{
    let ghost start = out@;
    let len = p.len();
    let mut i: usize = 0;
    while i < p.len()
        invariant
            i <= p.len(),
            len == p@.len(),
            out@ == start + enc_pairs(pairs_view(p@.subrange(0, i as int))),
            forall|j: int| 0 <= j < i ==> str_fits((#[trigger] p@[j]).0@) && str_fits(p@[j].1@),
        decreases p.len() - i,
    {
        let ghost prefix = pairs_view(p@.subrange(0, i as int));
        let ghost next = pairs_view(p@.subrange(0, i + 1));
        proof {
            assert(next.drop_last() =~= prefix);
            assert(next.last() == pairs_view(p@)[i as int]);
        }
        push_str(out, &p[i].0);
        push_str(out, &p[i].1);
        proof {
            assert(out@ =~= start + enc_pairs(next));
            assert(str_fits(p@[i as int].0@) && str_fits(p@[i as int].1@));
        }
        i = i + 1;
    }
    assert(p@.subrange(0, i as int) =~= p@);
    assert(len <= u64::MAX);
    assert(pairs_view(p@).len() == len);
    assert forall|j: int| 0 <= j < pairs_view(p@).len() implies str_fits(
        #[trigger] pairs_view(p@)[j].0,
    ) && str_fits(pairs_view(p@)[j].1) by {
        assert(pairs_view(p@)[j] == (p@[j].0@, p@[j].1@));
    }
}

proof fn lemma_pairs_round_trip(b: Seq<u8>, pos: int, p: Seq<(Seq<char>, Seq<char>)>)
    requires
        pairs_fit(p),
        0 <= pos,
        pos + enc_pairs(p).len() <= b.len(),
        b.subrange(pos, pos + enc_pairs(p).len()) == enc_pairs(p),
    ensures
        parse_pairs(b, pos, p.len()) == Some((p, pos + enc_pairs(p).len())),
    decreases p.len(),
{
    if p.len() > 0 {
        let q = p.drop_last();
        let e = enc_pairs(q);
        let a = enc_str(p.last().0);
        let c = enc_str(p.last().1);
        assert(enc_pairs(p) == e + a + c);
        lemma_split(b, pos, e + a, c);
        lemma_split(b, pos, e, a);
        assert(pairs_fit(q)) by {
            assert forall|i: int| 0 <= i < q.len() implies str_fits(#[trigger] q[i].0) && str_fits(
                q[i].1,
            ) by {
                assert(q[i] == p[i]);
            }
        }
        assert(str_fits(p[p.len() - 1].0) && str_fits(p[p.len() - 1].1));
        lemma_pairs_round_trip(b, pos, q);
        lemma_str_round_trip(b, pos + e.len(), p.last().0);
        lemma_str_round_trip(b, pos + e.len() + a.len(), p.last().1);
        assert(q.push(p.last()) =~= p);
    }
}

fn push_response(out: &mut Vec<u8>, r: &ResponseInfo)
    ensures
        final(out)@ == old(out)@ + enc_response(response_model(*r)),
        response_fits(response_model(*r)),
{
    let ghost start = out@;
    push_u64(out, r.time);
    match &r.status {
        Status::Success => out.push(0u8),
        Status::Failure { reason } => {
            out.push(1u8);
            push_str(out, reason);
        },
    }
    match r.server_latency {
        None => out.push(0u8),
        Some(ms) => {
            out.push(1u8);
            push_u64(out, ms);
        },
    }
    let k = r.collected.len();
    push_u64(out, k as u64);
    push_pairs(out, &r.collected);
    proof {
        let m = response_model(*r);
        assert(out@ =~= start + enc_response(m));
    }
}

proof fn lemma_response_round_trip(b: Seq<u8>, pos: int, m: ResponseModel)
    requires
        response_fits(m),
        0 <= pos,
        pos + enc_response(m).len() <= b.len(),
        b.subrange(pos, pos + enc_response(m).len()) == enc_response(m),
    ensures
        parse_response(b, pos) == Some((m, pos + enc_response(m).len())),
{
    let e1 = enc_u64(m.time);
    let e2 = enc_status(m.reason);
    let e3 = enc_latency(m.server_latency);
    let e4 = enc_u64(m.collected.len() as u64);
    let e5 = enc_pairs(m.collected);
    assert(enc_response(m) == e1 + e2 + e3 + e4 + e5);
    lemma_split(b, pos, e1 + e2 + e3 + e4, e5);
    lemma_split(b, pos, e1 + e2 + e3, e4);
    lemma_split(b, pos, e1 + e2, e3);
    lemma_split(b, pos, e1, e2);
    lemma_enc_u64_len(m.time);
    lemma_u64_round_trip(b, pos, m.time);
    let pos1 = pos + 8;
    match m.reason {
        None => {
            assert(b[pos1] == e2[0]);
        },
        Some(r) => {
            lemma_split(b, pos1, seq![1u8], enc_str(r));
            assert(b[pos1] == e2[0]);
            lemma_str_round_trip(b, pos1 + 1, r);
        },
    }
    let pos2 = pos1 + e2.len();
    match m.server_latency {
        None => {
            assert(b[pos2] == e3[0]);
        },
        Some(ms) => {
            lemma_enc_u64_len(ms);
            lemma_split(b, pos2, seq![1u8], enc_u64(ms));
            assert(b[pos2] == e3[0]);
            lemma_u64_round_trip(b, pos2 + 1, ms);
        },
    }
    let pos3 = pos2 + e3.len();
    lemma_enc_u64_len(m.collected.len() as u64);
    lemma_u64_round_trip(b, pos3, m.collected.len() as u64);
    lemma_pairs_round_trip(b, pos3 + 8, m.collected);
}

fn read_response(b: &Vec<u8>, pos: usize) -> (r: Option<(ResponseInfo, usize)>)
    ensures
        match r {
            Some((info, p)) => parse_response(b@, pos as int) == Some(
                (response_model(info), p as int),
            ),
            None => parse_response(b@, pos as int) is None,
        },
{
    let (time, pos1) = match read_u64(b, pos) {
        Some(x) => x,
        None => return None,
    };
    if pos1 >= b.len() {
        return None;
    }
    let tag = b[pos1];
    let (status, pos2) = if tag == 0 {
        (Status::Success, pos1 + 1)
    } else if tag == 1 {
        match read_str(b, pos1 + 1) {
            Some((reason, p)) => (Status::Failure { reason }, p),
            None => return None,
        }
    } else {
        return None;
    };
    if pos2 >= b.len() {
        return None;
    }
    let tag = b[pos2];
    let (server_latency, pos3) = if tag == 0 {
        (None, pos2 + 1)
    } else if tag == 1 {
        match read_u64(b, pos2 + 1) {
            Some((ms, p)) => (Some(ms), p),
            None => return None,
        }
    } else {
        return None;
    };
    let (k, pos4) = match read_u64(b, pos3) {
        Some(x) => x,
        None => return None,
    };
    let (collected, pos5) = match read_pairs(b, pos4, k) {
        Some(x) => x,
        None => return None,
    };
    let info = ResponseInfo { time, status, server_latency, collected };
    Some((info, pos5))
}

// ---- whole results ----
/// A result as it is persisted.
pub struct ResultModel {
    pub name: Seq<char>,
    pub total_time: u64,
    pub responses: Seq<ResponseModel>,
}

pub open spec fn result_model(t: TestResult) -> ResultModel {
    ResultModel { name: t@.name, total_time: t@.total_time, responses: models(t@.responses) }
}

pub open spec fn result_fits(m: ResultModel) -> bool {
    &&& str_fits(m.name)
    &&& m.responses.len() <= u64::MAX
    &&& forall|i: int| 0 <= i < m.responses.len() ==> response_fits(#[trigger] m.responses[i])
}

/// The first bytes of every result file.
pub open spec fn magic() -> Seq<u8> {
    seq![0x53u8, 0x50u8, 0x41u8, 0x4du8, 0x52u8, 0x45u8, 0x53u8, 0x31u8]
}

pub open spec fn enc_responses(s: Seq<ResponseModel>) -> Seq<u8>
    decreases s.len(),
{
    if s.len() == 0 {
        Seq::empty()
    } else {
        enc_responses(s.drop_last()) + enc_response(s.last())
    }
}

pub open spec fn enc_result(m: ResultModel) -> Seq<u8> {
    magic() + enc_str(m.name) + enc_u64(m.total_time) + enc_u64(m.responses.len() as u64)
        + enc_responses(m.responses)
}

pub open spec fn parse_responses(b: Seq<u8>, pos: int, n: nat) -> Option<(Seq<ResponseModel>, int)>
    decreases n,
{
    if n == 0 {
        Some((Seq::empty(), pos))
    } else {
        match parse_responses(b, pos, (n - 1) as nat) {
            Some((rs, p)) => match parse_response(b, p) {
                Some((r, pos2)) => Some((rs.push(r), pos2)),
                None => None,
            },
            None => None,
        }
    }
}

/// The result that a whole file holds: the magic bytes, then the fields,
/// and nothing after them.
#[verifier::opaque]
pub open spec fn parse_result(b: Seq<u8>) -> Option<ResultModel> {
    if b.len() >= 8 && b.subrange(0, 8) == magic() {
        match parse_str(b, 8) {
            Some((name, pos1)) => match parse_u64(b, pos1) {
                Some((total_time, pos2)) => match parse_u64(b, pos2) {
                    Some((n, pos3)) => match parse_responses(b, pos3, n as nat) {
                        Some((responses, pos4)) => if pos4 == b.len() {
                            Some(ResultModel { name, total_time, responses })
                        } else {
                            None
                        },
                        None => None,
                    },
                    None => None,
                },
                None => None,
            },
            None => None,
        }
    } else {
        None
    }
}

proof fn lemma_responses_failed(b: Seq<u8>, pos: int, i: nat, n: nat)
    requires
        i <= n,
        parse_responses(b, pos, i) is None,
    ensures
        parse_responses(b, pos, n) is None,
    decreases n,
{
    if i < n {
        lemma_responses_failed(b, pos, i, (n - 1) as nat);
    }
}

proof fn lemma_responses_round_trip(b: Seq<u8>, pos: int, s: Seq<ResponseModel>)
    requires
        forall|i: int| 0 <= i < s.len() ==> response_fits(#[trigger] s[i]),
        0 <= pos,
        pos + enc_responses(s).len() <= b.len(),
        b.subrange(pos, pos + enc_responses(s).len()) == enc_responses(s),
    ensures
        parse_responses(b, pos, s.len()) == Some((s, pos + enc_responses(s).len())),
    decreases s.len(),
{
    if s.len() > 0 {
        let q = s.drop_last();
        lemma_split(b, pos, enc_responses(q), enc_response(s.last()));
        assert forall|i: int| 0 <= i < q.len() implies response_fits(#[trigger] q[i]) by {
            assert(q[i] == s[i]);
        }
        lemma_responses_round_trip(b, pos, q);
        assert(response_fits(s[s.len() - 1]));
        lemma_response_round_trip(b, pos + enc_responses(q).len(), s.last());
        assert(q.push(s.last()) =~= s);
    }
}

/// Saving then loading gives back the same result: every persisted result
/// decodes to exactly what was encoded.
pub proof fn lemma_round_trip(m: ResultModel)
    requires
        result_fits(m),
    ensures
        parse_result(enc_result(m)) == Some(m),
{
    reveal(parse_result);
    let b = enc_result(m);
    let e0 = magic();
    let e1 = enc_str(m.name);
    let e2 = enc_u64(m.total_time);
    let e3 = enc_u64(m.responses.len() as u64);
    let e4 = enc_responses(m.responses);
    assert(b == e0 + e1 + e2 + e3 + e4);
    assert(b.subrange(0, b.len() as int) =~= b);
    lemma_split(b, 0, e0 + e1 + e2 + e3, e4);
    lemma_split(b, 0, e0 + e1 + e2, e3);
    lemma_split(b, 0, e0 + e1, e2);
    lemma_split(b, 0, e0, e1);
    lemma_str_round_trip(b, 8, m.name);
    lemma_enc_u64_len(m.total_time);
    lemma_enc_u64_len(m.responses.len() as u64);
    lemma_u64_round_trip(b, (8 + e1.len()) as int, m.total_time);
    lemma_u64_round_trip(b, (16 + e1.len()) as int, m.responses.len() as u64);
    lemma_responses_round_trip(b, (24 + e1.len()) as int, m.responses);
}

/// The encoding of a result.
pub fn encode(result: &TestResult) -> (r: Vec<u8>)
    ensures
        r@ == enc_result(result_model(*result)),
        result_fits(result_model(*result)),
{
    let mut out: Vec<u8> = Vec::new();
    out.push(0x53u8);
    out.push(0x50u8);
    out.push(0x41u8);
    out.push(0x4du8);
    out.push(0x52u8);
    out.push(0x45u8);
    out.push(0x53u8);
    out.push(0x31u8);
    assert(out@ =~= magic());
    push_str(&mut out, result.name());
    push_u64(&mut out, result.total_time());
    let responses = result.responses();
    let n = responses.len();
    push_u64(&mut out, n as u64);
    let ghost head = out@;
    let ghost ms = models(responses@);
    let mut i: usize = 0;
    while i < n
        invariant
            i <= n,
            n == responses.len(),
            ms == models(responses@),
            out@ == head + enc_responses(ms.subrange(0, i as int)),
            forall|j: int| 0 <= j < i ==> response_fits(#[trigger] ms[j]),
        decreases n - i,
    {
        proof {
            assert(ms.subrange(0, i + 1).drop_last() =~= ms.subrange(0, i as int));
            assert(ms.subrange(0, i + 1).last() == response_model(responses@[i as int]));
        }
        push_response(&mut out, &responses[i]);
        i = i + 1;
    }
    assert(ms.subrange(0, i as int) =~= ms);
    out
}

/// The result that `bytes` hold, if they are a well-formed result file.
pub fn decode(bytes: &Vec<u8>) -> (r: Option<TestResult>)
    ensures
        match r {
            Some(t) => parse_result(bytes@) == Some(result_model(t)),
            None => parse_result(bytes@) is None,
        },
{
    reveal(parse_result);
    if bytes.len() < 8 || bytes[0] != 0x53u8 || bytes[1] != 0x50u8 || bytes[2] != 0x41u8
        || bytes[3] != 0x4du8 || bytes[4] != 0x52u8 || bytes[5] != 0x45u8 || bytes[6] != 0x53u8
        || bytes[7] != 0x31u8 {
        proof {
            if bytes@.len() >= 8 && bytes@.subrange(0, 8) == magic() {
                assert(bytes@[0] == bytes@.subrange(0, 8)[0]);
                assert(bytes@[1] == bytes@.subrange(0, 8)[1]);
                assert(bytes@[2] == bytes@.subrange(0, 8)[2]);
                assert(bytes@[3] == bytes@.subrange(0, 8)[3]);
                assert(bytes@[4] == bytes@.subrange(0, 8)[4]);
                assert(bytes@[5] == bytes@.subrange(0, 8)[5]);
                assert(bytes@[6] == bytes@.subrange(0, 8)[6]);
                assert(bytes@[7] == bytes@.subrange(0, 8)[7]);
            }
        }
        return None;
    }
    assert(bytes@.subrange(0, 8) =~= magic());
    let (name, pos1) = match read_str(bytes, 8) {
        Some(x) => x,
        None => return None,
    };
    let (total_time, pos2) = match read_u64(bytes, pos1) {
        Some(x) => x,
        None => return None,
    };
    let (n, pos3) = match read_u64(bytes, pos2) {
        Some(x) => x,
        None => return None,
    };
    let mut responses: Vec<ResponseInfo> = Vec::new();
    let mut cur = pos3;
    let mut i: u64 = 0;
    while i < n
        invariant
            i <= n,
            parse_responses(bytes@, pos3 as int, i as nat) == Some((models(responses@), cur as int)),
            bytes@.len() >= 8,
            bytes@.subrange(0, 8) == magic(),
            parse_str(bytes@, 8) == Some((name@, pos1 as int)),
            parse_u64(bytes@, pos1 as int) == Some((total_time, pos2 as int)),
            parse_u64(bytes@, pos2 as int) == Some((n, pos3 as int)),
        decreases n - i,
    {
        match read_response(bytes, cur) {
            None => {
                proof {
                    reveal(parse_result);
                    lemma_responses_failed(bytes@, pos3 as int, (i + 1) as nat, n as nat);
                }
                return None;
            },
            Some((info, p)) => {
                let ghost before = responses@;
                responses.push(info);
                cur = p;
                proof {
                    assert(models(responses@) =~= models(before).push(response_model(info)));
                }
            },
        }
        i = i + 1;
    }
    if cur != bytes.len() {
        return None;
    }
    let result = TestResult::new(responses, name, total_time);
    Some(result)
}

proof fn lemma_models_counts(a: Seq<ResponseInfo>, b: Seq<ResponseInfo>)
    requires
        models(a) == models(b),
    ensures
        successes(a) == successes(b),
        failures(a) == failures(b),
        elapsed_sum(a) == elapsed_sum(b),
    decreases a.len(),
{
    assert(a.len() == models(a).len());
    assert(b.len() == models(b).len());
    if a.len() > 0 {
        assert(models(a.drop_last()) =~= models(a).drop_last());
        assert(models(b.drop_last()) =~= models(b).drop_last());
        assert(response_model(a.last()) == models(a)[a.len() - 1]);
        assert(response_model(b.last()) == models(b)[b.len() - 1]);
        lemma_models_counts(a.drop_last(), b.drop_last());
    }
}

/// A result read back from the encoding of `saved` equals it in every field:
/// name, duration, each record, and the derived counts and request time.
pub proof fn lemma_load_equals_saved(saved: TestResult, loaded: TestResult)
    requires
        result_fits(result_model(saved)),
        parse_result(enc_result(result_model(saved))) == Some(result_model(loaded)),
    ensures
        result_model(loaded) == result_model(saved),
        loaded@.name == saved@.name,
        loaded@.total_time == saved@.total_time,
        models(loaded@.responses) == models(saved@.responses),
        loaded@.success_count == saved@.success_count,
        loaded@.failure_count == saved@.failure_count,
        loaded@.request_time == saved@.request_time,
{
    lemma_round_trip(result_model(saved));
    assert(result_model(loaded) == result_model(saved));
    TestResult::lemma_derived(&saved);
    TestResult::lemma_derived(&loaded);
    lemma_models_counts(loaded@.responses, saved@.responses);
}

// ---- files ----
/// The extension of result files.
pub open spec fn result_extension() -> Seq<char> {
    "bin"@
}

/// The file name under which a result named `name` is stored.
pub fn file_name(name: &String) -> (r: String)
    ensures
        r@ == name@ + "."@ + result_extension(),
{
    let mut out = name.clone();
    out.append(".bin");
    proof {
        reveal_strlit(".bin");
        reveal_strlit(".");
        reveal_strlit("bin");
        assert(".bin"@ =~= "."@ + "bin"@);
    }
    assert(out@ =~= name@ + "."@ + result_extension());
    out
}

/// Whether `names` holds `s`.
pub open spec fn named(names: Seq<String>, s: Seq<char>) -> bool {
    exists|i: int| 0 <= i < names.len() && #[trigger] names[i]@ == s
}

/// Whether a file with this stem and extension is to be loaded: it is a
/// result file and, when names are given, its stem is one of them.
pub open spec fn wanted(stem: Option<Seq<char>>, extension: Option<Seq<char>>, names: Option<
    Seq<String>,
>) -> bool {
    &&& extension == Some(result_extension())
    &&& match names {
        None => true,
        Some(ns) => match stem {
            Some(s) => named(ns, s),
            None => false,
        },
    }
}

pub open spec fn opt_view(o: Option<String>) -> Option<Seq<char>> {
    match o {
        Some(s) => Some(s@),
        None => None,
    }
}

pub open spec fn opt_names(o: Option<Vec<String>>) -> Option<Seq<String>> {
    match o {
        Some(v) => Some(v@),
        None => None,
    }
}

/// Decides whether a directory entry, given by its file stem and extension,
/// is to be loaded.
pub fn is_wanted(stem: &Option<String>, extension: &Option<String>, names: &Option<Vec<String>>) -> (r:
    bool)
    ensures
        r == wanted(opt_view(*stem), opt_view(*extension), opt_names(*names)),
{
    let ext = String::from_str("bin");
    proof {
        reveal_strlit("bin");
    }
    let is_result = match extension {
        Some(e) => *e == ext,
        None => false,
    };
    if !is_result {
        return false;
    }
    match names {
        None => true,
        Some(ns) => match stem {
            None => false,
            Some(s) => {
                let mut i: usize = 0;
                while i < ns.len()
                    invariant
                        i <= ns.len(),
                        forall|j: int| 0 <= j < i ==> ns@[j]@ != s@,
                        opt_view(*extension) == Some(result_extension()),
                        opt_names(*names) == Some(ns@),
                        opt_view(*stem) == Some(s@),
                    decreases ns.len() - i,
                {
                    if ns[i] == *s {
                        assert(ns@[i as int]@ == s@);
                        assert(named(ns@, s@));
                        return true;
                    }
                    i = i + 1;
                }
                false
            },
        },
    }
}

/// The results that the files hold, in order, skipping every file that does
/// not decode.
pub open spec fn loaded(files: Seq<Seq<u8>>) -> Seq<ResultModel>
    decreases files.len(),
{
    if files.len() == 0 {
        Seq::empty()
    } else {
        match parse_result(files.last()) {
            Some(m) => loaded(files.drop_last()).push(m),
            None => loaded(files.drop_last()),
        }
    }
}

pub open spec fn contents(files: Seq<Vec<u8>>) -> Seq<Seq<u8>> {
    files.map_values(|f: Vec<u8>| f@)
}

pub open spec fn result_models(rs: Seq<TestResult>) -> Seq<ResultModel> {
    rs.map_values(|t: TestResult| result_model(t))
}

/// Decodes each file's contents; a file that does not decode is skipped,
/// never an error.
pub fn load_results(files: &Vec<Vec<u8>>) -> (r: Vec<TestResult>)
    ensures
        result_models(r@) == loaded(contents(files@)),
{
    let mut out: Vec<TestResult> = Vec::new();
    let mut i: usize = 0;
    while i < files.len()
        invariant
            i <= files.len(),
            result_models(out@) == loaded(contents(files@.subrange(0, i as int))),
        decreases files.len() - i,
    {
        let ghost p = contents(files@.subrange(0, i as int));
        let ghost q = contents(files@.subrange(0, i + 1));
        proof {
            assert(q.drop_last() =~= p);
            assert(q.last() == files@[i as int]@);
        }
        let ghost before = out@;
        match decode(&files[i]) {
            Some(t) => {
                out.push(t);
                proof {
                    assert(result_models(out@) =~= result_models(before).push(result_model(t)));
                }
            },
            None => {},
        }
        i = i + 1;
    }
    assert(files@.subrange(0, i as int) =~= files@);
    out
}

/// A file that does not decode adds nothing to a batch load, and one that
/// does adds exactly its result.
pub proof fn lemma_load_skips_corrupt(files: Seq<Seq<u8>>, file: Seq<u8>)
    ensures
        parse_result(file) is None ==> loaded(files.push(file)) == loaded(files),
        parse_result(file) is Some ==> loaded(files.push(file)) == loaded(files).push(
            parse_result(file)->0,
        ),
{
    assert(files.push(file).drop_last() =~= files);
}

} // verus!
