//! The result of one test run: every response record, the run's duration and
//! the derived success and failure counts.
use crate::response_info::ResponseInfo;
use crate::text::{decimal, decimal_text, duration_debug, duration_text};
use vstd::prelude::*;

verus! {

/// Number of successful records.
pub open spec fn successes(s: Seq<ResponseInfo>) -> nat
    decreases s.len(),
{
    if s.len() == 0 {
        0
    } else {
        successes(s.drop_last()) + if s.last().status is Success {
            1nat
        } else {
            0nat
        }
    }
}

/// Number of failed records.
pub open spec fn failures(s: Seq<ResponseInfo>) -> nat
    decreases s.len(),
{
    if s.len() == 0 {
        0
    } else {
        failures(s.drop_last()) + if s.last().status is Failure {
            1nat
        } else {
            0nat
        }
    }
}

/// The successful records, in order.
pub open spec fn success_records(s: Seq<ResponseInfo>) -> Seq<ResponseInfo>
    decreases s.len(),
{
    if s.len() == 0 {
        s
    } else if s.last().status is Success {
        success_records(s.drop_last()).push(s.last())
    } else {
        success_records(s.drop_last())
    }
}

/// The failed records, in order.
pub open spec fn failure_records(s: Seq<ResponseInfo>) -> Seq<ResponseInfo>
    decreases s.len(),
{
    if s.len() == 0 {
        s
    } else if s.last().status is Failure {
        failure_records(s.drop_last()).push(s.last())
    } else {
        failure_records(s.drop_last())
    }
}

/// Sum of the elapsed times of the records, in nanoseconds.
pub open spec fn elapsed_sum(s: Seq<ResponseInfo>) -> nat
    decreases s.len(),
{
    if s.len() == 0 {
        0
    } else {
        (elapsed_sum(s.drop_last()) + s.last().time) as nat
    }
}

/// The elapsed times of the records, in order.
pub open spec fn times(s: Seq<ResponseInfo>) -> Seq<u64>
    decreases s.len(),
{
    if s.len() == 0 {
        Seq::empty()
    } else {
        times(s.drop_last()).push(s.last().time)
    }
}

/// The server-reported latencies of the records that carry one, in order.
pub open spec fn server_latencies(s: Seq<ResponseInfo>) -> Seq<u64>
    decreases s.len(),
{
    if s.len() == 0 {
        Seq::empty()
    } else {
        match s.last().server_latency {
            Some(l) => server_latencies(s.drop_last()).push(l),
            None => server_latencies(s.drop_last()),
        }
    }
}

/// For each record that carries a server latency (in milliseconds), the
/// part of its elapsed time (in nanoseconds) spent outside the server, or
/// zero where the server reported more than the whole.
pub open spec fn infrastructure_latencies(s: Seq<ResponseInfo>) -> Seq<u64>
    decreases s.len(),
{
    if s.len() == 0 {
        Seq::empty()
    } else {
        match s.last().server_latency {
            Some(l) => infrastructure_latencies(s.drop_last()).push(
                outside_server(s.last().time, l),
            ),
            None => infrastructure_latencies(s.drop_last()),
        }
    }
}

/// Elapsed nanoseconds less a server latency given in milliseconds, floored
/// at zero.
pub open spec fn outside_server(time: u64, latency_ms: u64) -> u64 {
    if time >= latency_ms * 1_000_000 {
        (time - latency_ms * 1_000_000) as u64
    } else {
        0
    }
}

/// Requests per second over a run: `count` requests in `nanos` nanoseconds,
/// rounded down and capped at `u64::MAX`; with a zero duration, zero for no
/// requests and `u64::MAX` otherwise.
pub open spec fn rate_per_second(count: nat, nanos: u64) -> u64 {
    if nanos == 0 {
        if count == 0 {
            0
        } else {
            u64::MAX
        }
    } else if count * 1_000_000_000 / (nanos as nat) > u64::MAX {
        u64::MAX
    } else {
        (count * 1_000_000_000 / (nanos as nat)) as u64
    }
}

/// The successful records whose elapsed time lies strictly between `lo` and
/// `hi` nanoseconds, in order.
pub open spec fn success_records_between(s: Seq<ResponseInfo>, lo: nat, hi: nat) -> Seq<ResponseInfo>
    decreases s.len(),
{
    if s.len() == 0 {
        s
    } else if s.last().status is Success && lo < s.last().time && s.last().time < hi {
        success_records_between(s.drop_last(), lo, hi).push(s.last())
    } else {
        success_records_between(s.drop_last(), lo, hi)
    }
}

/// The mean of a sum over `n` items, rounded down; none for no items.
pub open spec fn mean(sum: nat, n: nat) -> Option<u64> {
    if n == 0 {
        None
    } else {
        Some((sum / n) as u64)
    }
}

/// The layout of the summary of a run, from its parts as text and numbers.
pub open spec fn report_layout(
    name: Seq<char>,
    total_time: Seq<char>,
    rps: nat,
    success_count: nat,
    avg_success: Seq<char>,
    failure_count: nat,
    avg_failure: Seq<char>,
) -> Seq<char> {
    name + ":\n    time: "@ + total_time + " (~"@ + decimal_text(rps) + " rps)\n    success: "@
        + decimal_text(success_count) + " ("@ + avg_success + " avg)\n    failure: "@
        + decimal_text(failure_count) + " ("@ + avg_failure + " avg)\n        "@
}

/// The human-readable summary of a run, durations written as std's `Debug`
/// writes them.
pub open spec fn report_text(
    name: Seq<char>,
    total_time: u64,
    rps: u64,
    success_count: nat,
    avg_success: u64,
    failure_count: nat,
    avg_failure: u64,
) -> Seq<char> {
    report_layout(
        name,
        duration_debug(total_time),
        rps as nat,
        success_count,
        duration_debug(avg_success),
        failure_count,
        duration_debug(avg_failure),
    )
}

/// Lays out the summary of a run from its parts.
pub fn format_report(
    name: &String,
    total_time: &str,
    rps: u64,
    success_count: u64,
    avg_success: &str,
    failure_count: u64,
    avg_failure: &str,
) -> (r: String)
    ensures
        r@ == report_layout(
            name@,
            total_time@,
            rps as nat,
            success_count as nat,
            avg_success@,
            failure_count as nat,
            avg_failure@,
        ),
{
    let mut out = name.clone();
    out.append(":\n    time: ");
    out.append(total_time);
    out.append(" (~");
    out.append(decimal(rps).as_str());
    out.append(" rps)\n    success: ");
    out.append(decimal(success_count).as_str());
    out.append(" (");
    out.append(avg_success);
    out.append(" avg)\n    failure: ");
    out.append(decimal(failure_count).as_str());
    out.append(" (");
    out.append(avg_failure);
    out.append(" avg)\n        ");
    out
}

/// Whether `s` is in ascending order.
pub open spec fn ascending(s: Seq<u64>) -> bool {
    forall|i: int, j: int| 0 <= i <= j < s.len() ==> s[i] <= s[j]
}

/// Relies on `slice::sort_unstable`: the same items, in ascending order.
#[verifier::external_body]
fn sort_ascending(v: &mut Vec<u64>)
    ensures
        final(v)@.to_multiset() == old(v)@.to_multiset(),
        ascending(final(v)@),
{
    v.sort_unstable()
}

proof fn lemma_mean_fits(sum: nat, n: nat)
    requires
        n > 0,
        sum <= n * (u64::MAX as nat),
    ensures
        sum / n <= u64::MAX,
{
    assert(sum / n <= u64::MAX) by (nonlinear_arith)
        requires
            n > 0,
            sum <= n * (u64::MAX as nat),
    ;
}

proof fn lemma_records_bound(s: Seq<ResponseInfo>)
    ensures
        elapsed_sum(success_records(s)) <= successes(s) * (u64::MAX as nat),
        elapsed_sum(failure_records(s)) <= failures(s) * (u64::MAX as nat),
        elapsed_sum(success_records(s)) <= elapsed_sum(s),
        elapsed_sum(failure_records(s)) <= elapsed_sum(s),
{
    lemma_counts_split(s);
    lemma_total_time_bound(success_records(s));
    lemma_total_time_bound(failure_records(s));
    lemma_part_sums(s);
}

proof fn lemma_part_sums(s: Seq<ResponseInfo>)
    ensures
        elapsed_sum(success_records(s)) + elapsed_sum(failure_records(s)) == elapsed_sum(s),
    decreases s.len(),
{
    if s.len() > 0 {
        lemma_part_sums(s.drop_last());
        let p = s.drop_last();
        if s.last().status is Success {
            assert(success_records(s).drop_last() =~= success_records(p));
        } else {
            assert(failure_records(s).drop_last() =~= failure_records(p));
        }
    }
}

proof fn lemma_prefix_sum(s: Seq<ResponseInfo>, k: int)
    requires
        0 <= k <= s.len(),
    ensures
        elapsed_sum(s.subrange(0, k)) <= elapsed_sum(s),
    decreases s.len() - k,
{
    if k < s.len() {
        lemma_prefix_sum(s, k + 1);
        assert(s.subrange(0, k + 1).drop_last() =~= s.subrange(0, k));
    } else {
        assert(s.subrange(0, k) =~= s);
    }
}

/// Once `count` records have been taken, the rest of the list adds none
/// before them.
proof fn lemma_between_prefix(s: Seq<ResponseInfo>, i: int, lo: nat, hi: nat)
    requires
        0 <= i <= s.len(),
    ensures
        success_records_between(s.subrange(0, i), lo, hi).len() <= success_records_between(
            s,
            lo,
            hi,
        ).len(),
        success_records_between(s.subrange(0, i), lo, hi) =~= success_records_between(
            s,
            lo,
            hi,
        ).subrange(0, success_records_between(s.subrange(0, i), lo, hi).len() as int),
    decreases s.len() - i,
{
    if i < s.len() {
        lemma_between_prefix(s, i + 1, lo, hi);
        assert(s.subrange(0, i + 1).drop_last() =~= s.subrange(0, i));
    } else {
        assert(s.subrange(0, i) =~= s);
    }
}

/// What a test result holds; the counts and the request time are those of
/// the records.
pub struct TestResultView {
    pub name: Seq<char>,
    /// wall-clock duration of the whole run, in nanoseconds
    pub total_time: u64,
    /// sum of the elapsed times of the records, in nanoseconds
    pub request_time: nat,
    pub responses: Seq<ResponseInfo>,
    pub success_count: nat,
    pub failure_count: nat,
}

/// The durable unit of one test run. The counts are derived once, when it is
/// built, and always agree with the records.
pub struct TestResult {
    name: String,
    total_time: u64,
    request_time: u128,
    responses: Vec<ResponseInfo>,
    success_count: usize,
    failure_count: usize,
}

impl View for TestResult {
    type V = TestResultView;

    closed spec fn view(&self) -> TestResultView {
        TestResultView {
            name: self.name@,
            total_time: self.total_time,
            request_time: elapsed_sum(self.responses@),
            responses: self.responses@,
            success_count: successes(self.responses@),
            failure_count: failures(self.responses@),
        }
    }
}

proof fn lemma_counts_split(s: Seq<ResponseInfo>)
    ensures
        successes(s) + failures(s) == s.len(),
        successes(s) == success_records(s).len(),
        failures(s) == failure_records(s).len(),
    decreases s.len(),
{
    if s.len() > 0 {
        lemma_counts_split(s.drop_last());
    }
}

proof fn lemma_total_time_bound(s: Seq<ResponseInfo>)
    ensures
        elapsed_sum(s) <= s.len() * (u64::MAX as nat),
    decreases s.len(),
{
    if s.len() > 0 {
        lemma_total_time_bound(s.drop_last());
        assert((s.len() - 1) * (u64::MAX as nat) + u64::MAX == s.len() * (u64::MAX as nat))
            by (nonlinear_arith);
    }
}

impl TestResult {
    #[verifier::type_invariant]
    spec fn counts_agree(&self) -> bool {
        &&& self.success_count == successes(self.responses@)
        &&& self.failure_count == failures(self.responses@)
        &&& self.request_time == elapsed_sum(self.responses@)
    }

    /// Folds the records of a run, and the run's duration in nanoseconds,
    /// into a result.
    pub fn new(responses: Vec<ResponseInfo>, name: String, total_time: u64) -> (r: Self)
        ensures
            r@.name == name@,
            r@.total_time == total_time,
            r@.responses == responses@,
            r@.request_time == elapsed_sum(responses@),
            r@.success_count == successes(responses@),
            r@.failure_count == failures(responses@),
    {
        let mut success_count: usize = 0;
        let mut failure_count: usize = 0;
        let mut request_time: u128 = 0;
        let mut i: usize = 0;
        while i < responses.len()
            invariant
                i <= responses.len(),
                success_count == successes(responses@.subrange(0, i as int)),
                failure_count == failures(responses@.subrange(0, i as int)),
                request_time == elapsed_sum(responses@.subrange(0, i as int)),
            decreases responses.len() - i,
        {
            let ghost prefix = responses@.subrange(0, i as int);
            let ghost next = responses@.subrange(0, i + 1);
            proof {
                assert(next.drop_last() =~= prefix);
                lemma_counts_split(prefix);
                lemma_total_time_bound(prefix);
                assert(i * (u64::MAX as nat) <= usize::MAX * (u64::MAX as nat)) by (nonlinear_arith)
                    requires
                        i <= usize::MAX,
                ;
                assert(usize::MAX * (u64::MAX as nat) + u64::MAX <= u128::MAX) by (nonlinear_arith)
                    requires
                        usize::MAX <= u64::MAX,
                ;
            }
            if responses[i].status.is_success() {
                success_count = success_count + 1;
            } else {
                failure_count = failure_count + 1;
            }
            request_time = request_time + responses[i].time as u128;
            i = i + 1;
        }
        assert(responses@.subrange(0, i as int) =~= responses@);
        TestResult { name, total_time, request_time, responses, success_count, failure_count }
    }

    /// The success and failure counts together cover every record.
    pub proof fn lemma_counts_cover(result: &Self)
        ensures
            result@.success_count + result@.failure_count == result@.responses.len(),
            result@.success_count == success_records(result@.responses).len(),
            result@.failure_count == failure_records(result@.responses).len(),
    {
        lemma_counts_split(result@.responses);
    }

    /// The counts and the request time are those of the records.
    pub proof fn lemma_derived(result: &Self)
        ensures
            result@.success_count == successes(result@.responses),
            result@.failure_count == failures(result@.responses),
            result@.request_time == elapsed_sum(result@.responses),
    {
    }

    pub fn name(&self) -> (r: &String)
        ensures
            r@ == self@.name,
    {
        &self.name
    }

    /// Wall-clock duration of the whole run, in nanoseconds.
    pub fn total_time(&self) -> (r: u64)
        ensures
            r == self@.total_time,
    {
        self.total_time
    }

    /// Sum of the records' elapsed times, in nanoseconds.
    pub fn request_time(&self) -> (r: u128)
        ensures
            r == self@.request_time,
            r == elapsed_sum(self@.responses),
    {
        proof {
            use_type_invariant(self);
        }
        self.request_time
    }

    pub fn responses(&self) -> (r: &Vec<ResponseInfo>)
        ensures
            r@ == self@.responses,
    {
        &self.responses
    }

    pub fn success_count(&self) -> (r: usize)
        ensures
            r == self@.success_count,
            r == successes(self@.responses),
    {
        proof {
            use_type_invariant(self);
        }
        self.success_count
    }

    pub fn failure_count(&self) -> (r: usize)
        ensures
            r == self@.failure_count,
            r == failures(self@.responses),
    {
        proof {
            use_type_invariant(self);
        }
        self.failure_count
    }

    /// The successful records, in order.
    pub fn success_responses(&self) -> (r: Vec<&ResponseInfo>)
        ensures
            r@.map_values(|x: &ResponseInfo| *x) == success_records(self@.responses),
    {
        let mut out: Vec<&ResponseInfo> = Vec::new();
        let mut i: usize = 0;
        while i < self.responses.len()
            invariant
                i <= self.responses.len(),
                out@.map_values(|x: &ResponseInfo| *x) == success_records(self.responses@.subrange(0, i as int)),
            decreases self.responses.len() - i,
        {
            proof {
                assert(self.responses@.subrange(0, i + 1).drop_last() =~= self.responses@.subrange(
                    0,
                    i as int,
                ));
            }
            if self.responses[i].status.is_success() {
                out.push(&self.responses[i]);
            }
            i = i + 1;
        }
        assert(self.responses@.subrange(0, i as int) =~= self.responses@);
        out
    }

    /// The failed records, in order.
    pub fn failure_responses(&self) -> (r: Vec<&ResponseInfo>)
        ensures
            r@.map_values(|x: &ResponseInfo| *x) == failure_records(self@.responses),
    {
        let mut out: Vec<&ResponseInfo> = Vec::new();
        let mut i: usize = 0;
        while i < self.responses.len()
            invariant
                i <= self.responses.len(),
                out@.map_values(|x: &ResponseInfo| *x) == failure_records(self.responses@.subrange(0, i as int)),
            decreases self.responses.len() - i,
        {
            proof {
                assert(self.responses@.subrange(0, i + 1).drop_last() =~= self.responses@.subrange(
                    0,
                    i as int,
                ));
            }
            if !self.responses[i].status.is_success() {
                out.push(&self.responses[i]);
            }
            i = i + 1;
        }
        assert(self.responses@.subrange(0, i as int) =~= self.responses@);
        out
    }

    /// Sum of the successful records' elapsed times, in nanoseconds.
    pub fn success_total_time(&self) -> (r: u128)
        ensures
            r == elapsed_sum(success_records(self@.responses)),
    {
        proof {
            use_type_invariant(self);
        }
        let mut total: u128 = 0;
        let mut i: usize = 0;
        while i < self.responses.len()
            invariant
                i <= self.responses.len(),
                self.request_time == elapsed_sum(self.responses@),
                self.request_time <= u128::MAX,
                total == elapsed_sum(success_records(self.responses@.subrange(0, i as int))),
            decreases self.responses.len() - i,
        {
            let ghost p = self.responses@.subrange(0, i as int);
            let ghost q = self.responses@.subrange(0, i + 1);
            proof {
                assert(q.drop_last() =~= p);
                lemma_prefix_sum(self.responses@, i + 1);
                lemma_records_bound(q);
                if q.last().status is Success {
                    assert(success_records(q).drop_last() =~= success_records(p));
                }
            }
            if self.responses[i].status.is_success() {
                total = total + self.responses[i].time as u128;
            }
            i = i + 1;
        }
        assert(self.responses@.subrange(0, i as int) =~= self.responses@);
        total
    }

    /// Sum of the failed records' elapsed times, in nanoseconds.
    pub fn failure_total_time(&self) -> (r: u128)
        ensures
            r == elapsed_sum(failure_records(self@.responses)),
    {
        proof {
            use_type_invariant(self);
        }
        let mut total: u128 = 0;
        let mut i: usize = 0;
        while i < self.responses.len()
            invariant
                i <= self.responses.len(),
                self.request_time == elapsed_sum(self.responses@),
                self.request_time <= u128::MAX,
                total == elapsed_sum(failure_records(self.responses@.subrange(0, i as int))),
            decreases self.responses.len() - i,
        {
            let ghost p = self.responses@.subrange(0, i as int);
            let ghost q = self.responses@.subrange(0, i + 1);
            proof {
                assert(q.drop_last() =~= p);
                lemma_prefix_sum(self.responses@, i + 1);
                lemma_records_bound(q);
                if q.last().status is Failure {
                    assert(failure_records(q).drop_last() =~= failure_records(p));
                }
            }
            if !self.responses[i].status.is_success() {
                total = total + self.responses[i].time as u128;
            }
            i = i + 1;
        }
        assert(self.responses@.subrange(0, i as int) =~= self.responses@);
        total
    }

    /// Mean elapsed time of the successful records, rounded down to the
    /// nanosecond; none when no request succeeded.
    pub fn avg_success(&self) -> (r: Option<u64>)
        ensures
            r == mean(elapsed_sum(success_records(self@.responses)), self@.success_count),
    {
        let total = self.success_total_time();
        let n = self.success_count();
        if n == 0 {
            None
        } else {
            proof {
                lemma_records_bound(self@.responses);
                lemma_mean_fits(total as nat, n as nat);
            }
            Some((total / n as u128) as u64)
        }
    }

    /// Mean elapsed time of the failed records, rounded down to the
    /// nanosecond; none when no request failed.
    pub fn avg_failure(&self) -> (r: Option<u64>)
        ensures
            r == mean(elapsed_sum(failure_records(self@.responses)), self@.failure_count),
    {
        let total = self.failure_total_time();
        let n = self.failure_count();
        if n == 0 {
            None
        } else {
            proof {
                lemma_records_bound(self@.responses);
                lemma_mean_fits(total as nat, n as nat);
            }
            Some((total / n as u128) as u64)
        }
    }

    /// Requests per second over the whole run.
    pub fn requests_per_second(&self) -> (r: u64)
        ensures
            r == rate_per_second(self@.responses.len(), self@.total_time),
    {
        let count = self.responses.len() as u128;
        let nanos = self.total_time as u128;
        if nanos == 0 {
            if count == 0 {
                0
            } else {
                u64::MAX
            }
        } else {
            assert(count * 1_000_000_000 <= u128::MAX) by (nonlinear_arith)
                requires
                    count <= u64::MAX,
            ;
            let q = count * 1_000_000_000 / nanos;
            if q > u64::MAX as u128 {
                u64::MAX
            } else {
                q as u64
            }
        }
    }

    /// The one-paragraph summary: name, duration and rate, then the count and
    /// mean latency of successes and of failures (zero where there are none).
    pub fn report(&self) -> (r: String)
        ensures
            r@ == report_text(
                self@.name,
                self@.total_time,
                rate_per_second(self@.responses.len(), self@.total_time),
                self@.success_count,
                match mean(elapsed_sum(success_records(self@.responses)), self@.success_count) {
                    Some(m) => m,
                    None => 0,
                },
                self@.failure_count,
                match mean(elapsed_sum(failure_records(self@.responses)), self@.failure_count) {
                    Some(m) => m,
                    None => 0,
                },
            ),
    {
        let avg_success = match self.avg_success() {
            Some(m) => m,
            None => 0,
        };
        let avg_failure = match self.avg_failure() {
            Some(m) => m,
            None => 0,
        };
        format_report(
            &self.name,
            duration_text(self.total_time).as_str(),
            self.requests_per_second(),
            self.success_count() as u64,
            duration_text(avg_success).as_str(),
            self.failure_count() as u64,
            duration_text(avg_failure).as_str(),
        )
    }

    /// The successful records whose elapsed time lies strictly between
    /// `min_ms` and `max_ms` milliseconds, the first `count` of them.
    pub fn success_responses_between(&self, min_ms: u64, max_ms: u64, count: usize) -> (r: Vec<
        &ResponseInfo,
    >)
        ensures
            r@.map_values(|x: &ResponseInfo| *x) == ({
                let all = success_records_between(
                    self@.responses,
                    (min_ms * 1_000_000) as nat,
                    (max_ms * 1_000_000) as nat,
                );
                if all.len() <= count {
                    all
                } else {
                    all.subrange(0, count as int)
                }
            }),
    {
        let lo = min_ms as u128 * 1_000_000;
        let hi = max_ms as u128 * 1_000_000;
        let ghost all = success_records_between(self.responses@, lo as nat, hi as nat);
        let mut out: Vec<&ResponseInfo> = Vec::new();
        let mut i: usize = 0;
        while i < self.responses.len() && out.len() < count
            invariant
                i <= self.responses.len(),
                lo == min_ms * 1_000_000,
                hi == max_ms * 1_000_000,
                out@.len() <= count,
                out@.map_values(|x: &ResponseInfo| *x) == success_records_between(
                    self.responses@.subrange(0, i as int),
                    lo as nat,
                    hi as nat,
                ),
            decreases self.responses.len() - i,
        {
            proof {
                assert(self.responses@.subrange(0, i + 1).drop_last() =~= self.responses@.subrange(
                    0,
                    i as int,
                ));
            }
            let t = self.responses[i].time as u128;
            if self.responses[i].status.is_success() && lo < t && t < hi {
                out.push(&self.responses[i]);
            }
            i = i + 1;
        }
        proof {
            lemma_between_prefix(self.responses@, i as int, lo as nat, hi as nat);
            if out@.len() < count {
                assert(self.responses@.subrange(0, i as int) =~= self.responses@);
            }
        }
        out
    }

    /// The records' elapsed times in ascending order.
    pub fn sorted_times(&self) -> (r: Vec<u64>)
        ensures
            ascending(r@),
            r@.to_multiset() == times(self@.responses).to_multiset(),
    {
        let mut out: Vec<u64> = Vec::new();
        let mut i: usize = 0;
        while i < self.responses.len()
            invariant
                i <= self.responses.len(),
                out@ == times(self.responses@.subrange(0, i as int)),
            decreases self.responses.len() - i,
        {
            proof {
                assert(self.responses@.subrange(0, i + 1).drop_last() =~= self.responses@.subrange(
                    0,
                    i as int,
                ));
            }
            out.push(self.responses[i].time);
            i = i + 1;
        }
        assert(self.responses@.subrange(0, i as int) =~= self.responses@);
        sort_ascending(&mut out);
        out
    }

    /// The server-reported latencies, in milliseconds, of the records that
    /// carry one.
    pub fn server_latencies(&self) -> (r: Vec<u64>)
        ensures
            r@ == server_latencies(self@.responses),
    {
        let mut out: Vec<u64> = Vec::new();
        let mut i: usize = 0;
        while i < self.responses.len()
            invariant
                i <= self.responses.len(),
                out@ == server_latencies(self.responses@.subrange(0, i as int)),
            decreases self.responses.len() - i,
        {
            proof {
                assert(self.responses@.subrange(0, i + 1).drop_last() =~= self.responses@.subrange(
                    0,
                    i as int,
                ));
            }
            match self.responses[i].server_latency {
                Some(l) => out.push(l),
                None => {},
            }
            i = i + 1;
        }
        assert(self.responses@.subrange(0, i as int) =~= self.responses@);
        out
    }

    /// For the records that carry a server latency, the nanoseconds spent
    /// outside the server.
    pub fn infrastructure_latencies(&self) -> (r: Vec<u64>)
        ensures
            r@ == infrastructure_latencies(self@.responses),
    {
        let mut out: Vec<u64> = Vec::new();
        let mut i: usize = 0;
        while i < self.responses.len()
            invariant
                i <= self.responses.len(),
                out@ == infrastructure_latencies(self.responses@.subrange(0, i as int)),
            decreases self.responses.len() - i,
        {
            proof {
                assert(self.responses@.subrange(0, i + 1).drop_last() =~= self.responses@.subrange(
                    0,
                    i as int,
                ));
            }
            match self.responses[i].server_latency {
                Some(l) => {
                    let t = self.responses[i].time;
                    let server = l as u128 * 1_000_000;
                    if t as u128 >= server {
                        out.push((t as u128 - server) as u64);
                    } else {
                        out.push(0);
                    }
                },
                None => {},
            }
            i = i + 1;
        }
        assert(self.responses@.subrange(0, i as int) =~= self.responses@);
        out
    }

}

/// Where the `permille`-th quantile starts in `n_total` ascending values:
/// `n_total * permille / 1000`, rounded down.
pub fn percentile_index(n_total: usize, permille: u64) -> (r: usize)
    requires
        permille <= 1000,
    ensures
        r == n_total * permille / 1000,
{
    assert(n_total * permille <= u128::MAX) by (nonlinear_arith)
        requires
            n_total <= u64::MAX,
            permille <= 1000,
    ;
    assert(n_total * permille / 1000 <= n_total) by (nonlinear_arith)
        requires
            permille <= 1000,
    ;
    (n_total as u128 * permille as u128 / 1000) as usize
}

} // verus!
