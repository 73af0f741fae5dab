//! The dispatch pipeline's decisions: a counter-gated source of work items
//! behind a concurrency limit and a rolling-window rate limit, stopped for
//! good by the cancellation signal.
//!
//! A driver owns one `Dispatcher` per test run. It asks `poll` what to do
//! now, starts a request on `Step::Issue`, reports each finished request
//! with `complete`, and stops on `Step::Done`.
use vstd::prelude::*;

verus! {

/// Length of the rate limiter's rolling window: one second, in nanoseconds.
pub const WINDOW_NANOS: u64 = 1_000_000_000;

/// How many admission times of `adm` fall in the window `(lo, hi]`.
#[verifier::opaque]
pub open spec fn admitted_between(adm: Seq<u64>, lo: int, hi: int) -> nat
    decreases adm.len(),
{
    if adm.len() == 0 {
        0
    } else {
        admitted_between(adm.drop_last(), lo, hi) + if lo < adm.last() <= hi {
            1nat
        } else {
            0nat
        }
    }
}

/// What the driver is to do next.
#[derive(Debug, PartialEq, Eq)]
pub enum Step {
    /// start one request now
    Issue,
    /// the rate limit is reached: nothing may start before this time
    WaitUntil(u64),
    /// nothing may start before an in-flight request completes
    AwaitCompletion,
    /// no request is in flight and none will start
    Done,
}

/// The abstract state of a run.
pub struct DispatchView {
    /// requests the run is to make
    pub count: nat,
    pub max_concurrent: nat,
    pub max_rps: nat,
    /// requests started so far
    pub issued: nat,
    /// requests finished so far
    pub completed: nat,
    /// the source will hand out no more work
    pub closed: bool,
    /// the cancellation signal was observed
    pub canceled: bool,
    /// the time of each admission, in order
    pub admissions: Seq<u64>,
    /// the latest time seen
    pub clock: u64,
}

impl DispatchView {
    pub open spec fn in_flight(self) -> int {
        self.issued - self.completed
    }

    /// What holds of every state of a run.
    pub open spec fn inv(self) -> bool {
        &&& self.max_concurrent >= 1
        &&& self.max_rps >= 1
        &&& self.completed <= self.issued <= self.count
        &&& self.in_flight() <= self.max_concurrent
        &&& self.admissions.len() == self.issued
        &&& forall|i: int, j: int|
            0 <= i <= j < self.admissions.len() ==> self.admissions[i] <= self.admissions[j]
        &&& forall|i: int| 0 <= i < self.admissions.len() ==> self.admissions[i] <= self.clock
        &&& forall|lo: int| #[trigger]
            admitted_between(self.admissions, lo, lo + WINDOW_NANOS) <= self.max_rps
        &&& self.closed ==> (self.issued == self.count || self.canceled)
        &&& self.canceled ==> self.closed
    }

    /// The state at the start of a run.
    pub open spec fn initial(count: nat, max_concurrent: nat, max_rps: nat) -> DispatchView {
        DispatchView {
            count,
            max_concurrent,
            max_rps,
            issued: 0,
            completed: 0,
            closed: false,
            canceled: false,
            admissions: Seq::empty(),
            clock: 0,
        }
    }

    /// A poll at time `now` may be made.
    pub open spec fn can_poll(self, now: u64) -> bool {
        self.clock <= now <= u64::MAX - WINDOW_NANOS
    }

    /// Whether the source is closed once a poll has seen `canceled`.
    pub open spec fn closes(self, canceled: bool) -> bool {
        self.closed || canceled || self.issued == self.count
    }

    /// The answer to a poll at time `now` that saw the signal as `canceled`.
    pub open spec fn poll_step(self, now: u64, canceled: bool) -> Step {
        if self.closes(canceled) {
            if self.in_flight() == 0 {
                Step::Done
            } else {
                Step::AwaitCompletion
            }
        } else if self.in_flight() >= self.max_concurrent {
            Step::AwaitCompletion
        } else if admitted_between(self.admissions, now - WINDOW_NANOS, now as int)
            >= self.max_rps {
            Step::WaitUntil(self.wake_time(now))
        } else {
            Step::Issue
        }
    }

    /// When the oldest admission of the window that ends at `now` leaves it.
    pub open spec fn wake_time(self, now: u64) -> u64 {
        let k = choose|k: int|
            0 <= k < self.admissions.len() && now - WINDOW_NANOS < #[trigger] self.admissions[k] && (k == 0
                || self.admissions[k - 1] + WINDOW_NANOS <= now);
        (self.admissions[k] + WINDOW_NANOS) as u64
    }

    /// The state after a poll at time `now` that saw the signal as `canceled`.
    pub open spec fn after_poll(self, now: u64, canceled: bool) -> DispatchView {
        let issue = self.poll_step(now, canceled) is Issue;
        DispatchView {
            issued: if issue {
                self.issued + 1
            } else {
                self.issued
            },
            closed: self.closes(canceled),
            canceled: self.canceled || canceled,
            admissions: if issue {
                self.admissions.push(now)
            } else {
                self.admissions
            },
            clock: now,
            ..self
        }
    }

    /// The state after one in-flight request has finished.
    pub open spec fn after_complete(self) -> DispatchView {
        DispatchView { completed: self.completed + 1, ..self }
    }
}

/// One event of a run, as the driver reports it.
pub enum DispatchEvent {
    Poll { now: u64, canceled: bool },
    Complete,
}

/// The event may happen in state `v`.
pub open spec fn event_allowed(v: DispatchView, e: DispatchEvent) -> bool {
    match e {
        DispatchEvent::Poll { now, canceled } => v.can_poll(now),
        DispatchEvent::Complete => v.in_flight() > 0,
    }
}

pub open spec fn after_event(v: DispatchView, e: DispatchEvent) -> DispatchView {
    match e {
        DispatchEvent::Poll { now, canceled } => v.after_poll(now, canceled),
        DispatchEvent::Complete => v.after_complete(),
    }
}

/// Every event of `events` may happen when it comes.
pub open spec fn run_allowed(v: DispatchView, events: Seq<DispatchEvent>) -> bool
    decreases events.len(),
{
    events.len() == 0 || (event_allowed(v, events[0]) && run_allowed(
        after_event(v, events[0]),
        events.drop_first(),
    ))
}

/// The state after the events of `events`, in order.
pub open spec fn run(v: DispatchView, events: Seq<DispatchEvent>) -> DispatchView
    decreases events.len(),
{
    if events.len() == 0 {
        v
    } else {
        run(after_event(v, events[0]), events.drop_first())
    }
}

/// The decisions of one run. The driver reports the time as nanoseconds
/// since any fixed start that does not move backwards.
pub struct Dispatcher {
    count: usize,
    max_concurrent: usize,
    max_rps: usize,
    issued: usize,
    completed: usize,
    closed: bool,
    canceled: bool,
    clock: u64,
    /// the admissions still inside the window that ends at `clock`
    window: Vec<u64>,
    admissions: Ghost<Seq<u64>>,
}

impl View for Dispatcher {
    type V = DispatchView;

    closed spec fn view(&self) -> DispatchView {
        DispatchView {
            count: self.count as nat,
            max_concurrent: self.max_concurrent as nat,
            max_rps: self.max_rps as nat,
            issued: self.issued as nat,
            completed: self.completed as nat,
            closed: self.closed,
            canceled: self.canceled,
            admissions: self.admissions@,
            clock: self.clock,
        }
    }
}

/// Drops the admissions that have left the window ending at `now`; returns
/// how many left.
fn prune(window: &mut Vec<u64>, now: u64) -> (removed: usize)
    requires
        forall|i: int, j: int| 0 <= i <= j < old(window).len() ==> old(window)[i] <= old(window)[j],
        forall|i: int| 0 <= i < old(window).len() ==> old(window)[i] <= now,
        now <= u64::MAX - WINDOW_NANOS,
    ensures
        removed <= old(window).len(),
        final(window)@ == old(window)@.subrange(removed as int, old(window).len() as int),
        forall|i: int| 0 <= i < removed ==> old(window)[i] + WINDOW_NANOS <= now,
        forall|i: int|
            removed <= i < old(window).len() ==> now < old(window)[i] + WINDOW_NANOS,
{
    let ghost orig = window@;
    let len0 = window.len();
    let mut removed: usize = 0;
    while window.len() > 0 && window[0] + WINDOW_NANOS <= now
        invariant
            removed <= orig.len(),
            orig.len() == len0,
            window@ == orig.subrange(removed as int, orig.len() as int),
            forall|i: int| 0 <= i < removed ==> orig[i] + WINDOW_NANOS <= now,
            forall|i: int, j: int| 0 <= i <= j < orig.len() ==> orig[i] <= orig[j],
            forall|i: int| 0 <= i < orig.len() ==> orig[i] <= now,
            now <= u64::MAX - WINDOW_NANOS,
        decreases window.len(),
    {
        assert(window@.len() == orig.len() - removed);
        window.remove(0);
        assert(window@ =~= orig.subrange(removed + 1, orig.len() as int));
        removed = removed + 1;
    }
    proof {
        if removed < orig.len() {
            assert(window@[0] == orig[removed as int]);
        }
    }
    removed
}

impl Dispatcher {
    /// The representation matches the state: the window holds exactly the
    /// admissions that have not left it.
    pub closed spec fn wf(&self) -> bool {
        let adm = self.admissions@;
        let n = adm.len();
        let m = self.window@.len();
        &&& self@.inv()
        &&& m <= n
        &&& self.window@ == adm.subrange(n - m, n as int)
        &&& forall|i: int| 0 <= i < n - m ==> #[trigger] adm[i] + WINDOW_NANOS <= self.clock
    }

    /// A run of `count` requests, at most `max_concurrent` in flight at once
    /// and at most `max_rps` admitted in any one second.
    pub fn new(count: usize, max_concurrent: usize, max_rps: usize) -> (r: Dispatcher)
        requires
            max_concurrent >= 1,
            max_rps >= 1,
        ensures
            r.wf(),
            r@ == DispatchView::initial(count as nat, max_concurrent as nat, max_rps as nat),
    {
        let r = Dispatcher {
            count,
            max_concurrent,
            max_rps,
            issued: 0,
            completed: 0,
            closed: false,
            canceled: false,
            clock: 0,
            window: Vec::new(),
            admissions: Ghost(Seq::empty()),
        };
        proof {
            lemma_initial_inv(count as nat, max_concurrent as nat, max_rps as nat);
            assert(r.window@ =~= r.admissions@.subrange(0, 0));
        }
        r
    }

    /// Decides what to do at time `now`; `canceled` is the cancellation
    /// signal as read just before. On `Step::Issue` the request counts as
    /// started.
    #[verifier::spinoff_prover]
    #[verifier::rlimit(50)]
    pub fn poll(&mut self, now: u64, canceled: bool) -> (r: Step)
        requires
            old(self).wf(),
            old(self)@.can_poll(now),
        ensures
            final(self).wf(),
            final(self)@ == old(self)@.after_poll(now, canceled),
            r == old(self)@.poll_step(now, canceled),
    {
        let ghost v = self@;
        let ghost adm = self.admissions@;
        let ghost before = self.window@;
        proof {
            lemma_inv_window(v, before);
        }
        let closes = self.closed || canceled || self.issued == self.count;
        self.closed = closes;
        self.canceled = self.canceled || canceled;
        self.clock = now;
        let removed = prune(&mut self.window, now);
        let ghost start = adm.len() - before.len() + removed;
        proof {
            lemma_window_count(adm, before, removed as int, v.clock, now);
        }
        let in_flight = self.issued - self.completed;
        let r = if closes {
            if in_flight == 0 {
                Step::Done
            } else {
                Step::AwaitCompletion
            }
        } else if in_flight >= self.max_concurrent {
            Step::AwaitCompletion
        } else if self.window.len() >= self.max_rps {
            proof {
                assert(adm[start] == self.window@[0]);
                lemma_wake_time_is(v, now, start);
            }
            Step::WaitUntil(self.window[0] + WINDOW_NANOS)
        } else {
            self.issued = self.issued + 1;
            self.window.push(now);
            self.admissions = Ghost(adm.push(now));
            proof {
                assert(self.window@ =~= self.admissions@.subrange(
                    self.admissions@.len() - self.window@.len(),
                    self.admissions@.len() as int,
                ));
            }
            Step::Issue
        };
        proof {
            assert(r == v.poll_step(now, canceled));
            lemma_poll_keeps_inv(v, now, canceled);
            assert(self@ =~= v.after_poll(now, canceled));
            let adm2 = self.admissions@;
            assert(self.window@ == adm2.subrange(adm2.len() - self.window@.len(), adm2.len() as int));
            assert(adm2.len() - self.window@.len() == start);
            assert forall|i: int| 0 <= i < start implies #[trigger] adm2[i] + WINDOW_NANOS <= self.clock by {
                assert(adm2[i] == adm[i]);
            }
        }
        r
    }

    /// One in-flight request has finished.
    pub fn complete(&mut self)
        requires
            old(self).wf(),
            old(self)@.in_flight() > 0,
        ensures
            final(self).wf(),
            final(self)@ == old(self)@.after_complete(),
    {
        self.completed = self.completed + 1;
    }

    /// Requests started so far.
    pub fn issued(&self) -> (r: usize)
        ensures
            r == self@.issued,
    {
        self.issued
    }

    /// Requests finished so far.
    pub fn completed(&self) -> (r: usize)
        ensures
            r == self@.completed,
    {
        self.completed
    }

    /// Requests started and not yet finished.
    pub fn in_flight(&self) -> (r: usize)
        requires
            self.wf(),
        ensures
            r == self@.in_flight(),
    {
        self.issued - self.completed
    }
}

// ---- counting admissions ----
proof fn lemma_count_append(s1: Seq<u64>, s2: Seq<u64>, lo: int, hi: int)
    ensures
        admitted_between(s1 + s2, lo, hi) == admitted_between(s1, lo, hi) + admitted_between(
            s2,
            lo,
            hi,
        ),
    decreases s2.len(),
{
    reveal(admitted_between);
    if s2.len() == 0 {
        assert(s1 + s2 =~= s1);
    } else {
        assert((s1 + s2).drop_last() =~= s1 + s2.drop_last());
        lemma_count_append(s1, s2.drop_last(), lo, hi);
    }
}

proof fn lemma_count_push(s: Seq<u64>, x: u64, lo: int, hi: int)
    ensures
        admitted_between(s.push(x), lo, hi) == admitted_between(s, lo, hi) + if lo < x <= hi {
            1nat
        } else {
            0nat
        },
{
    reveal(admitted_between);
    assert(s.push(x).drop_last() =~= s);
}

proof fn lemma_count_all(s: Seq<u64>, lo: int, hi: int)
    requires
        forall|i: int| 0 <= i < s.len() ==> lo < #[trigger] s[i] <= hi,
    ensures
        admitted_between(s, lo, hi) == s.len(),
    decreases s.len(),
{
    reveal(admitted_between);
    if s.len() > 0 {
        lemma_count_all(s.drop_last(), lo, hi);
    }
}

proof fn lemma_count_none(s: Seq<u64>, lo: int, hi: int)
    requires
        forall|i: int| 0 <= i < s.len() ==> !(lo < #[trigger] s[i] <= hi),
    ensures
        admitted_between(s, lo, hi) == 0,
    decreases s.len(),
{
    reveal(admitted_between);
    if s.len() > 0 {
        lemma_count_none(s.drop_last(), lo, hi);
    }
}

/// A window that holds fewer of the admissions counts no more of them.
proof fn lemma_count_mono(s: Seq<u64>, lo1: int, hi1: int, lo2: int, hi2: int)
    requires
        forall|i: int| 0 <= i < s.len() && lo2 < #[trigger] s[i] <= hi2 ==> lo1 < s[i] <= hi1,
    ensures
        admitted_between(s, lo2, hi2) <= admitted_between(s, lo1, hi1),
    decreases s.len(),
{
    reveal(admitted_between);
    if s.len() > 0 {
        lemma_count_mono(s.drop_last(), lo1, hi1, lo2, hi2);
    }
}

/// As above, with one admission that only the larger window holds.
proof fn lemma_count_mono_strict(s: Seq<u64>, lo1: int, hi1: int, lo2: int, hi2: int, k: int)
    requires
        forall|i: int| 0 <= i < s.len() && lo2 < #[trigger] s[i] <= hi2 ==> lo1 < s[i] <= hi1,
        0 <= k < s.len(),
        lo1 < s[k] <= hi1,
        !(lo2 < s[k] <= hi2),
    ensures
        admitted_between(s, lo2, hi2) < admitted_between(s, lo1, hi1),
    decreases s.len(),
{
    reveal(admitted_between);
    if k == s.len() - 1 {
        lemma_count_mono(s.drop_last(), lo1, hi1, lo2, hi2);
    } else {
        lemma_count_mono_strict(s.drop_last(), lo1, hi1, lo2, hi2, k);
    }
}

/// After pruning, the window holds every admission of the window that ends
/// at `now`, and nothing else.
proof fn lemma_window_count(adm: Seq<u64>, before: Seq<u64>, removed: int, clock: u64, now: u64)
    requires
        before.len() <= adm.len(),
        before == adm.subrange(adm.len() - before.len(), adm.len() as int),
        forall|i: int| 0 <= i < adm.len() - before.len() ==> #[trigger] adm[i] + WINDOW_NANOS <= clock,
        forall|i: int| 0 <= i < adm.len() ==> #[trigger] adm[i] <= clock,
        clock <= now,
        0 <= removed <= before.len(),
        forall|i: int| 0 <= i < removed ==> #[trigger] before[i] + WINDOW_NANOS <= now,
        forall|i: int| removed <= i < before.len() ==> now < #[trigger] before[i] + WINDOW_NANOS,
    ensures
        admitted_between(adm, now - WINDOW_NANOS, now as int) == before.len() - removed,
        forall|i: int|
            0 <= i < adm.len() - before.len() + removed ==> #[trigger] adm[i] + WINDOW_NANOS <= now,
{
    let lo = now - WINDOW_NANOS;
    let start = adm.len() - before.len() + removed;
    let pre = adm.subrange(0, start);
    let rest = adm.subrange(start, adm.len() as int);
    assert forall|i: int| 0 <= i < start implies #[trigger] adm[i] + WINDOW_NANOS <= now by {
        if i >= adm.len() - before.len() {
            assert(adm[i] == before[i - (adm.len() - before.len())]);
        }
    }
    assert forall|i: int| 0 <= i < pre.len() implies !(lo < #[trigger] pre[i] <= now) by {
        assert(pre[i] == adm[i]);
    }
    assert forall|i: int| 0 <= i < rest.len() implies lo < #[trigger] rest[i] <= now by {
        assert(rest[i] == adm[start + i]);
        assert(rest[i] == before[removed + i]);
    }
    assert(adm =~= pre + rest);
    lemma_count_none(pre, lo, now as int);
    lemma_count_all(rest, lo, now as int);
    lemma_count_append(pre, rest, lo, now as int);
}

/// The first admission still inside the window gives the wake time.
proof fn lemma_wake_time_is(v: DispatchView, now: u64, start: int)
    requires
        v.inv(),
        v.can_poll(now),
        0 <= start < v.admissions.len(),
        now - WINDOW_NANOS < v.admissions[start],
        start == 0 || v.admissions[start - 1] + WINDOW_NANOS <= now,
    ensures
        v.wake_time(now) == v.admissions[start] + WINDOW_NANOS,
{
    let adm = v.admissions;
    let lo = now - WINDOW_NANOS;
    let k = choose|k: int|
        0 <= k < adm.len() && lo < #[trigger] adm[k] && (k == 0 || adm[k - 1] + WINDOW_NANOS
            <= now);
    assert(0 <= start < adm.len() && lo < adm[start] && (start == 0 || adm[start - 1]
        + WINDOW_NANOS <= now));
    if k < start {
        assert(adm[k] <= adm[start - 1]);
    } else if k > start {
        assert(adm[start] <= adm[k - 1]);
    }
}

proof fn lemma_inv_window(v: DispatchView, window: Seq<u64>)
    requires
        v.inv(),
        window.len() <= v.admissions.len(),
        window == v.admissions.subrange(
            v.admissions.len() - window.len(),
            v.admissions.len() as int,
        ),
    ensures
        forall|i: int, j: int| 0 <= i <= j < window.len() ==> window[i] <= window[j],
        forall|i: int| 0 <= i < window.len() ==> window[i] <= v.clock,
{
    let off = v.admissions.len() - window.len();
    assert forall|i: int, j: int| 0 <= i <= j < window.len() implies window[i] <= window[j] by {
        assert(window[i] == v.admissions[off + i]);
        assert(window[j] == v.admissions[off + j]);
    }
    assert forall|i: int| 0 <= i < window.len() implies window[i] <= v.clock by {
        assert(window[i] == v.admissions[off + i]);
    }
}

// ---- the abstract steps keep the invariant ----
/// When the rate limit holds a request back, the wake time lies ahead, and
/// at the wake time the limiter has room again.
pub proof fn lemma_wake_time_makes_room(v: DispatchView, now: u64)
    requires
        v.inv(),
        v.can_poll(now),
        admitted_between(v.admissions, now - WINDOW_NANOS, now as int) >= v.max_rps,
    ensures
        now < v.wake_time(now),
        admitted_between(
            v.admissions,
            v.wake_time(now) - WINDOW_NANOS,
            v.wake_time(now) as int,
        ) < v.max_rps,
{
    let adm = v.admissions;
    let lo = now - WINDOW_NANOS;
    assert(exists|k: int| 0 <= k < adm.len() && lo < adm[k]) by {
        if forall|k: int| 0 <= k < adm.len() ==> !(lo < #[trigger] adm[k]) {
            lemma_count_none(adm, lo, now as int);
        }
    }
    lemma_first_above(adm, lo);
    let first = choose|k: int|
        0 <= k < adm.len() && lo < #[trigger] adm[k] && forall|j: int| 0 <= j < k ==> !(lo < #[trigger] adm[j]);
    if first > 0 {
        assert(!(lo < adm[first - 1]));
    }
    // the first admission inside the window
    let k = choose|k: int|
        0 <= k < adm.len() && lo < #[trigger] adm[k] && (k == 0 || adm[k - 1] + WINDOW_NANOS <= now);
    let t = adm[k] + WINDOW_NANOS;
    assert(v.wake_time(now) == t);
    lemma_count_mono_strict(adm, lo, now as int, t - WINDOW_NANOS, t, k);
    assert(admitted_between(adm, lo, lo + WINDOW_NANOS) <= v.max_rps);
}

proof fn lemma_first_above(s: Seq<u64>, lo: int)
    requires
        exists|k: int| 0 <= k < s.len() && lo < s[k],
    ensures
        exists|k: int|
            0 <= k < s.len() && lo < s[k] && forall|j: int| 0 <= j < k ==> !(lo < #[trigger] s[j]),
    decreases s.len(),
{
    if lo < s[0] {
        assert(forall|j: int| 0 <= j < 0 ==> !(lo < #[trigger] s[j]));
    } else {
        let k = choose|k: int| 0 <= k < s.len() && lo < s[k];
        assert(lo < s.drop_first()[k - 1]);
        lemma_first_above(s.drop_first(), lo);
        let k2 = choose|k2: int|
            0 <= k2 < s.drop_first().len() && lo < s.drop_first()[k2] && forall|j: int|
                0 <= j < k2 ==> !(lo < #[trigger] s.drop_first()[j]);
        assert forall|j: int| 0 <= j < k2 + 1 implies !(lo < #[trigger] s[j]) by {
            if j > 0 {
                assert(s[j] == s.drop_first()[j - 1]);
            }
        }
    }
}

#[verifier::spinoff_prover]
proof fn lemma_poll_keeps_inv(v: DispatchView, now: u64, canceled: bool)
    requires
        v.inv(),
        v.can_poll(now),
    ensures
        v.after_poll(now, canceled).inv(),
{
    let w = v.after_poll(now, canceled);
    let adm = v.admissions;
    if v.poll_step(now, canceled) is Issue {
        let adm2 = adm.push(now);
        assert(w.admissions == adm2);
        assert forall|lo: int| #[trigger]
            admitted_between(adm2, lo, lo + WINDOW_NANOS) <= v.max_rps by {
            lemma_count_push(adm, now, lo, lo + WINDOW_NANOS);
            assert(admitted_between(adm, lo, lo + WINDOW_NANOS) <= v.max_rps);
            if lo < now <= lo + WINDOW_NANOS {
                lemma_count_mono(adm, now - WINDOW_NANOS, now as int, lo, lo + WINDOW_NANOS);
            }
        }
        assert forall|i: int, j: int| 0 <= i <= j < adm2.len() implies adm2[i] <= adm2[j] by {
            if j < adm.len() {
                assert(adm[i] <= adm[j]);
            }
        }
        assert(w.inv());
    } else {
        assert(w.admissions == adm);
        assert(w.inv());
    }
}

proof fn lemma_event_keeps_inv(v: DispatchView, e: DispatchEvent)
    requires
        v.inv(),
        event_allowed(v, e),
    ensures
        after_event(v, e).inv(),
{
    match e {
        DispatchEvent::Poll { now, canceled } => lemma_poll_keeps_inv(v, now, canceled),
        DispatchEvent::Complete => {},
    }
}

// ---- laws ----
/// Every state reached by allowed events keeps the invariant: at most
/// `max_concurrent` requests are in flight at once, and no window of one
/// second holds more than `max_rps` admissions.
pub proof fn lemma_run_keeps_limits(v: DispatchView, events: Seq<DispatchEvent>, lo: int)
    requires
        v.inv(),
        run_allowed(v, events),
    ensures
        run(v, events).inv(),
        run(v, events).in_flight() <= run(v, events).max_concurrent,
        admitted_between(run(v, events).admissions, lo, lo + WINDOW_NANOS) <= run(
            v,
            events,
        ).max_rps,
    decreases events.len(),
{
    if events.len() > 0 {
        lemma_event_keeps_inv(v, events[0]);
        lemma_run_keeps_limits(after_event(v, events[0]), events.drop_first(), lo);
    }
}

/// A run whose polls never saw the cancellation signal ends, once the source
/// is closed and nothing is in flight, with exactly `count` completed
/// requests.
pub proof fn lemma_uncanceled_run_completes_all(v: DispatchView)
    requires
        v.inv(),
        !v.canceled,
        v.closed,
        v.in_flight() == 0,
    ensures
        v.completed == v.count,
{
}

/// A poll that never saw the cancellation signal answers `Done` only once
/// exactly `count` requests have been issued and completed.
pub proof fn lemma_done_means_all_completed(v: DispatchView, now: u64)
    requires
        v.inv(),
        !v.canceled,
        v.poll_step(now, false) == Step::Done,
    ensures
        v.issued == v.count,
        v.completed == v.count,
        v.after_poll(now, false).completed == v.count,
{
}

/// A poll never makes the driver wait on nothing: it asks to await a
/// completion only while a request is in flight.
pub proof fn lemma_await_has_work(v: DispatchView, now: u64, canceled: bool)
    requires
        v.inv(),
        v.poll_step(now, canceled) == Step::AwaitCompletion,
    ensures
        v.in_flight() > 0,
{
}

/// After a poll has seen the cancellation signal, no further request starts:
/// the `issued` requests of that moment are all the run will ever make, and
/// once they have drained the run has completed exactly that many.
pub proof fn lemma_cancel_stops_admission(v: DispatchView, now: u64, events: Seq<DispatchEvent>)
    requires
        v.inv(),
        v.can_poll(now),
        run_allowed(v.after_poll(now, true), events),
    ensures
        v.poll_step(now, true) != Step::Issue,
        run(v.after_poll(now, true), events).issued == v.issued,
        run(v.after_poll(now, true), events).in_flight() == 0 ==> run(
            v.after_poll(now, true),
            events,
        ).completed == v.issued,
{
    lemma_closed_run_issues_nothing(v.after_poll(now, true), events);
}

proof fn lemma_closed_run_issues_nothing(v: DispatchView, events: Seq<DispatchEvent>)
    requires
        v.closed,
        run_allowed(v, events),
    ensures
        run(v, events).issued == v.issued,
        run(v, events).closed,
    decreases events.len(),
{
    if events.len() > 0 {
        lemma_closed_run_issues_nothing(after_event(v, events[0]), events.drop_first());
    }
}

/// The initial state meets the invariant.
pub proof fn lemma_initial_inv(count: nat, max_concurrent: nat, max_rps: nat)
    requires
        max_concurrent >= 1,
        max_rps >= 1,
    ensures
        DispatchView::initial(count, max_concurrent, max_rps).inv(),
{
    reveal(admitted_between);
}

} // verus!
