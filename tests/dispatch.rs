use spam_can::dispatch::{Dispatcher, Step, WINDOW_NANOS};
use spam_can::{Cancellation, ResponseInfo, TestResult};

#[test]
fn five_requests_two_at_a_time_all_succeed() {
    let mut d = Dispatcher::new(5, 2, 1000);
    let mut responses = Vec::new();
    let mut in_flight = 0usize;
    let mut now = 0u64;
    loop {
        match d.poll(now, false) {
            Step::Issue => {
                in_flight += 1;
                assert!(in_flight <= 2);
            }
            Step::AwaitCompletion => {
                d.complete();
                in_flight -= 1;
                responses.push(ResponseInfo::success(1_000, None, Vec::new()));
            }
            Step::WaitUntil(t) => now = t,
            Step::Done => break,
        }
        now += 1;
    }
    let result = TestResult::new(responses, "five".to_string(), now);
    assert_eq!(result.responses().len(), 5);
    assert_eq!(result.success_count(), 5);
    assert_eq!(result.failure_count(), 0);
    assert_eq!(d.issued(), 5);
    assert_eq!(d.completed(), 5);
}

#[test]
fn concurrency_limit_holds_back_the_third_request() {
    let mut d = Dispatcher::new(10, 2, 100);
    assert_eq!(d.poll(0, false), Step::Issue);
    assert_eq!(d.poll(1, false), Step::Issue);
    assert_eq!(d.poll(2, false), Step::AwaitCompletion);
    assert_eq!(d.in_flight(), 2);
    d.complete();
    assert_eq!(d.poll(3, false), Step::Issue);
    assert_eq!(d.in_flight(), 2);
}

#[test]
fn rate_limit_waits_for_the_window_to_roll() {
    let mut d = Dispatcher::new(10, 10, 2);
    assert_eq!(d.poll(100, false), Step::Issue);
    assert_eq!(d.poll(200, false), Step::Issue);
    assert_eq!(d.poll(300, false), Step::WaitUntil(100 + WINDOW_NANOS));
    assert_eq!(d.poll(99 + WINDOW_NANOS, false), Step::WaitUntil(100 + WINDOW_NANOS));
    assert_eq!(d.poll(100 + WINDOW_NANOS, false), Step::Issue);
    assert_eq!(d.poll(100 + WINDOW_NANOS, false), Step::WaitUntil(200 + WINDOW_NANOS));
    assert_eq!(d.issued(), 3);
}

#[test]
fn no_one_second_window_admits_more_than_the_rate() {
    let rate = 3usize;
    let mut d = Dispatcher::new(20, 20, rate);
    let mut admitted: Vec<u64> = Vec::new();
    let mut now = 0u64;
    while admitted.len() < 20 {
        match d.poll(now, false) {
            Step::Issue => admitted.push(now),
            Step::WaitUntil(t) => now = t,
            Step::AwaitCompletion => d.complete(),
            Step::Done => break,
        }
        now += 7_000_000;
    }
    assert_eq!(admitted.len(), 20);
    for &start in &admitted {
        let in_window = admitted
            .iter()
            .filter(|&&t| t >= start && t < start + WINDOW_NANOS)
            .count();
        assert!(in_window <= rate);
    }
}

#[test]
fn cancellation_after_three_admissions_yields_three() {
    let mut d = Dispatcher::new(10, 10, 1000);
    for t in 0..3u64 {
        assert_eq!(d.poll(t, false), Step::Issue);
    }
    assert_eq!(d.poll(10, true), Step::AwaitCompletion);
    assert_eq!(d.poll(11, false), Step::AwaitCompletion);
    d.complete();
    d.complete();
    assert_eq!(d.poll(12, false), Step::AwaitCompletion);
    d.complete();
    assert_eq!(d.poll(13, false), Step::Done);
    assert_eq!(d.issued(), 3);
    assert_eq!(d.completed(), 3);
}

#[test]
fn zero_requests_is_done_at_once() {
    let mut d = Dispatcher::new(0, 1, 1);
    assert_eq!(d.poll(0, false), Step::Done);
    assert_eq!(d.issued(), 0);
}

#[test]
fn cancellation_signal_is_shared_by_clones() {
    let c = Cancellation::new();
    assert!(!c.is_canceled());
    let watcher = c.clone();
    watcher.cancel();
    assert!(c.is_canceled());
}
