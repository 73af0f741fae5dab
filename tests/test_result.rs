use spam_can::test_result::{format_report, percentile_index};
use spam_can::{ResponseInfo, Status, TestResult};
use std::time::Duration;

fn ok(ns: u64) -> ResponseInfo {
    ResponseInfo::success(ns, None, vec![])
}

fn fail(ns: u64) -> ResponseInfo {
    ResponseInfo::error(ns, "boom".to_string(), None, None)
}

#[test]
fn counts_cover_every_record() {
    let r = TestResult::new(vec![ok(1), fail(2), ok(3), fail(4), fail(5)], "t".to_string(), 10);
    assert_eq!(r.success_count(), 2);
    assert_eq!(r.failure_count(), 3);
    assert_eq!(r.success_count() + r.failure_count(), r.responses().len());
    assert_eq!(r.request_time(), 15);
    assert_eq!(r.success_responses().len(), 2);
    assert_eq!(r.failure_responses().iter().map(|x| x.time).collect::<Vec<_>>(), vec![2, 4, 5]);
}

#[test]
fn empty_result_has_no_averages() {
    let r = TestResult::new(vec![], "empty".to_string(), 0);
    assert_eq!(r.success_count(), 0);
    assert_eq!(r.failure_count(), 0);
    assert_eq!(r.avg_success(), None);
    assert_eq!(r.avg_failure(), None);
    assert_eq!(r.requests_per_second(), 0);
}

#[test]
fn averages_round_down() {
    let r = TestResult::new(vec![ok(1), ok(2), fail(7)], "t".to_string(), 1);
    assert_eq!(r.success_total_time(), 3);
    assert_eq!(r.failure_total_time(), 7);
    assert_eq!(r.avg_success(), Some(1));
    assert_eq!(r.avg_failure(), Some(7));
}

#[test]
fn large_times_sum_without_overflow() {
    let r = TestResult::new(vec![ok(u64::MAX), ok(u64::MAX)], "big".to_string(), 1);
    assert_eq!(r.request_time(), 2 * u64::MAX as u128);
    assert_eq!(r.avg_success(), Some(u64::MAX));
}

#[test]
fn rate_is_requests_per_second() {
    let r = TestResult::new(vec![ok(1), ok(1), ok(1), fail(1)], "t".to_string(), 2_000_000_000);
    assert_eq!(r.requests_per_second(), 2);
    let instant = TestResult::new(vec![ok(1)], "t".to_string(), 0);
    assert_eq!(instant.requests_per_second(), u64::MAX);
}

#[test]
fn report_names_counts_and_means() {
    let r = TestResult::new(
        vec![ok(1_000_000), ok(2_000_000), fail(4_000_000)],
        "search".to_string(),
        1_500_000_000,
    );
    let expected = format!(
        "search:\n    time: {:?} (~2 rps)\n    success: 2 ({:?} avg)\n    failure: 1 ({:?} avg)\n        ",
        Duration::from_millis(1500),
        Duration::from_micros(1500),
        Duration::from_millis(4),
    );
    assert_eq!(r.report(), expected);
}

#[test]
fn report_without_failures_shows_zero_mean() {
    let r = TestResult::new(vec![ok(10)], "one".to_string(), 1_000_000_000);
    assert!(r.report().contains("failure: 0 (0ns avg)"));
}

#[test]
fn range_selects_successes_strictly_inside() {
    let r = TestResult::new(
        vec![ok(5_000_000), ok(10_000_000), fail(7_000_000), ok(7_000_000), ok(8_000_000)],
        "t".to_string(),
        1,
    );
    let found = r.success_responses_between(5, 10, 5);
    assert_eq!(found.iter().map(|x| x.time).collect::<Vec<_>>(), vec![7_000_000, 8_000_000]);
    let first = r.success_responses_between(5, 10, 1);
    assert_eq!(first.len(), 1);
    assert_eq!(first[0].time, 7_000_000);
}

#[test]
fn latency_series() {
    let r = TestResult::new(
        vec![
            ResponseInfo::success(5_000_000, Some(2), vec![]),
            ResponseInfo::success(1_000_000, Some(3), vec![]),
            ok(9),
        ],
        "t".to_string(),
        1,
    );
    assert_eq!(r.server_latencies(), vec![2, 3]);
    assert_eq!(r.infrastructure_latencies(), vec![3_000_000, 0]);
    assert_eq!(r.sorted_times(), vec![9, 1_000_000, 5_000_000]);
}

#[test]
fn status_is_success() {
    assert!(Status::Success.is_success());
    assert!(!Status::Failure { reason: "x".to_string() }.is_success());
}

#[test]
fn percentile_positions() {
    assert_eq!(percentile_index(200, 995), 199);
    assert_eq!(percentile_index(100, 750), 75);
    assert_eq!(percentile_index(3, 999), 2);
    assert_eq!(percentile_index(0, 950), 0);
    assert_eq!(percentile_index(10, 1000), 10);
}

#[test]
fn report_layout_from_parts() {
    let text = format_report(
        &"t".to_string(),
        "1s",
        1234,
        5,
        "2ms",
        0,
        "0ns",
    );
    assert_eq!(
        text,
        "t:\n    time: 1s (~1234 rps)\n    success: 5 (2ms avg)\n    failure: 0 (0ns avg)\n        "
    );
}
