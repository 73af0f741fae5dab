use spam_can::classify::{classify, collect_headers, missing_reason, parse_latency, Exchange};
use spam_can::Status;

fn response(values: Vec<String>, latency: Option<String>, body: Option<String>) -> Exchange {
    Exchange::Response { collected_values: values, latency_value: latency, body }
}

#[test]
fn body_holding_the_item_is_a_success() {
    let check = Some(vec!["foo".to_string()]);
    let r = classify(5, response(vec![], None, Some("foobar".to_string())), &check, &None, &None);
    assert_eq!(r.status, Status::Success);
    assert_eq!(r.time, 5);
}

#[test]
fn body_lacking_the_item_names_it() {
    let check = Some(vec!["foo".to_string()]);
    let r = classify(5, response(vec![], None, Some("bar".to_string())), &check, &None, &None);
    assert_eq!(r.status, Status::Failure { reason: "Missing values: [foo]".to_string() });
}

#[test]
fn every_missing_item_is_named_in_order() {
    let check = Some(vec!["a".to_string(), "zz".to_string(), "b".to_string(), "yy".to_string()]);
    let r = classify(1, response(vec![], None, Some("ab".to_string())), &check, &None, &None);
    assert_eq!(r.status, Status::Failure { reason: "Missing values: [zz, yy]".to_string() });
}

#[test]
fn unreadable_body_fails() {
    let check = Some(vec!["foo".to_string()]);
    let r = classify(9, response(vec![], None, None), &check, &None, &None);
    assert_eq!(r.status, Status::Failure { reason: "text content unavailable".to_string() });
}

#[test]
fn transport_error_fails_with_its_text() {
    let collect = Some(vec!["x-id".to_string()]);
    let r = classify(
        3,
        Exchange::TransportError("connection refused".to_string()),
        &None,
        &collect,
        &Some("x-time".to_string()),
    );
    assert_eq!(r.status, Status::Failure { reason: "connection refused".to_string() });
    assert_eq!(r.server_latency, None);
    assert!(r.collected.is_empty());
}

#[test]
fn without_checks_a_response_succeeds_and_collects() {
    let collect = Some(vec!["x-id".to_string(), "x-node".to_string()]);
    let r = classify(
        7,
        response(vec!["42".to_string(), "n1".to_string()], Some("15".to_string()), None),
        &None,
        &collect,
        &Some("x-time".to_string()),
    );
    assert_eq!(r.status, Status::Success);
    assert_eq!(r.server_latency, Some(15));
    assert_eq!(
        r.collected,
        vec![("x-id".to_string(), "42".to_string()), ("x-node".to_string(), "n1".to_string())]
    );
}

#[test]
fn latency_that_is_not_a_number_counts_as_zero() {
    let r = classify(
        7,
        response(vec![], Some("fast".to_string()), None),
        &None,
        &None,
        &Some("x-time".to_string()),
    );
    assert_eq!(r.server_latency, Some(0));
}

#[test]
fn latency_header_values_parse_as_std_does() {
    assert_eq!(parse_latency("120"), 120);
    assert_eq!(parse_latency("+12"), 12);
    assert_eq!(parse_latency(""), 0);
    assert_eq!(parse_latency(" 1"), 0);
    assert_eq!(parse_latency("-1"), 0);
    assert_eq!(parse_latency("18446744073709551615"), u64::MAX);
    assert_eq!(parse_latency("18446744073709551616"), 0);
}

#[test]
fn repeated_collect_names_appear_once_with_the_last_value() {
    let names = vec!["a".to_string(), "b".to_string(), "a".to_string()];
    let values = vec!["1".to_string(), "2".to_string(), "3".to_string()];
    let c = collect_headers(&names, &values);
    assert_eq!(c, vec![("a".to_string(), "3".to_string()), ("b".to_string(), "2".to_string())]);
}

#[test]
fn missing_reason_of_no_items() {
    assert_eq!(missing_reason(&vec![]), "Missing values: []");
}
