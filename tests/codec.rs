use spam_can::codec::{decode, encode, file_name, is_wanted, load_results};
use spam_can::{ResponseInfo, Status, TestResult};

fn sample(name: &str) -> TestResult {
    TestResult::new(
        vec![
            ResponseInfo::success(
                1_234,
                Some(7),
                vec![("x-id".to_string(), "42".to_string()), ("x-node".to_string(), "ünï".to_string())],
            ),
            ResponseInfo::error(99, "Missing values: [foo]".to_string(), None, None),
            ResponseInfo::error(u64::MAX, "timeout".to_string(), Some(0), Some(vec![])),
        ],
        name.to_string(),
        5_000_000_000,
    )
}

fn same(a: &TestResult, b: &TestResult) {
    assert_eq!(a.name(), b.name());
    assert_eq!(a.total_time(), b.total_time());
    assert_eq!(a.request_time(), b.request_time());
    assert_eq!(a.success_count(), b.success_count());
    assert_eq!(a.failure_count(), b.failure_count());
    assert_eq!(a.responses().len(), b.responses().len());
    for (x, y) in a.responses().iter().zip(b.responses().iter()) {
        assert_eq!(x.time, y.time);
        assert_eq!(x.status, y.status);
        assert_eq!(x.server_latency, y.server_latency);
        assert_eq!(x.collected, y.collected);
    }
}

#[test]
fn saved_result_loads_back_equal() {
    let r = sample("search");
    let bytes = encode(&r);
    let back = decode(&bytes).expect("a saved result decodes");
    same(&r, &back);
}

#[test]
fn empty_result_round_trips() {
    let r = TestResult::new(vec![], String::new(), 0);
    let back = decode(&encode(&r)).expect("decodes");
    same(&r, &back);
}

#[test]
fn corrupt_file_is_skipped_among_valid_ones() {
    let a = sample("a");
    let b = sample("b");
    let mut truncated = encode(&a);
    truncated.pop();
    let files = vec![encode(&a), truncated, b"not a result".to_vec(), encode(&b)];
    let loaded = load_results(&files);
    assert_eq!(loaded.len(), 2);
    same(&loaded[0], &a);
    same(&loaded[1], &b);
}

#[test]
fn trailing_bytes_and_bad_tags_are_rejected() {
    let r = sample("x");
    let mut longer = encode(&r);
    longer.push(0);
    assert!(decode(&longer).is_none());
    let mut bad_magic = encode(&r);
    bad_magic[0] = b'X';
    assert!(decode(&bad_magic).is_none());
    assert!(decode(&vec![]).is_none());
}

#[test]
fn invalid_utf8_in_a_name_is_rejected() {
    let r = TestResult::new(vec![], "ab".to_string(), 0);
    let mut bytes = encode(&r);
    // the name's bytes follow the magic and the length
    bytes[16] = 0xff;
    assert!(decode(&bytes).is_none());
}

#[test]
fn file_names_and_selection() {
    assert_eq!(file_name(&"search".to_string()), "search.bin");
    let bin = Some("bin".to_string());
    let stem = Some("search".to_string());
    assert!(is_wanted(&stem, &bin, &None));
    assert!(!is_wanted(&stem, &Some("txt".to_string()), &None));
    assert!(!is_wanted(&stem, &None, &None));
    let names = Some(vec!["other".to_string(), "search".to_string()]);
    assert!(is_wanted(&stem, &bin, &names));
    assert!(!is_wanted(&Some("nope".to_string()), &bin, &names));
    assert!(!is_wanted(&None, &bin, &names));
}

#[test]
fn failure_status_survives_the_round_trip() {
    let r = sample("s");
    let back = decode(&encode(&r)).unwrap();
    assert_eq!(back.responses()[1].status, Status::Failure { reason: "Missing values: [foo]".to_string() });
}
