use spam_can::configs::{
    count, rotate_uuids, select_tests, timeout, GlobalConfig, RequestConfig, TargetUrl, TestConfig,
};

fn global() -> GlobalConfig {
    GlobalConfig {
        check_for: Some(vec!["ok".to_string()]),
        count: count(),
        rotate_uuids: rotate_uuids(),
        collect: None,
        timeout: timeout(),
        max_rps: 50,
        max_concurrent: 5,
    }
}

fn test(name: &str) -> TestConfig {
    TestConfig {
        name: name.to_string(),
        request: RequestConfig::Get {
            url: TargetUrl { base: "http://localhost/".to_string(), query: vec![] },
            headers: vec![],
        },
        check_for: None,
        count: None,
        rotate_uuids: None,
        collect: None,
        latency_header: None,
        timeout: None,
        max_rps: None,
        max_concurrent: None,
    }
}

#[test]
fn defaults() {
    assert_eq!(count(), 10);
    assert!(!rotate_uuids());
    assert_eq!(timeout(), 30_000);
}

#[test]
fn unset_fields_fall_back_to_global() {
    let r = test("a").resolve(&global());
    assert_eq!(r.name, "a");
    assert_eq!(r.count, 10);
    assert!(!r.rotate_uuids);
    assert_eq!(r.timeout, 30_000);
    assert_eq!(r.max_rps, 50);
    assert_eq!(r.max_concurrent, 5);
    assert_eq!(r.check_for, Some(vec!["ok".to_string()]));
    assert_eq!(r.collect, None);
}

#[test]
fn test_settings_win_and_lists_join() {
    let mut t = test("b");
    t.count = Some(3);
    t.rotate_uuids = Some(true);
    t.timeout = Some(100);
    t.max_rps = Some(1);
    t.max_concurrent = Some(2);
    t.check_for = Some(vec!["mine".to_string()]);
    t.collect = Some(vec!["x-id".to_string()]);
    t.latency_header = Some("x-time".to_string());
    let r = t.resolve(&global());
    assert_eq!(r.count, 3);
    assert!(r.rotate_uuids);
    assert_eq!(r.timeout, 100);
    assert_eq!(r.max_rps, 1);
    assert_eq!(r.max_concurrent, 2);
    assert_eq!(r.check_for, Some(vec!["mine".to_string(), "ok".to_string()]));
    assert_eq!(r.collect, Some(vec!["x-id".to_string()]));
    assert_eq!(r.latency_header, Some("x-time".to_string()));
}

#[test]
fn selection_by_name_keeps_name_order_and_skips_unknown() {
    let tests = vec![test("a"), test("b"), test("c")];
    let all = select_tests(&tests, &None);
    assert_eq!(all.iter().map(|t| t.name.clone()).collect::<Vec<_>>(), vec!["a", "b", "c"]);
    let names = Some(vec!["c".to_string(), "zzz".to_string(), "a".to_string()]);
    let some = select_tests(&tests, &names);
    assert_eq!(some.iter().map(|t| t.name.clone()).collect::<Vec<_>>(), vec!["c", "a"]);
}
