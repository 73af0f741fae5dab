use spam_can::build_request;
use spam_can::configs::{RequestConfig, TargetUrl};
use spam_can::request::{configure_url, filter_headers, replace_or_append_query_param, to_header_map, user_id, Method};

fn pair(a: &str, b: &str) -> (String, String) {
    (a.to_string(), b.to_string())
}

fn target(query: Vec<(String, String)>) -> TargetUrl {
    TargetUrl { base: "http://localhost:8080/search".to_string(), query }
}

fn is_user_id(s: &str) -> bool {
    s.len() == 34
        && s.starts_with("m-")
        && s[2..].chars().all(|c| c.is_ascii_digit() || ('a'..='f').contains(&c))
}

#[test]
fn rotation_replaces_an_existing_user_parameter() {
    let config = RequestConfig::Get {
        url: target(vec![pair("user", "old"), pair("q", "rust")]),
        headers: vec![],
    };
    for _ in 0..3 {
        let built = build_request(&config, true);
        let users: Vec<&(String, String)> = built.url.query.iter().filter(|p| p.0 == "user").collect();
        assert_eq!(users.len(), 1);
        assert_ne!(users[0].1, "old");
        assert!(is_user_id(&users[0].1));
        assert_eq!(built.url.query[0], pair("q", "rust"));
        assert_eq!(built.url.query.len(), 2);
    }
}

#[test]
fn rotation_gives_each_request_a_fresh_id() {
    let a = configure_url(true, target(vec![]));
    let b = configure_url(true, target(vec![]));
    assert_eq!(a.query.len(), 1);
    assert_eq!(a.query[0].0, "user");
    assert_ne!(a.query[0].1, b.query[0].1);
}

#[test]
fn without_rotation_the_url_is_kept() {
    let url = configure_url(false, target(vec![pair("user", "old")]));
    assert_eq!(url.query, vec![pair("user", "old")]);
    assert_eq!(url.base, "http://localhost:8080/search");
}

#[test]
fn setting_a_parameter_drops_every_old_value_and_appends() {
    let mut q = vec![pair("user", "a"), pair("x", "1"), pair("user", "b")];
    replace_or_append_query_param(&mut q, "user", "c");
    assert_eq!(q, vec![pair("x", "1"), pair("user", "c")]);
    let mut empty = vec![];
    replace_or_append_query_param(&mut empty, "user", "c");
    assert_eq!(empty, vec![pair("user", "c")]);
}

#[test]
fn malformed_headers_are_dropped() {
    let headers = vec![
        pair("x-good", "yes"),
        pair("bad name", "v"),
        pair("x-newline", "a\nb"),
        pair("x-tab", "a\tb"),
        pair("", "empty name"),
    ];
    assert_eq!(to_header_map(&headers), vec![pair("x-good", "yes"), pair("x-tab", "a\tb")]);
}

#[test]
fn post_keeps_method_and_body() {
    let config = RequestConfig::Post {
        url: target(vec![]),
        headers: vec![pair("content-type", "application/json")],
        body: "{}".to_string(),
    };
    let built = build_request(&config, false);
    assert_eq!(built.method, Method::Post);
    assert_eq!(built.body, Some("{}".to_string()));
    assert_eq!(built.headers, vec![pair("content-type", "application/json")]);
    let get = build_request(&RequestConfig::Get { url: target(vec![]), headers: vec![] }, false);
    assert_eq!(get.method, Method::Get);
    assert_eq!(get.body, None);
}

#[test]
fn user_ids_have_the_expected_shape() {
    assert!(is_user_id(&user_id()));
}

#[test]
fn filter_keeps_accepted_headers_in_order() {
    let headers = vec![pair("a", "1"), pair("b", "2"), pair("c", "3")];
    let kept = filter_headers(&headers, &vec![true, false, true]);
    assert_eq!(kept, vec![pair("a", "1"), pair("c", "3")]);
}
