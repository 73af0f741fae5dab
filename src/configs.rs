//! Test definitions: the global defaults, each test's own settings, and how
//! the two resolve into one fully defaulted definition.
use vstd::prelude::*;

verus! {

/// Requests per test unless a test says otherwise.
pub fn count() -> (r: usize)
    ensures
        r == 10,
{
    10
}

/// Whether to put a fresh random id in the `user` query parameter of each
/// request, unless a test says otherwise.
pub fn rotate_uuids() -> (r: bool)
    ensures
        r == false,
{
    false
}

/// Per-request timeout in milliseconds unless a test says otherwise.
pub fn timeout() -> (r: u64)
    ensures
        r == 30_000,
{
    30_000
}

/// A target URL: everything but the query, and the decoded query pairs in
/// order.
#[derive(Debug)]
pub struct TargetUrl {
    pub base: String,
    pub query: Vec<(String, String)>,
}

/// The request that a test makes. Header names are unique.
#[derive(Debug)]
pub enum RequestConfig {
    Get { url: TargetUrl, headers: Vec<(String, String)> },
    Post { url: TargetUrl, headers: Vec<(String, String)>, body: String },
}

/// Settings shared by all tests of a file.
#[derive(Debug)]
pub struct GlobalConfig {
    /// values to check for in all responses
    pub check_for: Option<Vec<String>>,
    /// the number of requests unless specified in a specific test config
    pub count: usize,
    /// whether to use a random uuid in the `user` request param for each request
    pub rotate_uuids: bool,
    /// header values to collect from all responses
    pub collect: Option<Vec<String>>,
    /// default timeout for all tests, in milliseconds
    pub timeout: u64,
    /// max rps default for each test
    pub max_rps: usize,
    pub max_concurrent: usize,
}

/// A file of tests.
#[derive(Debug)]
pub struct SpamConfig {
    pub global: GlobalConfig,
    pub test_configs: Vec<TestConfig>,
}

/// One test's own settings; an absent one falls back to the global one.
#[derive(Debug)]
pub struct TestConfig {
    pub name: String,
    pub request: RequestConfig,
    /// items to check for in the request text
    pub check_for: Option<Vec<String>>,
    /// override for the number of requests to this url
    pub count: Option<usize>,
    /// whether to use a random uuid in the `user` request param for each request
    pub rotate_uuids: Option<bool>,
    /// header values to collect from responses
    pub collect: Option<Vec<String>>,
    /// the key of a header that contains how long the server used processing the request in ms
    pub latency_header: Option<String>,
    /// timeout for all requests, in milliseconds
    pub timeout: Option<u64>,
    pub max_rps: Option<usize>,
    pub max_concurrent: Option<usize>,
}

/// A fully defaulted test definition.
#[derive(Debug)]
pub struct ResolvedConfig {
    pub name: String,
    pub request: RequestConfig,
    pub check_for: Option<Vec<String>>,
    pub count: usize,
    pub rotate_uuids: bool,
    pub collect: Option<Vec<String>>,
    pub latency_header: Option<String>,
    /// per-request timeout, in milliseconds
    pub timeout: u64,
    pub max_rps: usize,
    pub max_concurrent: usize,
}

pub open spec fn option_seq(o: Option<Vec<String>>) -> Option<Seq<String>> {
    match o {
        Some(v) => Some(v@),
        None => None,
    }
}

/// A test's list joined with the global one: the test's items first.
pub open spec fn merged(local: Option<Seq<String>>, global: Option<Seq<String>>) -> Option<
    Seq<String>,
> {
    match (local, global) {
        (Some(l), Some(g)) => Some(l + g),
        (Some(l), None) => Some(l),
        (None, g) => g,
    }
}

pub open spec fn or_else<T>(o: Option<T>, d: T) -> T {
    match o {
        Some(v) => v,
        None => d,
    }
}

pub fn clone_strings(v: &Vec<String>) -> (r: Vec<String>)
    ensures
        r@ == v@,
{
    let mut out: Vec<String> = Vec::new();
    let mut i: usize = 0;
    while i < v.len()
        invariant
            i <= v.len(),
            out@ == v@.subrange(0, i as int),
        decreases v.len() - i,
    {
        out.push(v[i].clone());
        proof {
            assert(out@ =~= v@.subrange(0, i + 1));
        }
        i = i + 1;
    }
    assert(v@.subrange(0, i as int) =~= v@);
    out
}

pub fn clone_pairs(v: &Vec<(String, String)>) -> (r: Vec<(String, String)>)
    ensures
        r@ == v@,
{
    let mut out: Vec<(String, String)> = Vec::new();
    let mut i: usize = 0;
    while i < v.len()
        invariant
            i <= v.len(),
            out@ == v@.subrange(0, i as int),
        decreases v.len() - i,
    {
        out.push((v[i].0.clone(), v[i].1.clone()));
        proof {
            assert(out@ =~= v@.subrange(0, i + 1));
        }
        i = i + 1;
    }
    assert(v@.subrange(0, i as int) =~= v@);
    out
}

fn clone_option_strings(o: &Option<Vec<String>>) -> (r: Option<Vec<String>>)
    ensures
        option_seq(r) == option_seq(*o),
{
    match o {
        Some(v) => Some(clone_strings(v)),
        None => None,
    }
}

fn clone_option_string(o: &Option<String>) -> (r: Option<String>)
    ensures
        r == *o,
{
    match o {
        Some(v) => Some(v.clone()),
        None => None,
    }
}

/// `a` and `b` name the same target.
pub open spec fn same_url(a: TargetUrl, b: TargetUrl) -> bool {
    a.base == b.base && a.query@ == b.query@
}

/// `a` and `b` describe the same request.
pub open spec fn same_request(a: RequestConfig, b: RequestConfig) -> bool {
    match (a, b) {
        (
            RequestConfig::Get { url: u1, headers: h1 },
            RequestConfig::Get { url: u2, headers: h2 },
        ) => same_url(u1, u2) && h1@ == h2@,
        (
            RequestConfig::Post { url: u1, headers: h1, body: b1 },
            RequestConfig::Post { url: u2, headers: h2, body: b2 },
        ) => same_url(u1, u2) && h1@ == h2@ && b1 == b2,
        _ => false,
    }
}

impl Clone for TargetUrl {
    fn clone(&self) -> (r: Self)
        ensures
            same_url(r, *self),
    {
        TargetUrl { base: self.base.clone(), query: clone_pairs(&self.query) }
    }
}

impl Clone for RequestConfig {
    fn clone(&self) -> (r: Self)
        ensures
            same_request(r, *self),
    {
        match self {
            RequestConfig::Get { url, headers } => RequestConfig::Get {
                url: url.clone(),
                headers: clone_pairs(headers),
            },
            RequestConfig::Post { url, headers, body } => RequestConfig::Post {
                url: url.clone(),
                headers: clone_pairs(headers),
                body: body.clone(),
            },
        }
    }
}

impl Clone for TestConfig {
    fn clone(&self) -> (r: Self)
        ensures
            r.name == self.name,
            same_request(r.request, self.request),
            option_seq(r.check_for) == option_seq(self.check_for),
            r.count == self.count,
            r.rotate_uuids == self.rotate_uuids,
            option_seq(r.collect) == option_seq(self.collect),
            r.latency_header == self.latency_header,
            r.timeout == self.timeout,
            r.max_rps == self.max_rps,
            r.max_concurrent == self.max_concurrent,
    {
        TestConfig {
            name: self.name.clone(),
            request: self.request.clone(),
            check_for: clone_option_strings(&self.check_for),
            count: self.count,
            rotate_uuids: self.rotate_uuids,
            collect: clone_option_strings(&self.collect),
            latency_header: clone_option_string(&self.latency_header),
            timeout: self.timeout,
            max_rps: self.max_rps,
            max_concurrent: self.max_concurrent,
        }
    }
}

fn merge_lists(local: Option<Vec<String>>, global: &Option<Vec<String>>) -> (r: Option<
    Vec<String>,
>)
    ensures
        option_seq(r) == merged(option_seq(local), option_seq(*global)),
{
    match (local, global) {
        (Some(l), Some(g)) => {
            let mut out = l;
            let mut extra = clone_strings(g);
            out.append(&mut extra);
            Some(out)
        },
        (Some(l), None) => Some(l),
        (None, _) => clone_option_strings(global),
    }
}

impl TestConfig {
    /// Fills in what the test leaves open from the global settings; the
    /// check and collect lists are the test's items followed by the global
    /// ones.
    pub fn resolve(self, global: &GlobalConfig) -> (r: ResolvedConfig)
        ensures
            r.name == self.name,
            r.request == self.request,
            option_seq(r.check_for) == merged(
                option_seq(self.check_for),
                option_seq(global.check_for),
            ),
            option_seq(r.collect) == merged(option_seq(self.collect), option_seq(global.collect)),
            r.count == or_else(self.count, global.count),
            r.rotate_uuids == or_else(self.rotate_uuids, global.rotate_uuids),
            r.latency_header == self.latency_header,
            r.timeout == or_else(self.timeout, global.timeout),
            r.max_rps == or_else(self.max_rps, global.max_rps),
            r.max_concurrent == or_else(self.max_concurrent, global.max_concurrent),
    {
        let TestConfig {
            name,
            request,
            check_for,
            count,
            rotate_uuids,
            collect,
            latency_header,
            timeout,
            max_rps,
            max_concurrent,
        } = self;
        let check_for = merge_lists(check_for, &global.check_for);
        let collect = merge_lists(collect, &global.collect);
        let count = match count {
            Some(c) => c,
            None => global.count,
        };
        let rotate_uuids = match rotate_uuids {
            Some(b) => b,
            None => global.rotate_uuids,
        };
        let timeout = match timeout {
            Some(t) => t,
            None => global.timeout,
        };
        let max_rps = match max_rps {
            Some(m) => m,
            None => global.max_rps,
        };
        let max_concurrent = match max_concurrent {
            Some(m) => m,
            None => global.max_concurrent,
        };
        ResolvedConfig {
            name,
            request,
            check_for,
            count,
            rotate_uuids,
            collect,
            latency_header,
            timeout,
            max_rps,
            max_concurrent,
        }
    }
}

/// The first test of `tests` named `name`, if any.
pub open spec fn find_named(tests: Seq<TestConfig>, name: Seq<char>) -> Option<int>
    decreases tests.len(),
{
    if tests.len() == 0 {
        None
    } else {
        match find_named(tests.drop_last(), name) {
            Some(i) => Some(i),
            None => if tests.last().name@ == name {
                Some(tests.len() - 1)
            } else {
                None
            },
        }
    }
}

/// The indices, into `tests`, of the tests that `names` selects: for each
/// name in order the first test of that name, names without a test skipped.
pub open spec fn selected(tests: Seq<TestConfig>, names: Seq<String>) -> Seq<int>
    decreases names.len(),
{
    if names.len() == 0 {
        Seq::empty()
    } else {
        match find_named(tests, names.last()@) {
            Some(i) => selected(tests, names.drop_last()).push(i),
            None => selected(tests, names.drop_last()),
        }
    }
}

/// Whether `c` is a copy of `t`.
pub open spec fn same_test(c: TestConfig, t: TestConfig) -> bool {
    &&& c.name == t.name
    &&& same_request(c.request, t.request)
    &&& option_seq(c.check_for) == option_seq(t.check_for)
    &&& c.count == t.count
    &&& c.rotate_uuids == t.rotate_uuids
    &&& option_seq(c.collect) == option_seq(t.collect)
    &&& c.latency_header == t.latency_header
    &&& c.timeout == t.timeout
    &&& c.max_rps == t.max_rps
    &&& c.max_concurrent == t.max_concurrent
}

fn find_test(tests: &Vec<TestConfig>, name: &String) -> (r: Option<usize>)
    ensures
        match r {
            Some(i) => find_named(tests@, name@) == Some(i as int),
            None => find_named(tests@, name@) is None,
        },
{
    let mut i: usize = 0;
    while i < tests.len()
        invariant
            i <= tests.len(),
            find_named(tests@.subrange(0, i as int), name@) is None,
        decreases tests.len() - i,
    {
        proof {
            assert(tests@.subrange(0, i + 1).drop_last() =~= tests@.subrange(0, i as int));
        }
        if tests[i].name == *name {
            proof {
                lemma_find_prefix(tests@, i + 1, name@);
            }
            return Some(i);
        }
        i = i + 1;
    }
    assert(tests@.subrange(0, i as int) =~= tests@);
    None
}

proof fn lemma_find_prefix(tests: Seq<TestConfig>, k: int, name: Seq<char>)
    requires
        0 <= k <= tests.len(),
        find_named(tests.subrange(0, k), name) is Some,
    ensures
        find_named(tests, name) == find_named(tests.subrange(0, k), name),
    decreases tests.len() - k,
{
    if k < tests.len() {
        assert(tests.subrange(0, k + 1).drop_last() =~= tests.subrange(0, k));
        lemma_find_prefix(tests, k + 1, name);
    } else {
        assert(tests.subrange(0, k) =~= tests);
    }
}

/// The tests to run: all of them without names, else for each name the
/// first test of that name, in the order of the names.
pub fn select_tests(tests: &Vec<TestConfig>, names: &Option<Vec<String>>) -> (r: Vec<TestConfig>)
    ensures
        match names {
            None => r@.len() == tests@.len() && forall|i: int|
                0 <= i < tests@.len() ==> same_test(#[trigger] r@[i], tests@[i]),
            Some(names) => r@.len() == selected(tests@, names@).len() && forall|i: int|
                0 <= i < r@.len() ==> same_test(
                    #[trigger] r@[i],
                    tests@[selected(tests@, names@)[i]],
                ),
        },
{
    let mut out: Vec<TestConfig> = Vec::new();
    match names {
        None => {
            let mut i: usize = 0;
            while i < tests.len()
                invariant
                    i <= tests.len(),
                    out@.len() == i,
                    forall|j: int| 0 <= j < i ==> same_test(#[trigger] out@[j], tests@[j]),
                decreases tests.len() - i,
            {
                out.push(tests[i].clone());
                i = i + 1;
            }
        },
        Some(names) => {
            let mut i: usize = 0;
            while i < names.len()
                invariant
                    i <= names.len(),
                    out@.len() == selected(tests@, names@.subrange(0, i as int)).len(),
                    forall|j: int|
                        0 <= j < out@.len() ==> same_test(
                            #[trigger] out@[j],
                            tests@[selected(tests@, names@.subrange(0, i as int))[j]],
                        ),
                    forall|j: int|
                        0 <= j < selected(tests@, names@.subrange(0, i as int)).len() ==> 0
                            <= #[trigger] selected(tests@, names@.subrange(0, i as int))[j]
                            < tests@.len(),
                decreases names.len() - i,
            {
                let ghost p = names@.subrange(0, i as int);
                let ghost q = names@.subrange(0, i + 1);
                proof {
                    assert(q.drop_last() =~= p);
                    lemma_found_in_range(tests@, names@[i as int]@);
                }
                match find_test(tests, &names[i]) {
                    Some(k) => {
                        out.push(tests[k].clone());
                    },
                    None => {},
                }
                i = i + 1;
            }
            assert(names@.subrange(0, i as int) =~= names@);
        },
    }
    out
}

proof fn lemma_found_in_range(tests: Seq<TestConfig>, name: Seq<char>)
    ensures
        match find_named(tests, name) {
            Some(i) => 0 <= i < tests.len(),
            None => true,
        },
    decreases tests.len(),
{
    if tests.len() > 0 {
        lemma_found_in_range(tests.drop_last(), name);
    }
}

} // verus!
