use vstd::prelude::*;

verus! {

/// The verdict on one response.
#[derive(Debug, PartialEq, Eq)]
pub enum Status {
    Success,
    Failure { reason: String },
}

impl Status {
    pub fn is_success(&self) -> (r: bool)
        ensures
            r == (*self is Success),
    {
        match self {
            Status::Success => true,
            Status::Failure { .. } => false,
        }
    }
}

/// One request's outcome. Times are in nanoseconds.
#[derive(Debug)]
pub struct ResponseInfo {
    /// elapsed wall-clock time from request start to classification
    pub time: u64,
    pub status: Status,
    /// processing time that the server reported, if a header carries it
    pub server_latency: Option<u64>,
    /// collected header name / value pairs, keys unique
    pub collected: Vec<(String, String)>,
}

impl ResponseInfo {
    pub fn error(
        time: u64,
        reason: String,
        server_latency: Option<u64>,
        collected: Option<Vec<(String, String)>>,
    ) -> (r: Self)
        ensures
            r.time == time,
            r.status == (Status::Failure { reason }),
            r.server_latency == server_latency,
            r.collected@ == (match collected {
                Some(c) => c@,
                None => Seq::empty(),
            }),
    {
        let collected = match collected {
            Some(c) => c,
            None => Vec::new(),
        };
        ResponseInfo { time, status: Status::Failure { reason }, server_latency, collected }
    }

    pub fn success(time: u64, server_latency: Option<u64>, collected: Vec<(String, String)>) -> (r:
        Self)
        ensures
            r.time == time,
            r.status == Status::Success,
            r.server_latency == server_latency,
            r.collected == collected,
    {
        ResponseInfo { time, status: Status::Success, server_latency, collected }
    }
}

} // verus!
