//! An HTTP load-testing engine: rate- and concurrency-limited dispatch of
//! request templates, classification of each response, aggregation of the
//! measured latencies and a binary format for the persisted results.
//!
//! The decisions live here; the caller performs the I/O they call for.
pub mod cancellation;
pub mod classify;
pub mod codec;
pub mod configs;
pub mod dispatch;
pub mod request;
pub mod response_info;
pub mod test_result;
pub mod text;

pub use cancellation::Cancellation;
pub use request::build_request;
pub use response_info::{ResponseInfo, Status};
pub use test_result::TestResult;
