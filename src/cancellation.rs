//! The cancellation signal: one process-wide flag, set at most once by the
//! signal watcher and read by every dispatch run.
use std::sync::atomic::{AtomicBool, Ordering};
use std::sync::Arc;
use vstd::prelude::*;

verus! {

/// A shared handle on the flag; clones share it.
#[derive(Clone)]
pub struct Cancellation {
    flag: Arc<AtomicBool>,
}

impl Cancellation {
    /// A flag that is not set.
    pub fn new() -> Self {
        Cancellation { flag: Arc::new(AtomicBool::new(false)) }
    }

    /// Whether the flag has been set. Another handle may set it at any
    /// moment, so nothing is promised of the answer.
    pub fn is_canceled(&self) -> bool {
        self.flag.load(Ordering::Relaxed)
    }

    /// Sets the flag; once set it stays set.
    pub fn cancel(self) {
        self.flag.swap(true, Ordering::Relaxed);
    }
}

} // verus!
