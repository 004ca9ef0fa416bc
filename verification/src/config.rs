use vstd::prelude::*;

verus! {

/// Configuration for the batcher: how long the first request of a batch
/// waits, and how many requests trigger processing at once.
#[derive(Debug, Clone)]
pub struct BatcherConfig {
    /// Time window in milliseconds to wait before processing a batch
    pub batch_window_ms: u64,
    /// Maximum number of requests in a batch before processing immediately
    pub max_batch_size: usize,
}

impl Default for BatcherConfig {
    /// A window of 100 ms and batches of at most 50 requests.
    fn default() -> (config: Self)
        ensures
            config.batch_window_ms == 100,
            config.max_batch_size == 50,
    {
        BatcherConfig { batch_window_ms: 100, max_batch_size: 50 }
    }
}

/// Statistics about the current state of the batcher
#[derive(Debug, Clone)]
pub struct BatcherStats {
    /// Number of resource queues currently active
    pub total_queues: usize,
    /// Total number of pending requests across all queues
    pub total_pending_requests: usize,
    /// Number of queues currently processing
    pub processing_queues: usize,
}

} // verus!
