//! Request batching: requests for a resource are queued and handed out for
//! processing as one batch, when the batch window of the queue's first
//! request expires or when the queue reaches its size limit. Each batch is
//! sent deduplicated, and every requester receives its own reply.
//!
//! `state` holds the queues and decides when a batch is handed out;
//! `dispatch` deduplicates a batch and distributes the processor's answer.
pub mod config;
pub mod dispatch;
pub mod entries;
pub mod error;
pub mod laws;
pub mod queue;
pub mod state;

pub use config::{BatcherConfig, BatcherStats};
pub use dispatch::{distribute_results, unique_requests};
pub use error::BatchError;
pub use queue::{BatchAction, PendingRequest};
pub use state::BatchState;
