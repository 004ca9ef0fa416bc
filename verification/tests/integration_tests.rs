use request_batcher::{
    distribute_results, unique_requests, BatchError, BatchState, PendingRequest,
};
use std::collections::HashSet;

#[derive(Debug, Clone, Copy, PartialEq, Eq, Hash)]
enum TestResource {
    TypeA,
    TypeB,
}

#[derive(Debug, Clone, PartialEq)]
struct TestError(String);

type Reply = Result<String, BatchError<TestError>>;

/// The processor of the tests: answers each request with "Response for <request>".
fn process(requests: Vec<String>) -> Result<Vec<(String, String)>, TestError> {
    let mut results = Vec::new();
    for req in requests {
        results.push((req.clone(), format!("Response for {}", req)));
    }
    Ok(results)
}

/// Sends a batch to `process` the way a batcher does and returns the replies.
fn run_batch(batch: Vec<PendingRequest<String, usize>>) -> Vec<(usize, Reply)> {
    let unique: Vec<String> = unique_requests(&batch).into_iter().cloned().collect();
    let unique_count = unique.iter().collect::<HashSet<_>>().len();
    assert_eq!(unique_count, unique.len(), "Batch should not contain duplicates");
    distribute_results(batch, process(unique))
}

fn ok_text(reply: &Reply) -> &str {
    match reply {
        Ok(text) => text.as_str(),
        Err(e) => panic!("unexpected error {:?}", e),
    }
}

#[test]
fn test_basic_batching() {
    let mut state: BatchState<TestResource, String, usize> = BatchState::new(100, 10);
    let action = state.submit(TestResource::TypeA, "test1".to_string(), 0);
    let window = action.start_timer.unwrap();
    assert!(action.batch.is_none());

    let batch = state.timer_fired(&TestResource::TypeA, window).batch.unwrap();
    let replies = run_batch(batch);
    state.batch_finished(&TestResource::TypeA);

    assert_eq!(replies.len(), 1);
    assert_eq!(replies[0].0, 0);
    assert_eq!(ok_text(&replies[0].1), "Response for test1");
}

#[test]
fn test_concurrent_requests_batched() {
    let mut state: BatchState<TestResource, String, usize> = BatchState::new(100, 10);
    let mut window = None;
    for i in 0..5 {
        let action = state.submit(TestResource::TypeA, format!("req{}", i), i);
        assert_eq!(action.start_timer.is_some(), i == 0);
        window = window.or(action.start_timer);
        assert!(action.batch.is_none());
    }
    let batch = state.timer_fired(&TestResource::TypeA, window.unwrap()).batch.unwrap();
    let replies = run_batch(batch);

    assert_eq!(replies.len(), 5);
    for (i, (sender, reply)) in replies.iter().enumerate() {
        assert_eq!(*sender, i);
        assert_eq!(ok_text(reply), format!("Response for req{}", i));
    }
}

#[test]
fn test_size_based_trigger() {
    let mut state: BatchState<TestResource, String, usize> = BatchState::new(5000, 3);
    let mut batch_count = 0;
    let mut replies = Vec::new();
    let mut windows = Vec::new();
    for i in 0..3 {
        let action = state.submit(TestResource::TypeA, format!("req{}", i), i);
        windows.extend(action.start_timer);
        if let Some(batch) = action.batch {
            batch_count += 1;
            replies.extend(run_batch(batch));
            state.batch_finished(&TestResource::TypeA);
        }
    }
    // The window expires later and finds nothing left to process.
    assert_eq!(windows.len(), 1);
    let late = state.timer_fired(&TestResource::TypeA, windows[0]);
    assert!(late.batch.is_none());
    assert!(late.start_timer.is_none());

    assert_eq!(batch_count, 1, "Should have processed exactly 1 batch");
    assert_eq!(replies.len(), 3);
    for (i, (sender, reply)) in replies.iter().enumerate() {
        assert_eq!(*sender, i);
        assert_eq!(ok_text(reply), format!("Response for req{}", i));
    }
}

#[test]
fn test_separate_resource_queues() {
    let mut state: BatchState<TestResource, String, usize> = BatchState::new(50, 10);
    let a = state.submit(TestResource::TypeA, "a1".to_string(), 0);
    let b = state.submit(TestResource::TypeB, "b1".to_string(), 1);
    let windows = [a.start_timer.unwrap(), b.start_timer.unwrap()];

    let mut calls = Vec::new();
    for (resource, window) in [TestResource::TypeA, TestResource::TypeB].into_iter().zip(windows) {
        if let Some(batch) = state.timer_fired(&resource, window).batch {
            calls.push(resource);
            let replies = run_batch(batch);
            assert_eq!(replies.len(), 1);
            state.batch_finished(&resource);
        }
    }

    assert_eq!(calls.len(), 2, "Should have 2 separate batches");
    assert!(calls.contains(&TestResource::TypeA));
    assert!(calls.contains(&TestResource::TypeB));
}

#[test]
fn test_deduplication() {
    let mut state: BatchState<TestResource, String, usize> = BatchState::new(100, 10);
    let window = state.submit(TestResource::TypeA, "duplicate".to_string(), 0).start_timer.unwrap();
    for i in 1..3 {
        state.submit(TestResource::TypeA, "duplicate".to_string(), i);
    }
    let batch = state.timer_fired(&TestResource::TypeA, window).batch.unwrap();
    assert_eq!(batch.len(), 3);
    assert_eq!(unique_requests(&batch).len(), 1);
    let replies = run_batch(batch);

    // All should get the same response
    assert_eq!(replies.len(), 3);
    for (_, reply) in replies {
        assert_eq!(ok_text(&reply), "Response for duplicate");
    }
}

#[test]
fn test_stats() {
    let mut state: BatchState<TestResource, String, usize> = BatchState::new(5000, 100);
    let window = state.submit(TestResource::TypeA, "req1".to_string(), 0).start_timer.unwrap();

    let stats = state.stats();
    assert!(stats.total_queues > 0);
    assert_eq!(stats.total_queues, 1);
    assert_eq!(stats.total_pending_requests, 1);
    assert_eq!(stats.processing_queues, 0);

    let batch = state.timer_fired(&TestResource::TypeA, window).batch.unwrap();
    let stats = state.stats();
    assert_eq!(stats.total_pending_requests, 0);
    assert_eq!(stats.processing_queues, 1);
    let replies = run_batch(batch);
    assert_eq!(ok_text(&replies[0].1), "Response for req1");
}
