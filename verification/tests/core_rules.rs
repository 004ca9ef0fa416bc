use request_batcher::{
    distribute_results, unique_requests, BatchError, BatchState, BatcherConfig, PendingRequest,
};

type State = BatchState<u8, u64, &'static str>;

fn pending(items: &[(u64, &'static str)]) -> Vec<PendingRequest<u64, &'static str>> {
    items.iter().map(|&(request, sender)| PendingRequest { request, sender }).collect()
}

#[test]
fn default_config_values() {
    let config = BatcherConfig::default();
    assert_eq!(config.batch_window_ms, 100);
    assert_eq!(config.max_batch_size, 50);
}

#[test]
fn constructors_keep_config() {
    let state: State = BatchState::new(250, 7);
    let config = state.config();
    assert_eq!(config.batch_window_ms, 250);
    assert_eq!(config.max_batch_size, 7);

    let state: State = BatchState::with_config(BatcherConfig { batch_window_ms: 9, max_batch_size: 4 });
    assert_eq!(state.config().batch_window_ms, 9);
    assert_eq!(state.config().max_batch_size, 4);
    let stats = state.stats();
    assert_eq!(stats.total_queues, 0);
    assert_eq!(stats.total_pending_requests, 0);
    assert_eq!(stats.processing_queues, 0);
}

#[test]
fn error_constructors() {
    match BatchError::<u32>::processing_failed(7) {
        BatchError::ProcessingFailed(e) => assert_eq!(e, 7),
        other => panic!("unexpected {:?}", other),
    }
    match BatchError::<u32>::other("boom") {
        BatchError::Other(m) => assert_eq!(m, "boom"),
        other => panic!("unexpected {:?}", other),
    }
    match BatchError::<u32>::other(String::from("owned")) {
        BatchError::Other(m) => assert_eq!(m, "owned"),
        other => panic!("unexpected {:?}", other),
    }
}

#[test]
fn batch_of_exactly_max_size_on_submit() {
    let mut state: State = BatchState::new(1000, 4);
    let first = state.submit(1, 0, "r");
    assert_eq!(first.start_timer, Some(1));
    for i in 1..3u64 {
        let action = state.submit(1, i, "r");
        assert!(action.batch.is_none());
        assert!(action.start_timer.is_none());
    }
    let action = state.submit(1, 3, "r");
    let batch = action.batch.unwrap();
    assert!(action.start_timer.is_none());
    assert_eq!(batch.iter().map(|p| p.request).collect::<Vec<_>>(), vec![0, 1, 2, 3]);
    let stats = state.stats();
    assert_eq!(stats.total_pending_requests, 0);
    assert_eq!(stats.processing_queues, 1);
    // The next request starts a new window, under a new name.
    let action = state.submit(1, 4, "r");
    assert_eq!(action.start_timer, Some(2));
    assert!(action.batch.is_none());
}

#[test]
fn limit_of_one_or_zero_processes_every_request_at_once() {
    for max in [0usize, 1] {
        let mut state: State = BatchState::new(1000, max);
        let action = state.submit(2, 11, "x");
        assert!(action.start_timer.is_none());
        let batch = action.batch.unwrap();
        assert_eq!(batch.len(), 1);
        assert_eq!(batch[0].request, 11);
        assert_eq!(state.stats().total_pending_requests, 0);
    }
}

#[test]
fn window_expiry_during_processing_starts_a_new_window() {
    let mut state: State = BatchState::new(1000, 10);
    let w1 = state.submit(1, 1, "a").start_timer.unwrap();
    let first = state.timer_fired(&1, w1).batch.unwrap();
    assert_eq!(first.len(), 1);
    // A new request arrives while the batch is processed, under a new window.
    let w2 = state.submit(1, 2, "b").start_timer.unwrap();
    assert_ne!(w1, w2);
    // Its window expires while the first batch is still processed: the request
    // waits for a further window instead of being lost.
    let rearm = state.timer_fired(&1, w2);
    assert!(rearm.batch.is_none());
    let w3 = rearm.start_timer.unwrap();
    assert_ne!(w3, w2);
    assert_eq!(state.stats().total_pending_requests, 1);
    state.batch_finished(&1);
    assert_eq!(state.stats().processing_queues, 0);
    // The stale window changes nothing; the current one hands the request out.
    let stale = state.timer_fired(&1, w2);
    assert!(stale.batch.is_none() && stale.start_timer.is_none());
    let batch = state.timer_fired(&1, w3).batch.unwrap();
    assert_eq!(batch.iter().map(|p| p.request).collect::<Vec<_>>(), vec![2]);
}

#[test]
fn old_window_does_not_flush_the_next_batch() {
    let mut state: State = BatchState::new(1000, 2);
    let w1 = state.submit(1, 1, "a").start_timer.unwrap();
    let full = state.submit(1, 2, "b").batch.unwrap();
    assert_eq!(full.len(), 2);
    state.batch_finished(&1);
    let w2 = state.submit(1, 3, "c").start_timer.unwrap();
    assert_ne!(w1, w2);
    // The window of the first batch expires: it is stale.
    let early = state.timer_fired(&1, w1);
    assert!(early.batch.is_none());
    assert!(early.start_timer.is_none());
    assert_eq!(state.stats().total_pending_requests, 1);
    let batch = state.timer_fired(&1, w2).batch.unwrap();
    assert_eq!(batch[0].request, 3);
}

#[test]
fn overlapping_batches_keep_the_queue_processing() {
    let mut state: State = BatchState::new(1000, 2);
    state.submit(1, 1, "a");
    let b1 = state.submit(1, 2, "b").batch.unwrap();
    state.submit(1, 3, "c");
    let b2 = state.submit(1, 4, "d").batch.unwrap();
    assert_eq!((b1.len(), b2.len()), (2, 2));
    assert_eq!(state.stats().processing_queues, 1);
    state.batch_finished(&1);
    // The second batch is still being processed.
    assert_eq!(state.stats().processing_queues, 1);
    state.batch_finished(&1);
    assert_eq!(state.stats().processing_queues, 0);
    // A further report of a finished batch changes nothing.
    state.batch_finished(&1);
    assert_eq!(state.stats().processing_queues, 0);
}

#[test]
fn window_expiry_for_unknown_queue() {
    let mut state: State = BatchState::new(1000, 5);
    let action = state.timer_fired(&9, 1);
    assert!(action.batch.is_none() && action.start_timer.is_none());
    state.batch_finished(&9);
    assert_eq!(state.stats().total_queues, 0);
}

#[test]
fn resources_keep_separate_queues() {
    let mut state: State = BatchState::new(1000, 3);
    state.submit(1, 10, "a");
    let w2 = state.submit(2, 20, "b").start_timer.unwrap();
    state.submit(1, 11, "c");
    let stats = state.stats();
    assert_eq!(stats.total_queues, 2);
    assert_eq!(stats.total_pending_requests, 3);
    let batch = state.timer_fired(&2, w2).batch.unwrap();
    assert_eq!(batch.len(), 1);
    assert_eq!(batch[0].request, 20);
    let stats = state.stats();
    assert_eq!(stats.total_queues, 2);
    assert_eq!(stats.total_pending_requests, 2);
    assert_eq!(stats.processing_queues, 1);
}

#[test]
fn unique_requests_keep_first_order() {
    let batch = pending(&[(5, "a"), (3, "b"), (5, "c"), (7, "d"), (3, "e")]);
    let unique: Vec<u64> = unique_requests(&batch).into_iter().copied().collect();
    assert_eq!(unique, vec![5, 3, 7]);
    let empty = pending(&[]);
    assert!(unique_requests(&empty).is_empty());
}

#[test]
fn missing_response_is_request_not_found() {
    let batch = pending(&[(1, "a"), (2, "b"), (1, "c")]);
    let outcome: Result<Vec<(u64, String)>, String> = Ok(vec![(1, "one".to_string())]);
    let replies = distribute_results(batch, outcome);
    assert_eq!(replies.len(), 3);
    assert_eq!(replies[0].0, "a");
    assert!(matches!(&replies[0].1, Ok(v) if v == "one"));
    assert_eq!(replies[1].0, "b");
    assert!(matches!(replies[1].1, Err(BatchError::RequestNotFound)));
    assert_eq!(replies[2].0, "c");
    assert!(matches!(&replies[2].1, Ok(v) if v == "one"));
}

#[test]
fn failed_batch_fails_every_requester() {
    let batch = pending(&[(1, "a"), (2, "b")]);
    let outcome: Result<Vec<(u64, String)>, String> = Err("down".to_string());
    let replies = distribute_results(batch, outcome);
    assert_eq!(replies.len(), 2);
    for (sender, (got, reply)) in ["a", "b"].iter().zip(replies.iter()) {
        assert_eq!(got, sender);
        assert!(matches!(reply, Err(BatchError::ProcessingFailed(e)) if e == "down"));
    }
}

#[test]
fn response_lookup_uses_first_matching_entry() {
    let batch = pending(&[(4, "a")]);
    let outcome: Result<Vec<(u64, u32)>, String> = Ok(vec![(3, 30), (4, 40), (4, 41)]);
    let replies = distribute_results(batch, outcome);
    assert!(matches!(replies[0].1, Ok(40)));
}

#[test]
fn every_request_is_handed_out_once() {
    let mut state: State = BatchState::new(1000, 3);
    let mut handed: Vec<u64> = Vec::new();
    let mut window = 0;
    for i in 0..7u64 {
        let action = state.submit(1, i, "s");
        if let Some(w) = action.start_timer {
            window = w;
        }
        if let Some(batch) = action.batch {
            assert_eq!(batch.len(), 3);
            handed.extend(batch.iter().map(|p| p.request));
            state.batch_finished(&1);
        }
    }
    assert_eq!(state.stats().total_pending_requests, 1);
    let rest = state.timer_fired(&1, window).batch.unwrap();
    assert_eq!(rest.len(), 1);
    handed.extend(rest.iter().map(|p| p.request));
    assert_eq!(handed, (0..7u64).collect::<Vec<_>>());
    assert_eq!(state.stats().total_pending_requests, 0);
}
