# request_batcher

Request batching with verified decisions. Requests for a resource wait in that
resource's queue; the queue is handed out for processing as one batch when the
batch window started by its first request expires, or at once when it reaches
the size limit. Windows are named, so that only the window the requests wait
for can flush them; a window that expires while a batch of the queue is still
processed starts a new one, so waiting requests always have a timer. A batch is sent to the processor deduplicated, and every
requester receives its own reply.

- `src/` — the library, verified with Verus:
  - `queue.rs`: one resource's queue and its steps (accept, window expiry, batch done);
  - `entries.rs`: the resource table as a sequence of queues, its map view and counts;
  - `state.rs`: `BatchState`, the batcher's state machine, and `stats`;
  - `dispatch.rs`: deduplication of a batch and distribution of the processor's answer;
  - `laws.rs`: properties that relate several steps, including laws over whole
    runs of steps from an empty batcher (batch sizes, windows, conservation of
    requests);
  - `config.rs`, `error.rs`: configuration, statistics and error types.
- `app/` — the asynchronous `Batcher` on tokio: locking, timers, the
  `BatchProcessor` trait and reply channels.
- `tests/` — batching scenarios (single request, concurrent requests, size
  trigger, separate resources, deduplication, statistics) run on the state machine,
  and tests of the individual rules.
