use vstd::prelude::*;
use vstd::laws_eq::obeys_concrete_eq;

use crate::config::{BatcherConfig, BatcherStats};
use crate::entries::{
    lemma_counts_update, lemma_position, lemma_processing_count_counts_busy_queues,
    lemma_total_pending_counts_waiting_requests, lemma_queue_map_len, lemma_total_pending_bounds,
    lemma_with_queue, position, processing_count, processing_flag, queue_in, queue_map,
    total_in_flight, total_pending, valid_entries, with_queue,
};
use crate::laws::{step_batch, step_queues, Step};
use crate::queue::{
    batch_after_submit, batch_after_timer, batch_is, empty_queue, queue_after_batch,
    queue_after_submit, queue_after_timer, window_after_submit, window_after_timer, BatchAction,
    BatchQueue, PendingRequest, QueueView,
};

verus! {

/// The queues of a batcher, one per resource, and the rules that decide when a
/// batch is handed out for processing.
pub struct BatchState<R, Req, S> {
    resources: Vec<R>,
    queues: Vec<BatchQueue<Req, S>>,
    config: BatcherConfig,
    outstanding: usize,
}

impl<R, Req, S> View for BatchState<R, Req, S> {
    type V = Seq<(R, QueueView<Req, S>)>;

    /// The resources with their queues, in the order of their first request.
    closed spec fn view(&self) -> Seq<(R, QueueView<Req, S>)> {
        Seq::new(self.resources@.len(), |i: int| (self.resources@[i], self.queues@[i]@))
    }
}

/// A batch handed out holds at least one request, and no more than the size
/// limit (one, when the limit is zero).
pub open spec fn batch_size_ok<Req, S>(
    batch: Option<Vec<PendingRequest<Req, S>>>,
    max_batch_size: nat,
) -> bool {
    match batch {
        Some(b) => 1 <= b@.len() && (b@.len() <= max_batch_size || b@.len() == 1),
        None => true,
    }
}

impl<R: PartialEq, Req, S> BatchState<R, Req, S> {
    /// The configuration the batcher was made with.
    pub closed spec fn settings(&self) -> BatcherConfig {
        self.config
    }

    /// The queue of each resource that has received a request.
    pub open spec fn queues(&self) -> Map<R, QueueView<Req, S>> {
        queue_map(self@)
    }

    /// The state is well formed.
    pub closed spec fn wf(&self) -> bool {
        &&& self.resources@.len() == self.queues@.len()
        &&& self.outstanding == total_pending(self@) + total_in_flight(self@)
        &&& valid_entries(self@, self.config.max_batch_size as nat)
    }

    /// Every reachable state keeps each resource once; no queue holds
    /// `max_batch_size` requests or more; a queue with waiting requests always
    /// waits for a running window (so no request is left without a timer);
    /// and the map of queues has one entry per resource.
    pub proof fn lemma_wf_valid(&self)
        requires
            self.wf(),
        ensures
            valid_entries(self@, self.settings().max_batch_size as nat),
            self.queues().dom().finite(),
            self.queues().dom().len() == self@.len(),
            forall|k: R| #[trigger]
                self.queues().contains_key(k) ==> {
                    &&& self.queues()[k].requests.len() == 0 || self.queues()[k].requests.len()
                        < self.settings().max_batch_size
                    &&& self.queues()[k].timer_running <==> self.queues()[k].requests.len() > 0
                },
    {
        lemma_queue_map_len(self@);
        assert forall|k: R| #[trigger] self.queues().contains_key(k) implies {
            &&& self.queues()[k].requests.len() == 0 || self.queues()[k].requests.len()
                < self.settings().max_batch_size
            &&& self.queues()[k].timer_running <==> self.queues()[k].requests.len() > 0
        } by {
            let i = position(self@, k)->0;
            assert(self@[i].1.requests.len() == 0 || self@[i].1.requests.len()
                < self.settings().max_batch_size);
            assert(self@[i].1.timer_running <==> self@[i].1.requests.len() > 0);
        }
    }

    /// A batcher with no queues, with the given window and size limit.
    pub fn new(batch_window_ms: u64, max_batch_size: usize) -> (state: Self)
        ensures
            state.wf(),
            state@ == Seq::<(R, QueueView<Req, S>)>::empty(),
            state.queues() == Map::<R, QueueView<Req, S>>::empty(),
            state.settings() == (BatcherConfig { batch_window_ms, max_batch_size }),
    {
        Self::with_config(BatcherConfig { batch_window_ms, max_batch_size })
    }

    /// A batcher with no queues and the given configuration.
    pub fn with_config(config: BatcherConfig) -> (state: Self)
        ensures
            state.wf(),
            state@ == Seq::<(R, QueueView<Req, S>)>::empty(),
            state.queues() == Map::<R, QueueView<Req, S>>::empty(),
            state.settings() == config,
    {
        let state = BatchState {
            resources: Vec::new(),
            queues: Vec::new(),
            config,
            outstanding: 0,
        };
        assert(state@ =~= Seq::<(R, QueueView<Req, S>)>::empty());
        assert(state.queues() =~= Map::<R, QueueView<Req, S>>::empty());
        state
    }

    /// The configuration the batcher was made with.
    pub fn config(&self) -> (config: BatcherConfig)
        ensures
            config == self.settings(),
    {
        BatcherConfig {
            batch_window_ms: self.config.batch_window_ms,
            max_batch_size: self.config.max_batch_size,
        }
    }

    /// The requests waiting across all queues plus the batches in processing.
    pub fn outstanding_count(&self) -> (count: usize)
        requires
            self.wf(),
        ensures
            count == total_pending(self@) + total_in_flight(self@),
    {
        self.outstanding
    }

    /// Queues `request` for `resource`, creating the resource's queue on its
    /// first request. A request that brings the queue to `max_batch_size`
    /// hands the whole queue out for processing at once. Otherwise the request
    /// waits for the queue's window; a request that finds no window running
    /// starts one, which the caller must time and report by its name. Other
    /// resources' queues stay as they were.
    pub fn submit(&mut self, resource: R, request: Req, sender: S) -> (action: BatchAction<
        Req,
        S,
    >)
        requires
            old(self).wf(),
            obeys_concrete_eq::<R>(),
            total_pending(old(self)@) + total_in_flight(old(self)@) < usize::MAX,
        ensures
            final(self).wf(),
            final(self).settings() == old(self).settings(),
            ({
                let k = resource;
                let q = queue_in(old(self).queues(), k);
                let p = PendingRequest { request, sender };
                let max = old(self).settings().max_batch_size as nat;
                let nq = queue_after_submit(q, p, max);
                &&& final(self).queues() == old(self).queues().insert(k, nq)
                &&& final(self).queues() == step_queues(
                    old(self).queues(),
                    max,
                    Step::Submit { resource: k, request: p },
                )
                &&& batch_is(
                    action.batch,
                    step_batch(old(self).queues(), max, Step::Submit { resource: k, request: p }),
                )
                &&& final(self)@ == with_queue(old(self)@, k, nq)
                &&& total_pending(final(self)@) + q.requests.len() == total_pending(old(self)@)
                    + nq.requests.len()
                &&& total_in_flight(final(self)@) + q.in_flight == total_in_flight(old(self)@)
                    + nq.in_flight
                &&& processing_count(final(self)@) + processing_flag(q) == processing_count(
                    old(self)@,
                ) + processing_flag(nq)
                &&& action.start_timer == window_after_submit(q, p, max)
                &&& batch_is(action.batch, batch_after_submit(q, p, max))
                &&& batch_size_ok(action.batch, max)
            }),
    {
        let ghost k = resource;
        let ghost old_view = self@;
        let ghost p = PendingRequest { request, sender };
        let ghost q = queue_in(queue_map(old_view), k);
        let max = self.config.max_batch_size;
        let i = match self.find(&resource) {
            Some(i) => i,
            None => {
                self.resources.push(resource);
                self.queues.push(BatchQueue::new());
                proof {
                    assert(self@ =~= old_view.push((k, empty_queue())));
                    assert(self@.drop_last() =~= old_view);
                    assert(self@ == with_queue(old_view, k, empty_queue()));
                    lemma_with_queue(old_view, k, empty_queue());
                }
                self.resources.len() - 1
            },
        };
        let ghost mid = self@;
        proof {
            lemma_position(mid, k, i as int);
            assert(mid[i as int].1 == q);
            lemma_total_pending_bounds(mid, i as int);
        }
        let queued = self.queues[i].requests.len();
        let action = self.queues[i].accept(PendingRequest { request, sender }, max);
        if action.batch.is_some() {
            self.outstanding = self.outstanding - queued + 1;
        } else {
            self.outstanding = self.outstanding + 1;
        }
        proof {
            let nq = queue_after_submit(q, p, max as nat);
            assert(self@ =~= mid.update(i as int, (k, nq)));
            assert(self@ == with_queue(mid, k, nq));
            lemma_with_queue(mid, k, nq);
            lemma_with_queue(old_view, k, nq);
            assert(with_queue(mid, k, nq) =~= with_queue(old_view, k, nq));
            lemma_counts_update(mid, i as int, (k, nq));
            self.lemma_keep_valid(mid, i as int);
        }
        action
    }

    /// Window `epoch` of `resource` expired. An expiry of any window but the
    /// one the queue's requests wait for changes nothing. Otherwise the queue
    /// is handed out for processing when no batch of it is in processing;
    /// while one is, a new window is started for the waiting requests, which
    /// the caller must time. A resource with no queue is left alone.
    pub fn timer_fired(&mut self, resource: &R, epoch: u64) -> (action: BatchAction<Req, S>)
        requires
            old(self).wf(),
            obeys_concrete_eq::<R>(),
        ensures
            final(self).wf(),
            final(self).settings() == old(self).settings(),
            ({
                let step = Step::Expire { resource: *resource, window: epoch };
                let max = old(self).settings().max_batch_size as nat;
                &&& final(self).queues() == step_queues(old(self).queues(), max, step)
                &&& batch_is(action.batch, step_batch(old(self).queues(), max, step))
            }),
            ({
                let k = *resource;
                if old(self).queues().contains_key(k) {
                    let q = old(self).queues()[k];
                    let nq = queue_after_timer(q, epoch);
                    &&& final(self).queues() == old(self).queues().insert(k, nq)
                    &&& final(self)@ == with_queue(old(self)@, k, nq)
                    &&& total_pending(final(self)@) + q.requests.len() == total_pending(
                        old(self)@,
                    ) + nq.requests.len()
                    &&& total_in_flight(final(self)@) + q.in_flight == total_in_flight(
                        old(self)@,
                    ) + nq.in_flight
                    &&& processing_count(final(self)@) + processing_flag(q) == processing_count(
                        old(self)@,
                    ) + processing_flag(nq)
                    &&& action.start_timer == window_after_timer(q, epoch)
                    &&& batch_is(action.batch, batch_after_timer(q, epoch))
                    &&& batch_size_ok(action.batch, old(self).settings().max_batch_size as nat)
                } else {
                    &&& final(self)@ == old(self)@
                    &&& action.start_timer is None
                    &&& action.batch is None
                }
            }),
    {
        let ghost old_view = self@;
        let ghost k = *resource;
        match self.find(resource) {
            None => BatchAction { start_timer: None, batch: None },
            Some(i) => {
                let queued = self.queues[i].requests.len();
                proof {
                    lemma_position(old_view, k, i as int);
                    lemma_total_pending_bounds(old_view, i as int);
                }
                let action = self.queues[i].expire_window(epoch);
                if action.batch.is_some() {
                    self.outstanding = self.outstanding - queued + 1;
                }
                proof {
                    let nq = queue_after_timer(old_view[i as int].1, epoch);
                    assert(self@ =~= old_view.update(i as int, (k, nq)));
                    lemma_with_queue(old_view, k, nq);
                    lemma_counts_update(old_view, i as int, (k, nq));
                    self.lemma_keep_valid(old_view, i as int);
                }
                action
            },
        }
    }

    /// The processing of a batch of `resource` has finished.
    pub fn batch_finished(&mut self, resource: &R)
        requires
            old(self).wf(),
            obeys_concrete_eq::<R>(),
        ensures
            final(self).wf(),
            final(self).settings() == old(self).settings(),
            final(self).queues() == step_queues(
                old(self).queues(),
                old(self).settings().max_batch_size as nat,
                Step::Finish { resource: *resource },
            ),
            ({
                let k = *resource;
                if old(self).queues().contains_key(k) {
                    let q = old(self).queues()[k];
                    let nq = queue_after_batch(q);
                    &&& final(self).queues() == old(self).queues().insert(k, nq)
                    &&& final(self)@ == with_queue(old(self)@, k, nq)
                    &&& total_pending(final(self)@) == total_pending(old(self)@)
                    &&& total_in_flight(final(self)@) + q.in_flight == total_in_flight(old(self)@)
                        + nq.in_flight
                    &&& processing_count(final(self)@) + processing_flag(q) == processing_count(
                        old(self)@,
                    ) + processing_flag(nq)
                } else {
                    final(self)@ == old(self)@
                }
            }),
    {
        let ghost old_view = self@;
        let ghost k = *resource;
        match self.find(resource) {
            None => {},
            Some(i) => {
                let was_in_flight = self.queues[i].in_flight;
                proof {
                    lemma_position(old_view, k, i as int);
                    lemma_total_pending_bounds(old_view, i as int);
                }
                self.queues[i].finish_batch();
                if was_in_flight > 0 {
                    self.outstanding = self.outstanding - 1;
                }
                proof {
                    let nq = queue_after_batch(old_view[i as int].1);
                    assert(self@ =~= old_view.update(i as int, (k, nq)));
                    lemma_with_queue(old_view, k, nq);
                    lemma_counts_update(old_view, i as int, (k, nq));
                    self.lemma_keep_valid(old_view, i as int);
                }
            },
        }
    }

    /// The counts that `BatcherStats` reports: resources with a queue, requests
    /// waiting across all queues, and queues with a batch in processing.
    pub fn stats(&self) -> (stats: BatcherStats)
        requires
            self.wf(),
        ensures
            stats.total_queues == self.queues().dom().len(),
            stats.total_queues == self@.len(),
            stats.total_pending_requests == total_pending(self@),
            stats.total_pending_requests == self@.map_values(
                |e: (R, QueueView<Req, S>)| e.1.requests,
            ).flatten().len(),
            stats.processing_queues == processing_count(self@),
            stats.processing_queues == self@.filter(
                |e: (R, QueueView<Req, S>)| e.1.in_flight > 0,
            ).len(),
            stats.processing_queues <= stats.total_queues,
    {
        proof {
            lemma_processing_count_counts_busy_queues(self@);
            lemma_total_pending_counts_waiting_requests(self@);
            lemma_queue_map_len(self@);
            lemma_total_pending_bounds(self@, 0);
        }
        let n = self.queues.len();
        let mut pending: usize = 0;
        let mut processing: usize = 0;
        let mut i: usize = 0;
        while i < n
            invariant
                self.wf(),
                n == self@.len(),
                i <= n,
                pending == total_pending(self@.take(i as int)),
                processing == processing_count(self@.take(i as int)),
                processing <= i,
            decreases n - i,
        {
            proof {
                assert(self@.take(i + 1).drop_last() =~= self@.take(i as int));
                lemma_total_pending_bounds(self@, i + 1);
            }
            pending = pending + self.queues[i].requests.len();
            if self.queues[i].in_flight > 0 {
                processing = processing + 1;
            }
            i = i + 1;
        }
        proof {
            assert(self@.take(n as int) =~= self@);
        }
        BatcherStats {
            total_queues: n,
            total_pending_requests: pending,
            processing_queues: processing,
        }
    }

    /// Replacing the queue at `i` with one that keeps the per-queue rules, and
    /// keeping the counter of outstanding work, keeps the state valid.
    proof fn lemma_keep_valid(&self, before: Seq<(R, QueueView<Req, S>)>, i: int)
        requires
            valid_entries(before, self.config.max_batch_size as nat),
            0 <= i < before.len(),
            self@ == before.update(i, (before[i].0, self@[i].1)),
            self@[i].1.requests.len() == 0 || self@[i].1.requests.len()
                < self.config.max_batch_size,
            self@[i].1.timer_running <==> self@[i].1.requests.len() > 0,
            total_pending(self@) + total_in_flight(self@) <= usize::MAX,
            self.outstanding == total_pending(self@) + total_in_flight(self@),
            self.resources@.len() == self.queues@.len(),
        ensures
            self.wf(),
    {
        let max = self.config.max_batch_size;
        assert forall|j: int, l: int| 0 <= j < l < self@.len() implies self@[j].0 != self@[l].0 by {
            assert(self@[j].0 == before[j].0);
            assert(self@[l].0 == before[l].0);
        }
        assert forall|j: int| 0 <= j < self@.len() implies #[trigger] self@[j].1.requests.len() == 0
            || self@[j].1.requests.len() < max by {
            if j != i {
                assert(self@[j] == before[j]);
            }
        }
        assert forall|j: int| 0 <= j < self@.len() implies (#[trigger] self@[j].1.timer_running
            <==> self@[j].1.requests.len() > 0) by {
            if j != i {
                assert(self@[j] == before[j]);
            }
        }
    }

    /// Finds the queue of `resource`.
    fn find(&self, resource: &R) -> (pos: Option<usize>)
        requires
            self.wf(),
            obeys_concrete_eq::<R>(),
        ensures
            match pos {
                Some(i) => i < self@.len() && self@[i as int].0 == *resource && position(
                    self@,
                    *resource,
                ) == Some(i as int),
                None => position(self@, *resource) is None && !self.queues().contains_key(
                    *resource,
                ),
            },
    {
        let n = self.resources.len();
        let mut i: usize = 0;
        while i < n
            invariant
                n == self.resources@.len(),
                i <= n,
                forall|j: int| 0 <= j < i ==> self@[j].0 != *resource,
                self.wf(),
                obeys_concrete_eq::<R>(),
            decreases n - i,
        {
            proof {
                reveal(obeys_concrete_eq);
            }
            if self.resources[i] == *resource {
                proof {
                    lemma_position(self@, *resource, i as int);
                }
                return Some(i);
            }
            i = i + 1;
        }
        None
    }
}

} // verus!
