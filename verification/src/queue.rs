use vstd::prelude::*;

verus! {

/// A request waiting in a queue, together with the handle through which its
/// reply reaches the caller that submitted it.
pub struct PendingRequest<Req, S> {
    pub request: Req,
    pub sender: S,
}

/// The abstract state of one resource's queue.
pub struct QueueView<Req, S> {
    /// Requests accepted and not yet handed out in a batch, oldest first.
    pub requests: Seq<PendingRequest<Req, S>>,
    /// Whether the requests wait for a batch window, the one named `epoch`.
    pub timer_running: bool,
    /// The name of the latest batch window started for this queue.
    pub epoch: u64,
    /// The number of batches of this queue handed out and not yet finished.
    pub in_flight: nat,
}

/// The queue of a resource that has never received a request.
pub open spec fn empty_queue<Req, S>() -> QueueView<Req, S> {
    QueueView { requests: Seq::empty(), timer_running: false, epoch: 0, in_flight: 0 }
}

/// The name of the window started after the one named `e`.
pub open spec fn next_epoch(e: u64) -> u64 {
    if e == u64::MAX {
        0
    } else {
        (e + 1) as u64
    }
}

/// Whether a queue that already holds `queued` requests is processed at once
/// when one more request arrives.
pub open spec fn size_triggered(queued: nat, max_batch_size: nat) -> bool {
    queued + 1 >= max_batch_size
}

/// The queue after `p` is submitted to `q`: handed out with `p` when it
/// reaches the size limit, otherwise holding `p` under a running window (a new
/// one when none was running).
pub open spec fn queue_after_submit<Req, S>(
    q: QueueView<Req, S>,
    p: PendingRequest<Req, S>,
    max_batch_size: nat,
) -> QueueView<Req, S> {
    if size_triggered(q.requests.len(), max_batch_size) {
        QueueView { requests: Seq::empty(), timer_running: false, in_flight: q.in_flight + 1, ..q }
    } else if q.timer_running {
        QueueView { requests: q.requests.push(p), ..q }
    } else {
        QueueView {
            requests: q.requests.push(p),
            timer_running: true,
            epoch: next_epoch(q.epoch),
            ..q
        }
    }
}

/// The batch that submitting `p` to `q` hands out for processing at once, if any.
pub open spec fn batch_after_submit<Req, S>(
    q: QueueView<Req, S>,
    p: PendingRequest<Req, S>,
    max_batch_size: nat,
) -> Option<Seq<PendingRequest<Req, S>>> {
    if size_triggered(q.requests.len(), max_batch_size) {
        Some(q.requests.push(p))
    } else {
        None
    }
}

/// The window that submitting `p` to `q` starts and the caller must time, if any.
pub open spec fn window_after_submit<Req, S>(
    q: QueueView<Req, S>,
    p: PendingRequest<Req, S>,
    max_batch_size: nat,
) -> Option<u64> {
    if !size_triggered(q.requests.len(), max_batch_size) && !q.timer_running {
        Some(next_epoch(q.epoch))
    } else {
        None
    }
}

/// Whether the expiry of window `e` concerns `q`: it is the window its
/// requests wait for. Expiries of earlier windows are stale.
pub open spec fn window_is_current<Req, S>(q: QueueView<Req, S>, e: u64) -> bool {
    q.timer_running && q.epoch == e
}

/// Whether the expiry of window `e` hands the requests of `q` out for processing.
pub open spec fn timer_takes_batch<Req, S>(q: QueueView<Req, S>, e: u64) -> bool {
    window_is_current(q, e) && q.in_flight == 0 && q.requests.len() > 0
}

/// Whether the expiry of window `e` finds a batch of `q` in processing while
/// requests wait, so that a new window is started for them.
pub open spec fn timer_rearms<Req, S>(q: QueueView<Req, S>, e: u64) -> bool {
    window_is_current(q, e) && q.in_flight > 0 && q.requests.len() > 0
}

/// The queue after window `e` expired.
pub open spec fn queue_after_timer<Req, S>(q: QueueView<Req, S>, e: u64) -> QueueView<Req, S> {
    if !window_is_current(q, e) {
        q
    } else if timer_takes_batch(q, e) {
        QueueView { requests: Seq::empty(), timer_running: false, in_flight: 1, ..q }
    } else if timer_rearms(q, e) {
        QueueView { epoch: next_epoch(q.epoch), ..q }
    } else {
        QueueView { timer_running: false, ..q }
    }
}

/// The batch handed out when window `e` of `q` expires, if any.
pub open spec fn batch_after_timer<Req, S>(q: QueueView<Req, S>, e: u64) -> Option<
    Seq<PendingRequest<Req, S>>,
> {
    if timer_takes_batch(q, e) {
        Some(q.requests)
    } else {
        None
    }
}

/// The window started when window `e` of `q` expires, if any.
pub open spec fn window_after_timer<Req, S>(q: QueueView<Req, S>, e: u64) -> Option<u64> {
    if timer_rearms(q, e) {
        Some(next_epoch(q.epoch))
    } else {
        None
    }
}

/// The queue after the processing of one of its batches has finished.
pub open spec fn queue_after_batch<Req, S>(q: QueueView<Req, S>) -> QueueView<Req, S> {
    QueueView {
        in_flight: if q.in_flight > 0 {
            (q.in_flight - 1) as nat
        } else {
            0
        },
        ..q
    }
}

/// What the caller must do after a step: time a new batch window, and process
/// a batch.
pub struct BatchAction<Req, S> {
    /// The window to time, by name: its expiry is reported with this name.
    pub start_timer: Option<u64>,
    /// The batch to process now.
    pub batch: Option<Vec<PendingRequest<Req, S>>>,
}

/// Whether `batch` is what `expected` says is handed out.
pub open spec fn batch_is<Req, S>(
    batch: Option<Vec<PendingRequest<Req, S>>>,
    expected: Option<Seq<PendingRequest<Req, S>>>,
) -> bool {
    match batch {
        Some(b) => expected == Some(b@),
        None => expected is None,
    }
}

/// The queue state of one resource.
pub struct BatchQueue<Req, S> {
    pub requests: Vec<PendingRequest<Req, S>>,
    pub timer_running: bool,
    pub epoch: u64,
    pub in_flight: usize,
}

impl<Req, S> View for BatchQueue<Req, S> {
    type V = QueueView<Req, S>;

    open spec fn view(&self) -> QueueView<Req, S> {
        QueueView {
            requests: self.requests@,
            timer_running: self.timer_running,
            epoch: self.epoch,
            in_flight: self.in_flight as nat,
        }
    }
}

/// The name of the window started after the one named `e`.
fn advance_epoch(e: u64) -> (next: u64)
    ensures
        next == next_epoch(e),
{
    if e == u64::MAX {
        0
    } else {
        e + 1
    }
}

impl<Req, S> BatchQueue<Req, S> {
    /// An empty queue with no window and no batch in processing.
    pub fn new() -> (q: Self)
        ensures
            q@ == empty_queue::<Req, S>(),
    {
        BatchQueue { requests: Vec::new(), timer_running: false, epoch: 0, in_flight: 0 }
    }

    /// Accepts `p`: hands the queue out with `p` once it reaches
    /// `max_batch_size` requests; otherwise queues `p`, starting a window if
    /// none runs.
    pub fn accept(&mut self, p: PendingRequest<Req, S>, max_batch_size: usize) -> (action:
        BatchAction<Req, S>)
        requires
            old(self).in_flight < usize::MAX,
        ensures
            final(self)@ == queue_after_submit(old(self)@, p, max_batch_size as nat),
            action.start_timer == window_after_submit(old(self)@, p, max_batch_size as nat),
            batch_is(action.batch, batch_after_submit(old(self)@, p, max_batch_size as nat)),
    {
        let queued = self.requests.len();
        let process_now = max_batch_size == 0 || queued >= max_batch_size - 1;
        self.requests.push(p);
        if process_now {
            self.in_flight = self.in_flight + 1;
            let batch = self.take_requests();
            self.timer_running = false;
            BatchAction { start_timer: None, batch: Some(batch) }
        } else if self.timer_running {
            BatchAction { start_timer: None, batch: None }
        } else {
            self.epoch = advance_epoch(self.epoch);
            self.timer_running = true;
            BatchAction { start_timer: Some(self.epoch), batch: None }
        }
    }

    /// Window `epoch` expired. A stale window changes nothing. Otherwise the
    /// queue is handed out when no batch of it is in processing; while one is,
    /// a new window is started for the waiting requests.
    pub fn expire_window(&mut self, epoch: u64) -> (action: BatchAction<Req, S>)
        ensures
            final(self)@ == queue_after_timer(old(self)@, epoch),
            action.start_timer == window_after_timer(old(self)@, epoch),
            batch_is(action.batch, batch_after_timer(old(self)@, epoch)),
    {
        if !self.timer_running || self.epoch != epoch {
            BatchAction { start_timer: None, batch: None }
        } else if self.in_flight == 0 && self.requests.len() > 0 {
            self.in_flight = 1;
            let batch = self.take_requests();
            self.timer_running = false;
            BatchAction { start_timer: None, batch: Some(batch) }
        } else if self.requests.len() > 0 {
            self.epoch = advance_epoch(self.epoch);
            BatchAction { start_timer: Some(self.epoch), batch: None }
        } else {
            self.timer_running = false;
            BatchAction { start_timer: None, batch: None }
        }
    }

    /// Marks one batch in processing as done.
    pub fn finish_batch(&mut self)
        ensures
            final(self)@ == queue_after_batch(old(self)@),
    {
        if self.in_flight > 0 {
            self.in_flight = self.in_flight - 1;
        }
    }

    /// Takes every queued request out, leaving the queue empty.
    pub fn take_requests(&mut self) -> (taken: Vec<PendingRequest<Req, S>>)
        ensures
            taken@ == old(self)@.requests,
            final(self)@ == (QueueView { requests: Seq::empty(), ..old(self)@ }),
    {
        let mut taken: Vec<PendingRequest<Req, S>> = Vec::new();
        std::mem::swap(&mut taken, &mut self.requests);
        taken
    }
}

} // verus!
