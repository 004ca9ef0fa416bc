use vstd::prelude::*;

use crate::entries::queue_in;
use crate::queue::{
    batch_after_submit, batch_after_timer, next_epoch, queue_after_batch, queue_after_submit,
    queue_after_timer, size_triggered, timer_rearms, timer_takes_batch, window_after_submit,
    window_after_timer, window_is_current, PendingRequest, QueueView,
};

verus! {

/// Whether a queue keeps the rules every reachable state keeps: fewer than
/// `max_batch_size` requests (or none), and a running window exactly when
/// requests wait.
pub open spec fn queue_ok<Req, S>(q: QueueView<Req, S>, max_batch_size: nat) -> bool {
    &&& q.requests.len() == 0 || q.requests.len() < max_batch_size
    &&& q.timer_running <==> q.requests.len() > 0
}

/// Whether the requests of `nq` wait for a window they did not wait for in `q`.
pub open spec fn new_window<Req, S>(q: QueueView<Req, S>, nq: QueueView<Req, S>) -> bool {
    nq.timer_running && !(q.timer_running && q.epoch == nq.epoch)
}

/// Size trigger: with a limit of at least one request and a queue as every
/// reachable state has it, a submission that hands a batch out hands out
/// exactly `max_batch_size` requests, and one that does not leaves fewer than
/// `max_batch_size` waiting; an expiring window hands out a non-empty batch of
/// fewer than `max_batch_size` requests. No batch is empty, and none exceeds
/// the limit.
pub proof fn lemma_batches_within_limit<Req, S>(
    q: QueueView<Req, S>,
    p: PendingRequest<Req, S>,
    e: u64,
    max_batch_size: nat,
)
    requires
        max_batch_size >= 1,
        queue_ok(q, max_batch_size),
    ensures
        match batch_after_submit(q, p, max_batch_size) {
            Some(b) => b.len() == max_batch_size,
            None => queue_after_submit(q, p, max_batch_size).requests.len() < max_batch_size,
        },
        match batch_after_timer(q, e) {
            Some(b) => 1 <= b.len() < max_batch_size,
            None => true,
        },
{
}

/// No request is lost or repeated: what a step hands out, followed by what
/// stays queued, is the old queue (followed by the new request, for a
/// submission). Finishing a batch leaves the waiting requests alone.
pub proof fn lemma_requests_conserved<Req, S>(
    q: QueueView<Req, S>,
    p: PendingRequest<Req, S>,
    e: u64,
    max_batch_size: nat,
)
    ensures
        ({
            let handed = match batch_after_submit(q, p, max_batch_size) {
                Some(b) => b,
                None => Seq::empty(),
            };
            handed + queue_after_submit(q, p, max_batch_size).requests == q.requests.push(p)
        }),
        ({
            let handed = match batch_after_timer(q, e) {
                Some(b) => b,
                None => Seq::empty(),
            };
            handed + queue_after_timer(q, e).requests == q.requests
        }),
        queue_after_batch(q).requests == q.requests,
{
    let handed = match batch_after_submit(q, p, max_batch_size) {
        Some(b) => b,
        None => Seq::empty(),
    };
    assert(handed + queue_after_submit(q, p, max_batch_size).requests =~= q.requests.push(p));
    let handed2 = match batch_after_timer(q, e) {
        Some(b) => b,
        None => Seq::empty(),
    };
    assert(handed2 + queue_after_timer(q, e).requests =~= q.requests);
}

/// No request is left waiting without a timer: every step keeps "requests
/// wait exactly when a window runs", and whenever a step makes the requests
/// wait for a window they did not wait for before, it hands that window's
/// name to the caller to time. Finishing a batch changes no window.
pub proof fn lemma_waiting_requests_have_a_timer<Req, S>(
    q: QueueView<Req, S>,
    p: PendingRequest<Req, S>,
    e: u64,
    max_batch_size: nat,
)
    requires
        queue_ok(q, max_batch_size),
    ensures
        queue_ok(queue_after_submit(q, p, max_batch_size), max_batch_size),
        queue_ok(queue_after_timer(q, e), max_batch_size),
        queue_ok(queue_after_batch(q), max_batch_size),
        new_window(q, queue_after_submit(q, p, max_batch_size)) ==> window_after_submit(
            q,
            p,
            max_batch_size,
        ) == Some(queue_after_submit(q, p, max_batch_size).epoch),
        new_window(q, queue_after_timer(q, e)) ==> window_after_timer(q, e) == Some(
            queue_after_timer(q, e).epoch,
        ),
        !new_window(q, queue_after_batch(q)),
{
    assert(next_epoch(q.epoch) != q.epoch);
}

/// A window's expiry acts only on the window the requests wait for: a stale
/// expiry changes nothing and hands nothing out. An expiry hands the queue out
/// exactly when it is current, requests wait and no batch of the queue is in
/// processing; when a batch is in processing, it starts a new window for the
/// waiting requests instead.
pub proof fn lemma_window_expiry<Req, S>(q: QueueView<Req, S>, e: u64)
    ensures
        !window_is_current(q, e) ==> queue_after_timer(q, e) == q && batch_after_timer(q, e)
            is None && window_after_timer(q, e) is None,
        timer_takes_batch(q, e) <==> (window_is_current(q, e) && q.in_flight == 0
            && q.requests.len() > 0),
        timer_takes_batch(q, e) ==> queue_after_timer(q, e).requests.len() == 0 && !queue_after_timer(
            q,
            e,
        ).timer_running && queue_after_timer(q, e).in_flight == 1,
        timer_rearms(q, e) ==> queue_after_timer(q, e).requests == q.requests && window_after_timer(
            q,
            e,
        ) == Some(queue_after_timer(q, e).epoch) && queue_after_timer(q, e).epoch != e,
{
    assert(next_epoch(q.epoch) != q.epoch);
}

/// A batch handed out by the size limit ends the window its first request
/// started: afterwards no expiry hands anything out until a new request
/// starts a new window, whose name differs from every window the old batch
/// waited for under, so the old window's expiry is stale then too.
pub proof fn lemma_size_batch_ends_its_window<Req, S>(
    q: QueueView<Req, S>,
    p: PendingRequest<Req, S>,
    p2: PendingRequest<Req, S>,
    e: u64,
    max_batch_size: nat,
)
    requires
        size_triggered(q.requests.len(), max_batch_size),
    ensures
        ({
            let nq = queue_after_submit(q, p, max_batch_size);
            &&& batch_after_timer(nq, e) is None
            &&& queue_after_timer(nq, e) == nq
            &&& window_after_submit(nq, p2, max_batch_size) matches Some(w) ==> w != q.epoch
                && w == next_epoch(q.epoch)
        }),
{
    assert(next_epoch(q.epoch) != q.epoch);
}

/// The first request for a resource finds an empty queue with no window: it
/// starts the first window (or, with a limit of one request or less, is
/// processed at once).
pub proof fn lemma_first_request_starts_timer<K, Req, S>(
    queues: Map<K, QueueView<Req, S>>,
    k: K,
    p: PendingRequest<Req, S>,
    max_batch_size: nat,
)
    requires
        !queues.contains_key(k),
    ensures
        max_batch_size > 1 ==> window_after_submit(queue_in(queues, k), p, max_batch_size)
            == Some(1u64),
        max_batch_size > 1 ==> queue_after_submit(queue_in(queues, k), p, max_batch_size).requests
            == seq![p],
        max_batch_size <= 1 ==> batch_after_submit(queue_in(queues, k), p, max_batch_size) == Some(
            seq![p],
        ),
{
    assert(Seq::<PendingRequest<Req, S>>::empty().push(p) =~= seq![p]);
}

/// Resource isolation: storing a new queue for `k` leaves the queue of every
/// other resource, and whether it has one, as it was.
pub proof fn lemma_other_resources_untouched<K, Req, S>(
    queues: Map<K, QueueView<Req, S>>,
    k: K,
    q: QueueView<Req, S>,
    other: K,
)
    requires
        other != k,
    ensures
        queues.insert(k, q).contains_key(other) == queues.contains_key(other),
        queue_in(queues.insert(k, q), other) == queue_in(queues, other),
{
}

/// The number of queues never falls: every step stores a queue for one
/// resource, keeping all the others, so the resources with a queue after a
/// step include those before it.
pub proof fn lemma_queue_count_never_falls<K, Req, S>(
    queues: Map<K, QueueView<Req, S>>,
    k: K,
    q: QueueView<Req, S>,
)
    requires
        queues.dom().finite(),
    ensures
        queues.dom().subset_of(queues.insert(k, q).dom()),
        queues.insert(k, q).dom().len() >= queues.dom().len(),
        queues.insert(k, q).dom().len() == queues.dom().len() + if queues.contains_key(k) {
            0int
        } else {
            1int
        },
{
    assert(queues.insert(k, q).dom() =~= queues.dom().insert(k));
}

/// One step of a batcher: a submission, the expiry of a window, or the end of
/// a batch's processing, for one resource.
pub enum Step<K, Req, S> {
    Submit { resource: K, request: PendingRequest<Req, S> },
    Expire { resource: K, window: u64 },
    Finish { resource: K },
}

/// The queues after `step`, as `BatchState`'s methods change them.
pub open spec fn step_queues<K, Req, S>(
    queues: Map<K, QueueView<Req, S>>,
    max_batch_size: nat,
    step: Step<K, Req, S>,
) -> Map<K, QueueView<Req, S>> {
    match step {
        Step::Submit { resource, request } => queues.insert(
            resource,
            queue_after_submit(queue_in(queues, resource), request, max_batch_size),
        ),
        Step::Expire { resource, window } => if queues.contains_key(resource) {
            queues.insert(resource, queue_after_timer(queues[resource], window))
        } else {
            queues
        },
        Step::Finish { resource } => if queues.contains_key(resource) {
            queues.insert(resource, queue_after_batch(queues[resource]))
        } else {
            queues
        },
    }
}

/// The batch that `step` hands out, as `BatchState`'s methods hand it out.
pub open spec fn step_batch<K, Req, S>(
    queues: Map<K, QueueView<Req, S>>,
    max_batch_size: nat,
    step: Step<K, Req, S>,
) -> Option<Seq<PendingRequest<Req, S>>> {
    match step {
        Step::Submit { resource, request } => batch_after_submit(
            queue_in(queues, resource),
            request,
            max_batch_size,
        ),
        Step::Expire { resource, window } => if queues.contains_key(resource) {
            batch_after_timer(queues[resource], window)
        } else {
            None
        },
        Step::Finish { resource } => None,
    }
}

/// The queues after `steps`, starting from a batcher with no queues.
pub open spec fn run_queues<K, Req, S>(steps: Seq<Step<K, Req, S>>, max_batch_size: nat) -> Map<
    K,
    QueueView<Req, S>,
>
    decreases steps.len(),
{
    if steps.len() == 0 {
        Map::empty()
    } else {
        step_queues(run_queues(steps.drop_last(), max_batch_size), max_batch_size, steps.last())
    }
}

/// Whether `steps` submitted `p` for resource `k` before step `n`.
pub open spec fn submitted_before<K, Req, S>(
    steps: Seq<Step<K, Req, S>>,
    n: int,
    k: K,
    p: PendingRequest<Req, S>,
) -> bool {
    exists|i: int| 0 <= i < n && #[trigger] steps[i] == Step::Submit { resource: k, request: p }
}

/// The invariant of runs: every queue keeps the per-queue rules, and every
/// request waiting in the queue of `k` was submitted for `k`.
pub open spec fn run_invariant<K, Req, S>(steps: Seq<Step<K, Req, S>>, max_batch_size: nat) -> bool {
    let queues = run_queues(steps, max_batch_size);
    &&& queues.dom().finite()
    &&& forall|k: K| #[trigger] queues.contains_key(k) ==> queue_ok(queues[k], max_batch_size)
    &&& forall|k: K, j: int|
        queues.contains_key(k) && 0 <= j < queues[k].requests.len() ==> submitted_before(
            steps,
            steps.len() as int,
            k,
            #[trigger] queues[k].requests[j],
        )
}

/// Over any run from an empty batcher: every queue keeps the per-queue rules
/// (no waiting request without a running window, fewer than the limit
/// waiting), every request waiting for `k` was submitted for `k`, and every
/// batch any step hands out is non-empty, within the limit (one request when
/// the limit is zero) and made of requests submitted for that step's resource
/// before the step.
pub proof fn lemma_runs_keep_rules<K, Req, S>(steps: Seq<Step<K, Req, S>>, max_batch_size: nat)
    ensures
        run_invariant(steps, max_batch_size),
        forall|n: int|
            #![trigger steps[n]]
            0 <= n < steps.len() ==> match step_batch(
                run_queues(steps.take(n), max_batch_size),
                max_batch_size,
                steps[n],
            ) {
                Some(b) => {
                    &&& 1 <= b.len()
                    &&& b.len() <= max_batch_size || b.len() == 1
                    &&& forall|j: int|
                        0 <= j < b.len() ==> submitted_before(
                            steps,
                            n + 1,
                            step_resource(steps[n]),
                            #[trigger] b[j],
                        )
                },
                None => true,
            },
    decreases steps.len(),
{
    if steps.len() == 0 {
        assert(run_queues(steps, max_batch_size) =~= Map::<K, QueueView<Req, S>>::empty());
    } else {
        let prefix = steps.drop_last();
        lemma_runs_keep_rules(prefix, max_batch_size);
        let n = prefix.len() as int;
        assert(steps.take(n) =~= prefix);
        lemma_step_keeps_rules(steps, max_batch_size);
        assert forall|m: int|
            #![trigger steps[m]]
            0 <= m < steps.len() implies match step_batch(
                run_queues(steps.take(m), max_batch_size),
                max_batch_size,
                steps[m],
            ) {
                Some(b) => {
                    &&& 1 <= b.len()
                    &&& b.len() <= max_batch_size || b.len() == 1
                    &&& forall|j: int|
                        0 <= j < b.len() ==> submitted_before(
                            steps,
                            m + 1,
                            step_resource(steps[m]),
                            #[trigger] b[j],
                        )
                },
                None => true,
            } by {
            if m < n {
                assert(prefix[m] == steps[m]);
                assert(prefix.take(m) =~= steps.take(m));
                match step_batch(run_queues(steps.take(m), max_batch_size), max_batch_size, steps[m]) {
                    Some(b) => {
                        assert forall|j: int| 0 <= j < b.len() implies submitted_before(
                            steps,
                            m + 1,
                            step_resource(steps[m]),
                            #[trigger] b[j],
                        ) by {
                            assert(submitted_before(prefix, m + 1, step_resource(prefix[m]), b[j]));
                            let i = choose|i: int|
                                0 <= i < m + 1 && #[trigger] prefix[i] == Step::Submit {
                                    resource: step_resource(prefix[m]),
                                    request: b[j],
                                };
                            assert(steps[i] == prefix[i]);
                        }
                    },
                    None => {},
                }
            }
        }
    }
}

/// The resource a step concerns.
pub open spec fn step_resource<K, Req, S>(step: Step<K, Req, S>) -> K {
    match step {
        Step::Submit { resource, .. } => resource,
        Step::Expire { resource, .. } => resource,
        Step::Finish { resource } => resource,
    }
}

/// The last step of a run keeps the run invariant and hands out a batch of
/// the right size made of requests submitted for its resource.
proof fn lemma_step_keeps_rules<K, Req, S>(steps: Seq<Step<K, Req, S>>, max_batch_size: nat)
    requires
        steps.len() > 0,
        run_invariant(steps.drop_last(), max_batch_size),
    ensures
        run_invariant(steps, max_batch_size),
        match step_batch(
            run_queues(steps.drop_last(), max_batch_size),
            max_batch_size,
            steps.last(),
        ) {
            Some(b) => {
                &&& 1 <= b.len()
                &&& b.len() <= max_batch_size || b.len() == 1
                &&& forall|j: int|
                    0 <= j < b.len() ==> submitted_before(
                        steps,
                        steps.len() as int,
                        step_resource(steps.last()),
                        #[trigger] b[j],
                    )
            },
            None => true,
        },
{
    let prefix = steps.drop_last();
    let n = prefix.len() as int;
    let before = run_queues(prefix, max_batch_size);
    let after = run_queues(steps, max_batch_size);
    let step = steps.last();
    let k = step_resource(step);
    let q = queue_in(before, k);
    assert(queue_ok(q, max_batch_size)) by {
        if before.contains_key(k) {
            assert(queue_ok(before[k], max_batch_size));
        }
    }
    // Requests waiting before the step were submitted for their resource.
    assert forall|x: K, j: int|
        before.contains_key(x) && 0 <= j < before[x].requests.len() implies submitted_before(
        steps,
        n,
        x,
        #[trigger] before[x].requests[j],
    ) by {
        assert(submitted_before(prefix, n, x, before[x].requests[j]));
        let i = choose|i: int|
            0 <= i < n && #[trigger] prefix[i] == Step::Submit {
                resource: x,
                request: before[x].requests[j],
            };
        assert(steps[i] == prefix[i]);
    }
    assert forall|j: int| 0 <= j < q.requests.len() implies submitted_before(
        steps,
        n,
        k,
        #[trigger] q.requests[j],
    ) by {
        assert(before.contains_key(k));
        assert(q.requests[j] == before[k].requests[j]);
    }
    let nq = match step {
        Step::Submit { resource, request } => queue_after_submit(q, request, max_batch_size),
        Step::Expire { resource, window } => queue_after_timer(q, window),
        Step::Finish { resource } => queue_after_batch(q),
    };
    match step {
        Step::Submit { resource, request } => {
            lemma_waiting_requests_have_a_timer(q, request, 0, max_batch_size);
            lemma_requests_conserved(q, request, 0, max_batch_size);
            assert(steps[n] == Step::Submit { resource: k, request });
            assert(submitted_before(steps, n + 1, k, request));
            assert(after == before.insert(k, nq));
            assert forall|j: int| 0 <= j < q.requests.push(request).len() implies submitted_before(
                steps,
                n + 1,
                k,
                #[trigger] q.requests.push(request)[j],
            ) by {
                if j < q.requests.len() {
                    assert(submitted_before(steps, n, k, q.requests[j]));
                }
            }
            if max_batch_size >= 1 {
                lemma_batches_within_limit(q, request, 0, max_batch_size);
            }
            assert forall|j: int| 0 <= j < nq.requests.len() implies submitted_before(
                steps,
                n + 1,
                k,
                #[trigger] nq.requests[j],
            ) by {
                assert(nq.requests[j] == q.requests.push(request)[j]);
            }
        },
        Step::Expire { resource, window } => {
            lemma_waiting_requests_have_a_timer(q, PendingRequest { request: arbitrary(), sender: arbitrary() }, window, max_batch_size);
            if max_batch_size >= 1 {
                lemma_batches_within_limit(q, PendingRequest { request: arbitrary(), sender: arbitrary() }, window, max_batch_size);
            }
            if before.contains_key(k) {
                assert(after == before.insert(k, nq));
            } else {
                assert(after == before);
            }
            assert forall|j: int| 0 <= j < nq.requests.len() implies submitted_before(
                steps,
                n + 1,
                k,
                #[trigger] nq.requests[j],
            ) by {
                assert(nq.requests[j] == q.requests[j]);
                assert(submitted_before(steps, n, k, q.requests[j]));
            }
        },
        Step::Finish { resource } => {
            lemma_waiting_requests_have_a_timer(q, PendingRequest { request: arbitrary(), sender: arbitrary() }, 0, max_batch_size);
            if before.contains_key(k) {
                assert(after == before.insert(k, nq));
            } else {
                assert(after == before);
            }
            assert forall|j: int| 0 <= j < nq.requests.len() implies submitted_before(
                steps,
                n + 1,
                k,
                #[trigger] nq.requests[j],
            ) by {
                assert(nq.requests[j] == q.requests[j]);
                assert(submitted_before(steps, n, k, q.requests[j]));
            }
        },
    }
    assert(after.dom().finite()) by {
        assert(after.dom() =~= before.dom().insert(k) || after.dom() =~= before.dom());
    }
    assert forall|x: K| #[trigger] after.contains_key(x) implies queue_ok(after[x], max_batch_size) by {
        if x != k {
            assert(before.contains_key(x));
            assert(after[x] == before[x]);
        }
    }
    assert forall|x: K, j: int|
        after.contains_key(x) && 0 <= j < after[x].requests.len() implies submitted_before(
        steps,
        steps.len() as int,
        x,
        #[trigger] after[x].requests[j],
    ) by {
        if x != k {
            assert(after[x] == before[x]);
            assert(submitted_before(steps, n, x, before[x].requests[j]));
        } else {
            assert(submitted_before(steps, n + 1, k, nq.requests[j]));
        }
    }
    match step_batch(before, max_batch_size, step) {
        Some(b) => {
            assert forall|j: int| 0 <= j < b.len() implies submitted_before(
                steps,
                steps.len() as int,
                k,
                #[trigger] b[j],
            ) by {
                match step {
                    Step::Submit { resource, request } => {
                        assert(b[j] == q.requests.push(request)[j]);
                        if j < q.requests.len() {
                            assert(submitted_before(steps, n, k, q.requests[j]));
                        } else {
                            assert(steps[n] == Step::Submit { resource: k, request });
                        }
                    },
                    Step::Expire { resource, window } => {
                        assert(b[j] == q.requests[j]);
                        assert(submitted_before(steps, n, k, q.requests[j]));
                    },
                    Step::Finish { resource } => {},
                }
            }
        },
        None => {},
    }
}

/// The window that `step` starts and hands to the caller to time, if any.
pub open spec fn step_window<K, Req, S>(
    queues: Map<K, QueueView<Req, S>>,
    max_batch_size: nat,
    step: Step<K, Req, S>,
) -> Option<u64> {
    match step {
        Step::Submit { resource, request } => window_after_submit(
            queue_in(queues, resource),
            request,
            max_batch_size,
        ),
        Step::Expire { resource, window } => if queues.contains_key(resource) {
            window_after_timer(queues[resource], window)
        } else {
            None
        },
        Step::Finish { resource } => None,
    }
}

/// Whether step `a` of `steps` started window `w` for resource `k`.
pub open spec fn announced_at<K, Req, S>(
    steps: Seq<Step<K, Req, S>>,
    a: int,
    k: K,
    w: u64,
    max_batch_size: nat,
) -> bool {
    &&& 0 <= a < steps.len()
    &&& step_resource(steps[a]) == k
    &&& step_window(run_queues(steps.take(a), max_batch_size), max_batch_size, steps[a]) == Some(w)
}

/// Every running window was started by an earlier step for its resource, at or
/// after the submission of the queue's oldest request.
pub open spec fn window_invariant<K, Req, S>(steps: Seq<Step<K, Req, S>>, max_batch_size: nat) -> bool {
    let queues = run_queues(steps, max_batch_size);
    forall|k: K|
        #[trigger] queues.contains_key(k) && queues[k].timer_running ==> exists|a: int|
            announced_at(steps, a, k, queues[k].epoch, max_batch_size) && submitted_before(
                steps,
                a + 1,
                k,
                queues[k].requests[0],
            )
}

/// A batch handed out by a window's expiry waited for that window: over any
/// run from an empty batcher, when step `n` (the expiry of window `w` of
/// resource `k`) hands out a batch, an earlier step `a` started window `w` for
/// `k` and handed it to the caller to time, and the batch's oldest request had
/// been submitted by then. So a window started before a size-triggered batch,
/// or any other stale window, never flushes a later batch early.
pub proof fn lemma_expiry_batch_waited_for_its_window<K, Req, S>(
    steps: Seq<Step<K, Req, S>>,
    n: int,
    max_batch_size: nat,
)
    requires
        0 <= n < steps.len(),
        steps[n] is Expire,
        step_batch(run_queues(steps.take(n), max_batch_size), max_batch_size, steps[n]) is Some,
    ensures
        ({
            let b = step_batch(run_queues(steps.take(n), max_batch_size), max_batch_size, steps[n])->0;
            let k = step_resource(steps[n]);
            let w = steps[n]->Expire_window;
            exists|a: int|
                #![trigger announced_at(steps, a, k, w, max_batch_size)]
                a < n && announced_at(steps, a, k, w, max_batch_size) && submitted_before(
                    steps,
                    a + 1,
                    k,
                    b[0],
                )
        }),
{
    let prefix = steps.take(n);
    lemma_runs_windows(prefix, max_batch_size);
    lemma_runs_keep_rules(prefix, max_batch_size);
    let queues = run_queues(prefix, max_batch_size);
    let k = step_resource(steps[n]);
    let w = steps[n]->Expire_window;
    assert(queues.contains_key(k));
    let q = queues[k];
    assert(timer_takes_batch(q, w));
    let a = choose|a: int|
        announced_at(prefix, a, k, q.epoch, max_batch_size) && submitted_before(
            prefix,
            a + 1,
            k,
            q.requests[0],
        );
    assert(prefix.take(a) =~= steps.take(a));
    assert(prefix[a] == steps[a]);
    assert(announced_at(steps, a, k, w, max_batch_size));
    let i = choose|i: int|
        0 <= i < a + 1 && #[trigger] prefix[i] == Step::Submit { resource: k, request: q.requests[0] };
    assert(steps[i] == prefix[i]);
}

/// Every run from an empty batcher keeps the window invariant.
pub proof fn lemma_runs_windows<K, Req, S>(steps: Seq<Step<K, Req, S>>, max_batch_size: nat)
    ensures
        window_invariant(steps, max_batch_size),
    decreases steps.len(),
{
    if steps.len() == 0 {
        assert(run_queues(steps, max_batch_size) =~= Map::<K, QueueView<Req, S>>::empty());
    } else {
        let prefix = steps.drop_last();
        lemma_runs_windows(prefix, max_batch_size);
        lemma_runs_keep_rules(prefix, max_batch_size);
        let n = prefix.len() as int;
        let before = run_queues(prefix, max_batch_size);
        let after = run_queues(steps, max_batch_size);
        let step = steps.last();
        let k = step_resource(step);
        let q = queue_in(before, k);
        assert(steps.take(n) =~= prefix);
        // Windows announced during the prefix stay announced in the run.
        assert forall|x: K, a: int, v: u64| #[trigger]
            announced_at(prefix, a, x, v, max_batch_size) implies announced_at(
            steps,
            a,
            x,
            v,
            max_batch_size,
        ) by {
            assert(prefix.take(a) =~= steps.take(a));
            assert(prefix[a] == steps[a]);
        }
        assert forall|x: K, a: int, r: PendingRequest<Req, S>|
            a <= n && #[trigger] submitted_before(prefix, a, x, r) implies submitted_before(
            steps,
            a,
            x,
            r,
        ) by {
            let i = choose|i: int|
                0 <= i < a && #[trigger] prefix[i] == Step::Submit { resource: x, request: r };
            assert(steps[i] == prefix[i]);
        }
        assert(queue_ok(q, max_batch_size)) by {
            if before.contains_key(k) {
                assert(queue_ok(before[k], max_batch_size));
            }
        }
        assert forall|x: K| #[trigger]
            after.contains_key(x) && after[x].timer_running implies exists|a: int|
            announced_at(steps, a, x, after[x].epoch, max_batch_size) && submitted_before(
                steps,
                a + 1,
                x,
                after[x].requests[0],
            ) by {
            if x != k {
                assert(before.contains_key(x));
                assert(after[x] == before[x]);
                let a = choose|a: int|
                    announced_at(prefix, a, x, before[x].epoch, max_batch_size) && submitted_before(
                        prefix,
                        a + 1,
                        x,
                        before[x].requests[0],
                    );
                assert(announced_at(steps, a, x, after[x].epoch, max_batch_size));
            } else {
                let nq = after[k];
                if q.timer_running && q.epoch == nq.epoch && nq.requests.len() > 0 && nq.requests[0]
                    == q.requests[0] {
                    assert(before.contains_key(k));
                    let a = choose|a: int|
                        announced_at(prefix, a, k, before[k].epoch, max_batch_size)
                            && submitted_before(prefix, a + 1, k, before[k].requests[0]);
                    assert(announced_at(steps, a, k, nq.epoch, max_batch_size));
                    assert(submitted_before(steps, a + 1, k, nq.requests[0]));
                } else {
                    assert(announced_at(steps, n, k, nq.epoch, max_batch_size)) by {
                        match step {
                            Step::Submit { resource, request } => {
                                lemma_waiting_requests_have_a_timer(q, request, 0, max_batch_size);
                                assert(steps[n] == step);
                            },
                            Step::Expire { resource, window } => {
                                lemma_waiting_requests_have_a_timer(
                                    q,
                                    PendingRequest { request: arbitrary(), sender: arbitrary() },
                                    window,
                                    max_batch_size,
                                );
                                assert(steps[n] == step);
                            },
                            Step::Finish { resource } => {
                                assert(before.contains_key(k));
                            },
                        }
                    }
                    match step {
                        Step::Submit { resource, request } => {
                            if q.requests.len() == 0 {
                                assert(nq.requests[0] == request);
                            } else {
                                assert(nq.requests[0] == q.requests[0]);
                            }
                            assert(steps[n] == Step::Submit { resource: k, request });
                            if q.requests.len() > 0 {
                                assert(before.contains_key(k));
                                lemma_runs_keep_rules(prefix, max_batch_size);
                                assert(submitted_before(prefix, n, k, before[k].requests[0]));
                            }
                        },
                        Step::Expire { resource, window } => {
                            assert(nq.requests[0] == q.requests[0]);
                            assert(before.contains_key(k));
                            assert(submitted_before(prefix, n, k, before[k].requests[0]));
                        },
                        Step::Finish { resource } => {},
                    }
                }
            }
        }
    }
}

/// The requests `steps` submitted for resource `k`, in order.
pub open spec fn submitted_for<K, Req, S>(steps: Seq<Step<K, Req, S>>, k: K) -> Seq<
    PendingRequest<Req, S>,
>
    decreases steps.len(),
{
    if steps.len() == 0 {
        Seq::empty()
    } else {
        let earlier = submitted_for(steps.drop_last(), k);
        match steps.last() {
            Step::Submit { resource, request } => if resource == k {
                earlier.push(request)
            } else {
                earlier
            },
            _ => earlier,
        }
    }
}

/// The batches that `steps` handed out for resource `k`, one after another,
/// in the order they were handed out.
pub open spec fn handed_out_for<K, Req, S>(
    steps: Seq<Step<K, Req, S>>,
    k: K,
    max_batch_size: nat,
) -> Seq<PendingRequest<Req, S>>
    decreases steps.len(),
{
    if steps.len() == 0 {
        Seq::empty()
    } else {
        let earlier = handed_out_for(steps.drop_last(), k, max_batch_size);
        let batch = step_batch(
            run_queues(steps.drop_last(), max_batch_size),
            max_batch_size,
            steps.last(),
        );
        if step_resource(steps.last()) == k && batch is Some {
            earlier + batch->0
        } else {
            earlier
        }
    }
}

/// No request is lost or handed out twice, over any run from an empty
/// batcher: for every resource, the batches handed out for it, one after
/// another, followed by the requests still waiting for it, are exactly the
/// requests submitted for it, in submission order, each once.
pub proof fn lemma_runs_conserve_requests<K, Req, S>(
    steps: Seq<Step<K, Req, S>>,
    k: K,
    max_batch_size: nat,
)
    ensures
        handed_out_for(steps, k, max_batch_size) + queue_in(
            run_queues(steps, max_batch_size),
            k,
        ).requests == submitted_for(steps, k),
    decreases steps.len(),
{
    if steps.len() == 0 {
        assert(run_queues(steps, max_batch_size) =~= Map::<K, QueueView<Req, S>>::empty());
        assert(handed_out_for(steps, k, max_batch_size) + queue_in(
            run_queues(steps, max_batch_size),
            k,
        ).requests =~= submitted_for(steps, k));
    } else {
        let prefix = steps.drop_last();
        lemma_runs_conserve_requests(prefix, k, max_batch_size);
        let before = run_queues(prefix, max_batch_size);
        let after = run_queues(steps, max_batch_size);
        let h = handed_out_for(prefix, k, max_batch_size);
        let q = queue_in(before, k);
        let step = steps.last();
        if step_resource(step) != k {
            assert(queue_in(after, k) == q);
            match step {
                Step::Submit { resource, request } => {},
                _ => {},
            }
        } else {
            match step {
                Step::Submit { resource, request } => {
                    lemma_requests_conserved(q, request, 0, max_batch_size);
                    assert(queue_in(after, k) == queue_after_submit(q, request, max_batch_size));
                    let b = match batch_after_submit(q, request, max_batch_size) {
                        Some(b) => b,
                        None => Seq::empty(),
                    };
                    assert(handed_out_for(steps, k, max_batch_size) == h + b);
                    assert((h + b) + queue_after_submit(q, request, max_batch_size).requests
                        =~= h + (b + queue_after_submit(q, request, max_batch_size).requests));
                    assert(h + q.requests.push(request) =~= (h + q.requests).push(request));
                },
                Step::Expire { resource, window } => {
                    if before.contains_key(k) {
                        lemma_requests_conserved(
                            q,
                            PendingRequest { request: arbitrary(), sender: arbitrary() },
                            window,
                            max_batch_size,
                        );
                        assert(queue_in(after, k) == queue_after_timer(q, window));
                        let b = match batch_after_timer(q, window) {
                            Some(b) => b,
                            None => Seq::empty(),
                        };
                        assert(handed_out_for(steps, k, max_batch_size) == h + b);
                        assert((h + b) + queue_after_timer(q, window).requests =~= h + (b
                            + queue_after_timer(q, window).requests));
                    } else {
                        assert(after == before);
                        assert(handed_out_for(steps, k, max_batch_size) == h);
                    }
                },
                Step::Finish { resource } => {
                    if before.contains_key(k) {
                        assert(queue_in(after, k) == queue_after_batch(q));
                    } else {
                        assert(after == before);
                    }
                },
            }
        }
    }
}

/// What a submission does, said directly in terms of the queue it finds: when
/// the queue with the new request reaches the limit, all of it is handed out
/// at once, one more batch is in processing and no window runs; otherwise the
/// request joins the queue, keeping a running window (same name, nothing to
/// time), whatever the batches in processing, or starting a new window under
/// a new name when none runs.
pub proof fn lemma_submit_behaviour<Req, S>(
    q: QueueView<Req, S>,
    p: PendingRequest<Req, S>,
    max_batch_size: nat,
)
    ensures
        ({
            let nq = queue_after_submit(q, p, max_batch_size);
            let b = batch_after_submit(q, p, max_batch_size);
            let w = window_after_submit(q, p, max_batch_size);
            if q.requests.len() + 1 >= max_batch_size {
                &&& b == Some(q.requests.push(p))
                &&& nq.requests.len() == 0
                &&& !nq.timer_running
                &&& nq.epoch == q.epoch
                &&& nq.in_flight == q.in_flight + 1
                &&& w is None
            } else if q.timer_running {
                &&& b is None
                &&& w is None
                &&& nq.requests == q.requests.push(p)
                &&& nq.timer_running
                &&& nq.epoch == q.epoch
                &&& nq.in_flight == q.in_flight
            } else {
                &&& b is None
                &&& w == Some(nq.epoch)
                &&& nq.epoch != q.epoch
                &&& nq.requests == q.requests.push(p)
                &&& nq.timer_running
                &&& nq.in_flight == q.in_flight
            }
        }),
{
    assert(next_epoch(q.epoch) != q.epoch);
}

/// What the expiry of window `e` does, said directly in terms of the queue it
/// finds: a window other than the running one changes nothing; the running
/// one hands the whole queue out when no batch of it is in processing (one
/// batch is then in processing), starts a further window under a new name
/// for the waiting requests while some batch is, and stops when nothing waits.
/// An expiry that hands nothing out leaves the batches in processing as they
/// were.
pub proof fn lemma_expiry_behaviour<Req, S>(q: QueueView<Req, S>, e: u64)
    ensures
        ({
            let nq = queue_after_timer(q, e);
            let b = batch_after_timer(q, e);
            let w = window_after_timer(q, e);
            &&& b is None ==> nq.in_flight == q.in_flight
            &&& b is Some ==> q.in_flight == 0 && nq.in_flight == 1
            &&& if !(q.timer_running && q.epoch == e) {
                &&& nq == q
                &&& b is None
                &&& w is None
            } else if q.requests.len() > 0 && q.in_flight == 0 {
                &&& b == Some(q.requests)
                &&& w is None
                &&& nq.requests.len() == 0
                &&& !nq.timer_running
            } else if q.requests.len() > 0 {
                &&& b is None
                &&& w == Some(nq.epoch)
                &&& nq.epoch != e
                &&& nq.timer_running
                &&& nq.requests == q.requests
            } else {
                &&& b is None
                &&& w is None
                &&& !nq.timer_running
                &&& nq.requests == q.requests
            }
        }),
{
    assert(next_epoch(q.epoch) != q.epoch);
}

/// What reporting a finished batch does: one batch fewer is in processing
/// when any was, whatever the waiting requests or window; nothing else
/// changes.
pub proof fn lemma_finish_behaviour<Req, S>(q: QueueView<Req, S>)
    ensures
        ({
            let nq = queue_after_batch(q);
            &&& nq.requests == q.requests
            &&& nq.timer_running == q.timer_running
            &&& nq.epoch == q.epoch
            &&& q.in_flight > 0 ==> nq.in_flight + 1 == q.in_flight
            &&& q.in_flight == 0 ==> nq.in_flight == 0
        }),
{
}

/// The number of batches that `steps` handed out for resource `k`.
pub open spec fn batches_handed_out<K, Req, S>(
    steps: Seq<Step<K, Req, S>>,
    k: K,
    max_batch_size: nat,
) -> nat
    decreases steps.len(),
{
    if steps.len() == 0 {
        0
    } else {
        batches_handed_out(steps.drop_last(), k, max_batch_size) + if step_resource(steps.last())
            == k && step_batch(
            run_queues(steps.drop_last(), max_batch_size),
            max_batch_size,
            steps.last(),
        ) is Some {
            1nat
        } else {
            0nat
        }
    }
}

/// The number of finished batches that `steps` reported for resource `k`.
pub open spec fn finishes_reported<K, Req, S>(steps: Seq<Step<K, Req, S>>, k: K) -> nat
    decreases steps.len(),
{
    if steps.len() == 0 {
        0
    } else {
        finishes_reported(steps.drop_last(), k) + if steps.last() == (Step::<K, Req, S>::Finish {
            resource: k,
        }) {
            1nat
        } else {
            0nat
        }
    }
}

/// Over any run from an empty batcher in which no more batches of a resource
/// are reported finished than were handed out, the batches of that resource
/// in processing are exactly those handed out and not yet reported finished.
pub proof fn lemma_runs_count_batches_in_processing<K, Req, S>(
    steps: Seq<Step<K, Req, S>>,
    k: K,
    max_batch_size: nat,
)
    requires
        forall|n: int|
            0 <= n <= steps.len() ==> #[trigger] finishes_reported(steps.take(n), k)
                <= batches_handed_out(steps.take(n), k, max_batch_size),
    ensures
        queue_in(run_queues(steps, max_batch_size), k).in_flight + finishes_reported(steps, k)
            == batches_handed_out(steps, k, max_batch_size),
    decreases steps.len(),
{
    if steps.len() == 0 {
        assert(run_queues(steps, max_batch_size) =~= Map::<K, QueueView<Req, S>>::empty());
    } else {
        let prefix = steps.drop_last();
        let n = prefix.len() as int;
        assert forall|m: int|
            0 <= m <= prefix.len() implies #[trigger] finishes_reported(prefix.take(m), k)
            <= batches_handed_out(prefix.take(m), k, max_batch_size) by {
            assert(prefix.take(m) =~= steps.take(m));
        }
        lemma_runs_count_batches_in_processing(prefix, k, max_batch_size);
        assert(steps.take(steps.len() as int) =~= steps);
        assert(finishes_reported(steps.take(steps.len() as int), k) <= batches_handed_out(
            steps.take(steps.len() as int),
            k,
            max_batch_size,
        ));
        let before = run_queues(prefix, max_batch_size);
        let after = run_queues(steps, max_batch_size);
        let q = queue_in(before, k);
        let step = steps.last();
        match step {
            Step::Submit { resource, request } => {
                lemma_submit_behaviour(q, request, max_batch_size);
                if resource != k {
                    assert(queue_in(after, k) == q);
                }
            },
            Step::Expire { resource, window } => {
                if resource != k {
                    assert(queue_in(after, k) == q);
                } else if before.contains_key(k) {
                    lemma_expiry_behaviour(q, window);
                } else {
                    assert(after == before);
                }
            },
            Step::Finish { resource } => {
                if resource != k {
                    assert(queue_in(after, k) == q);
                } else if before.contains_key(k) {
                    lemma_finish_behaviour(q);
                } else {
                    assert(after == before);
                }
            },
        }
    }
}

} // verus!
