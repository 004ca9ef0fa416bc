use vstd::prelude::*;

use crate::queue::{empty_queue, QueueView};

verus! {

/// Where resource `k` stands among `entries`, if it is there.
pub open spec fn position<K, Q>(entries: Seq<(K, Q)>, k: K) -> Option<int> {
    if exists|i: int| 0 <= i < entries.len() && entries[i].0 == k {
        Some(choose|i: int| 0 <= i < entries.len() && entries[i].0 == k)
    } else {
        None
    }
}

/// No resource occurs twice among `entries`.
pub open spec fn keys_distinct<K, Q>(entries: Seq<(K, Q)>) -> bool {
    forall|i: int, j: int| 0 <= i < j < entries.len() ==> entries[i].0 != entries[j].0
}

/// The queues of `entries`, by resource.
pub open spec fn queue_map<K, Req, S>(entries: Seq<(K, QueueView<Req, S>)>) -> Map<
    K,
    QueueView<Req, S>,
> {
    Map::new(|k: K| position(entries, k) is Some, |k: K| entries[position(entries, k)->0].1)
}

/// The queue of resource `k` in `queues`: the one stored for it, or an empty one.
pub open spec fn queue_in<K, Req, S>(queues: Map<K, QueueView<Req, S>>, k: K) -> QueueView<Req, S> {
    if queues.contains_key(k) {
        queues[k]
    } else {
        empty_queue()
    }
}

/// `entries` with the queue of resource `k` replaced by `q` (appended when `k` is new).
pub open spec fn with_queue<K, Req, S>(
    entries: Seq<(K, QueueView<Req, S>)>,
    k: K,
    q: QueueView<Req, S>,
) -> Seq<(K, QueueView<Req, S>)> {
    match position(entries, k) {
        Some(i) => entries.update(i, (k, q)),
        None => entries.push((k, q)),
    }
}

/// The number of requests waiting across all queues.
pub open spec fn total_pending<K, Req, S>(entries: Seq<(K, QueueView<Req, S>)>) -> nat
    decreases entries.len(),
{
    if entries.len() == 0 {
        0
    } else {
        total_pending(entries.drop_last()) + entries.last().1.requests.len()
    }
}

/// The number of batches handed out and not yet finished, across all queues.
pub open spec fn total_in_flight<K, Req, S>(entries: Seq<(K, QueueView<Req, S>)>) -> nat
    decreases entries.len(),
{
    if entries.len() == 0 {
        0
    } else {
        total_in_flight(entries.drop_last()) + entries.last().1.in_flight
    }
}

/// 1 for a queue with a batch in processing, 0 otherwise.
pub open spec fn processing_flag<Req, S>(q: QueueView<Req, S>) -> nat {
    if q.in_flight > 0 {
        1
    } else {
        0
    }
}

/// The number of queues with a batch in processing.
pub open spec fn processing_count<K, Req, S>(entries: Seq<(K, QueueView<Req, S>)>) -> nat
    decreases entries.len(),
{
    if entries.len() == 0 {
        0
    } else {
        processing_count(entries.drop_last()) + processing_flag(entries.last().1)
    }
}

/// What every reachable state satisfies: each resource has one queue; no queue
/// holds `max_batch_size` requests or more (a full queue is processed at once);
/// a queue's requests wait for a window exactly when it has any; and the
/// requests waiting plus the batches in processing fit a `usize`.
pub open spec fn valid_entries<K, Req, S>(
    entries: Seq<(K, QueueView<Req, S>)>,
    max_batch_size: nat,
) -> bool {
    &&& keys_distinct(entries)
    &&& forall|i: int|
        0 <= i < entries.len() ==> #[trigger] entries[i].1.requests.len() == 0
            || entries[i].1.requests.len() < max_batch_size
    &&& forall|i: int|
        0 <= i < entries.len() ==> (#[trigger] entries[i].1.timer_running <==> entries[i].1.requests.len()
            > 0)
    &&& total_pending(entries) + total_in_flight(entries) <= usize::MAX
}

/// Replacing one queue changes the two counts by the difference between the
/// old and the new queue.
pub proof fn lemma_counts_update<K, Req, S>(
    entries: Seq<(K, QueueView<Req, S>)>,
    i: int,
    e: (K, QueueView<Req, S>),
)
    requires
        0 <= i < entries.len(),
    ensures
        total_pending(entries.update(i, e)) + entries[i].1.requests.len() == total_pending(entries)
            + e.1.requests.len(),
        processing_count(entries.update(i, e)) + processing_flag(entries[i].1) == processing_count(
            entries,
        ) + processing_flag(e.1),
        total_in_flight(entries.update(i, e)) + entries[i].1.in_flight == total_in_flight(entries)
            + e.1.in_flight,
    decreases entries.len(),
{
    let u = entries.update(i, e);
    if i == entries.len() - 1 {
        assert(u.drop_last() =~= entries.drop_last());
    } else {
        assert(u.drop_last() =~= entries.drop_last().update(i, e));
        lemma_counts_update(entries.drop_last(), i, e);
    }
}

/// The requests waiting in the first queues are at most those in all queues,
/// and one queue holds at most all of them.
pub proof fn lemma_total_pending_bounds<K, Req, S>(entries: Seq<(K, QueueView<Req, S>)>, n: int)
    requires
        0 <= n <= entries.len(),
    ensures
        total_pending(entries.take(n)) <= total_pending(entries),
        n < entries.len() ==> entries[n].1.requests.len() <= total_pending(entries),
        n < entries.len() ==> entries[n].1.in_flight <= total_in_flight(entries),
        total_in_flight(entries.take(n)) <= total_in_flight(entries),
        processing_count(entries.take(n)) <= n,
        processing_count(entries) <= entries.len(),
    decreases entries.len(),
{
    lemma_processing_count_bound(entries);
    lemma_processing_count_bound(entries.take(n));
    if n < entries.len() {
        lemma_counts_update(entries, n, (entries[n].0, empty_queue()));
        assert(entries.drop_last().take(n) =~= entries.take(n));
        lemma_total_pending_bounds(entries.drop_last(), n);
    } else {
        assert(entries.take(n) =~= entries);
    }
}

/// The queues counted as processing are exactly those with at least one batch
/// handed out and not finished, whatever their waiting requests.
pub proof fn lemma_processing_count_counts_busy_queues<K, Req, S>(
    entries: Seq<(K, QueueView<Req, S>)>,
)
    ensures
        processing_count(entries) == entries.filter(
            |e: (K, QueueView<Req, S>)| e.1.in_flight > 0,
        ).len(),
    decreases entries.len(),
{
    reveal(Seq::filter);
    if entries.len() > 0 {
        lemma_processing_count_counts_busy_queues(entries.drop_last());
    }
}

/// The requests counted as waiting are exactly those of all queues, laid one
/// queue after another.
pub proof fn lemma_total_pending_counts_waiting_requests<K, Req, S>(
    entries: Seq<(K, QueueView<Req, S>)>,
)
    ensures
        total_pending(entries) == entries.map_values(
            |e: (K, QueueView<Req, S>)| e.1.requests,
        ).flatten().len(),
    decreases entries.len(),
{
    if entries.len() > 0 {
        let prefix = entries.drop_last();
        lemma_total_pending_counts_waiting_requests(prefix);
        let f = |e: (K, QueueView<Req, S>)| e.1.requests;
        assert(entries.map_values(f) =~= prefix.map_values(f).push(entries.last().1.requests));
        prefix.map_values(f).lemma_flatten_push(entries.last().1.requests);
    }
}

/// At most every queue has a batch in processing.
pub proof fn lemma_processing_count_bound<K, Req, S>(entries: Seq<(K, QueueView<Req, S>)>)
    ensures
        processing_count(entries) <= entries.len(),
    decreases entries.len(),
{
    if entries.len() > 0 {
        lemma_processing_count_bound(entries.drop_last());
    }
}

/// The resource `k` is found where `position` says, and `queue_map` reads its
/// queue from there.
pub proof fn lemma_position<K, Req, S>(entries: Seq<(K, QueueView<Req, S>)>, k: K, i: int)
    requires
        keys_distinct(entries),
        0 <= i < entries.len(),
        entries[i].0 == k,
    ensures
        position(entries, k) == Some(i),
        queue_map(entries).contains_key(k),
        queue_map(entries)[k] == entries[i].1,
{
    let c = choose|c: int| 0 <= c < entries.len() && entries[c].0 == k;
    assert(c == i);
}

/// Storing `q` for `k` stores it in the map of queues and leaves every other
/// resource's queue as it was; it moves the two counts by the difference
/// between the old and the new queue of `k`.
pub proof fn lemma_with_queue<K, Req, S>(
    entries: Seq<(K, QueueView<Req, S>)>,
    k: K,
    q: QueueView<Req, S>,
)
    requires
        keys_distinct(entries),
    ensures
        keys_distinct(with_queue(entries, k, q)),
        queue_map(with_queue(entries, k, q)) == queue_map(entries).insert(k, q),
        total_pending(with_queue(entries, k, q)) + queue_in(queue_map(entries), k).requests.len()
            == total_pending(entries) + q.requests.len(),
        processing_count(with_queue(entries, k, q)) + processing_flag(
            queue_in(queue_map(entries), k),
        ) == processing_count(entries) + processing_flag(q),
        total_in_flight(with_queue(entries, k, q)) + queue_in(queue_map(entries), k).in_flight
            == total_in_flight(entries) + q.in_flight,
{
    let w = with_queue(entries, k, q);
    match position(entries, k) {
        Some(i) => {
            lemma_counts_update(entries, i, (k, q));
        },
        None => {
            assert(w.drop_last() =~= entries);
        },
    }
    assert(keys_distinct(w)) by {
        assert forall|i: int, j: int| 0 <= i < j < w.len() implies w[i].0 != w[j].0 by {
            if position(entries, k) is None && j == entries.len() {
                assert(entries[i].0 != k);
            } else if position(entries, k) is Some {
                let c = position(entries, k)->0;
                if i == c {
                    assert(entries[j].0 != entries[c].0);
                } else if j == c {
                    assert(entries[i].0 != entries[c].0);
                }
            }
        }
    }
    let m = queue_map(entries).insert(k, q);
    assert forall|x: K| #[trigger] queue_map(w).contains_key(x) <==> m.contains_key(x) by {
        if x == k {
            match position(entries, k) {
                Some(i) => lemma_position(w, k, i),
                None => lemma_position(w, k, entries.len() as int),
            }
        } else {
            if position(entries, x) is Some {
                let j = position(entries, x)->0;
                lemma_position(entries, x, j);
                lemma_position(w, x, j);
            }
            if position(w, x) is Some {
                let j = position(w, x)->0;
                lemma_position(w, x, j);
                lemma_position(entries, x, j);
            }
        }
    }
    assert forall|x: K| #[trigger] queue_map(w).contains_key(x) implies queue_map(w)[x] == m[x] by {
        if x == k {
            match position(entries, k) {
                Some(i) => lemma_position(w, k, i),
                None => lemma_position(w, k, entries.len() as int),
            }
        } else {
            let j = position(w, x)->0;
            lemma_position(w, x, j);
            lemma_position(entries, x, j);
        }
    }
    assert(queue_map(w) =~= m);
}

/// With distinct resources, the map of queues has one entry per stored queue.
pub proof fn lemma_queue_map_len<K, Req, S>(entries: Seq<(K, QueueView<Req, S>)>)
    requires
        keys_distinct(entries),
    ensures
        queue_map(entries).dom().finite(),
        queue_map(entries).dom().len() == entries.len(),
    decreases entries.len(),
{
    if entries.len() == 0 {
        assert(queue_map(entries).dom() =~= Set::<K>::empty());
    } else {
        let prefix = entries.drop_last();
        let last = entries.last();
        assert(keys_distinct(prefix));
        lemma_queue_map_len(prefix);
        assert(position(prefix, last.0) is None);
        assert(with_queue(prefix, last.0, last.1) =~= entries);
        lemma_with_queue(prefix, last.0, last.1);
        assert(queue_map(entries).dom() =~= queue_map(prefix).dom().insert(last.0));
    }
}

} // verus!
