use vstd::prelude::*;
use vstd::laws_eq::obeys_concrete_eq;

use crate::error::BatchError;
use crate::queue::PendingRequest;

verus! {

/// The elements of `s` in the order of their first occurrence, each once.
pub open spec fn first_occurrences<A>(s: Seq<A>) -> Seq<A>
    decreases s.len(),
{
    if s.len() == 0 {
        Seq::empty()
    } else {
        let earlier = first_occurrences(s.drop_last());
        if s.drop_last().contains(s.last()) {
            earlier
        } else {
            earlier.push(s.last())
        }
    }
}

/// The requests of `pending`, in order.
pub open spec fn requests_of<Req, S>(pending: Seq<PendingRequest<Req, S>>) -> Seq<Req> {
    pending.map_values(|p: PendingRequest<Req, S>| p.request)
}

/// A value occurs in `first_occurrences(s)` exactly when it occurs in `s`.
pub proof fn lemma_first_occurrences_contains<A>(s: Seq<A>, x: A)
    ensures
        first_occurrences(s).contains(x) <==> s.contains(x),
    decreases s.len(),
{
    if s.len() > 0 {
        let prefix = s.drop_last();
        lemma_first_occurrences_contains(prefix, x);
        lemma_first_occurrences_contains(prefix, s.last());
        assert(s == prefix.push(s.last()));
        if s.contains(x) {
            let i = choose|i: int| 0 <= i < s.len() && s[i] == x;
            if i < prefix.len() {
                assert(prefix[i] == x);
            }
        }
        if prefix.contains(x) {
            let i = choose|i: int| 0 <= i < prefix.len() && prefix[i] == x;
            assert(s[i] == x);
        }
        let earlier = first_occurrences(prefix);
        if !prefix.contains(s.last()) {
            let u = earlier.push(s.last());
            if x == s.last() {
                assert(u[earlier.len() as int] == x);
            }
            if u.contains(x) {
                let i = choose|i: int| 0 <= i < u.len() && u[i] == x;
                if i < earlier.len() {
                    assert(earlier[i] == x);
                }
            }
            if earlier.contains(x) {
                let i = choose|i: int| 0 <= i < earlier.len() && earlier[i] == x;
                assert(u[i] == x);
            }
        }
    }
}

/// No value occurs twice in `first_occurrences(s)`.
pub proof fn lemma_first_occurrences_no_duplicates<A>(s: Seq<A>)
    ensures
        first_occurrences(s).no_duplicates(),
    decreases s.len(),
{
    if s.len() > 0 {
        let prefix = s.drop_last();
        lemma_first_occurrences_no_duplicates(prefix);
        lemma_first_occurrences_contains(prefix, s.last());
        let earlier = first_occurrences(prefix);
        if !prefix.contains(s.last()) {
            let u = earlier.push(s.last());
            assert forall|i: int, j: int|
                0 <= i < u.len() && 0 <= j < u.len() && i != j implies u[i] != u[j] by {
                if i == earlier.len() {
                    assert(u[j] == earlier[j]);
                } else if j == earlier.len() {
                    assert(u[i] == earlier[i]);
                }
            }
        }
    }
}

/// Deduplication: the requests sent for processing hold no request twice, and
/// hold every request of the batch and nothing else.
pub proof fn lemma_unique_requests_distinct_and_complete<A>(s: Seq<A>)
    ensures
        first_occurrences(s).no_duplicates(),
        forall|x: A| first_occurrences(s).contains(x) <==> s.contains(x),
        first_occurrences(s).len() <= s.len(),
    decreases s.len(),
{
    lemma_first_occurrences_no_duplicates(s);
    assert forall|x: A| first_occurrences(s).contains(x) <==> s.contains(x) by {
        lemma_first_occurrences_contains(s, x);
    }
    if s.len() > 0 {
        lemma_unique_requests_distinct_and_complete(s.drop_last());
    }
}

/// Order of the deduplicated requests: each one stands where it first occurs
/// in the batch, and they come in the order of those first occurrences. The
/// returned positions witness it: `positions[i]` is the first position of
/// `first_occurrences(s)[i]` in `s`, and the positions increase.
pub proof fn lemma_first_occurrences_positions<A>(s: Seq<A>) -> (positions: Seq<int>)
    ensures
        positions.len() == first_occurrences(s).len(),
        forall|i: int|
            #![trigger positions[i]]
            0 <= i < positions.len() ==> {
                &&& 0 <= positions[i] < s.len()
                &&& s[positions[i]] == first_occurrences(s)[i]
                &&& forall|l: int| 0 <= l < positions[i] ==> s[l] != first_occurrences(s)[i]
            },
        forall|i: int, j: int| 0 <= i < j < positions.len() ==> positions[i] < positions[j],
    decreases s.len(),
{
    if s.len() == 0 {
        Seq::empty()
    } else {
        let prefix = s.drop_last();
        let earlier = lemma_first_occurrences_positions(prefix);
        if prefix.contains(s.last()) {
            assert forall|i: int| 0 <= i < earlier.len() implies #[trigger] s[earlier[i]]
                == first_occurrences(s)[i] by {
                assert(s[earlier[i]] == prefix[earlier[i]]);
            }
            assert forall|i: int, l: int|
                #![trigger earlier[i], s[l]]
                0 <= i < earlier.len() && 0 <= l < earlier[i] implies s[l]
                != first_occurrences(s)[i] by {
                assert(s[l] == prefix[l]);
            }
            earlier
        } else {
            let positions = earlier.push(prefix.len() as int);
            assert forall|i: int| 0 <= i < positions.len() implies {
                &&& 0 <= #[trigger] positions[i] < s.len()
                &&& s[positions[i]] == first_occurrences(s)[i]
                &&& forall|l: int| 0 <= l < positions[i] ==> s[l] != first_occurrences(s)[i]
            } by {
                if i < earlier.len() {
                    assert(positions[i] == earlier[i]);
                    assert(s[earlier[i]] == prefix[earlier[i]]);
                    assert forall|l: int| 0 <= l < positions[i] implies s[l]
                        != first_occurrences(s)[i] by {
                        assert(s[l] == prefix[l]);
                    }
                } else {
                    assert forall|l: int| 0 <= l < positions[i] implies s[l]
                        != first_occurrences(s)[i] by {
                        assert(s[l] == prefix[l]);
                    }
                }
            }
            positions
        }
    }
}

/// The requests of `pending` to send for processing: each distinct request
/// once, in the order in which it was first submitted.
pub fn unique_requests<'a, Req: PartialEq, S>(pending: &'a Vec<PendingRequest<Req, S>>) -> (unique:
    Vec<&'a Req>)
    requires
        obeys_concrete_eq::<Req>(),
    ensures
        unique@.map_values(|r: &Req| *r) == first_occurrences(requests_of(pending@)),
{
    let ghost reqs = requests_of(pending@);
    let mut unique: Vec<&'a Req> = Vec::new();
    let n = pending.len();
    let mut i: usize = 0;
    while i < n
        invariant
            n == pending@.len(),
            i <= n,
            reqs == requests_of(pending@),
            unique@.map_values(|r: &Req| *r) == first_occurrences(reqs.take(i as int)),
            obeys_concrete_eq::<Req>(),
        decreases n - i,
    {
        let req = &pending[i].request;
        let ghost seen_before = reqs.take(i as int);
        let mut seen = false;
        let mut j: usize = 0;
        while j < unique.len()
            invariant
                j <= unique@.len(),
                *req == pending@[i as int].request,
                seen <==> exists|l: int| 0 <= l < j && *unique@[l] == *req,
                obeys_concrete_eq::<Req>(),
            decreases unique@.len() - j,
        {
            proof {
                reveal(obeys_concrete_eq);
            }
            if *unique[j] == *req {
                seen = true;
            }
            j = j + 1;
        }
        proof {
            let uv = unique@.map_values(|r: &Req| *r);
            assert(reqs[i as int] == *req);
            lemma_first_occurrences_contains(seen_before, *req);
            if seen {
                let l = choose|l: int| 0 <= l < j && *unique@[l] == *req;
                assert(uv[l] == *req);
            }
            if uv.contains(*req) {
                let l = choose|l: int| 0 <= l < uv.len() && uv[l] == *req;
                assert(*unique@[l] == *req);
            }
            assert(reqs.take(i + 1).drop_last() =~= seen_before);
        }
        if !seen {
            unique.push(req);
        }
        proof {
            assert(unique@.map_values(|r: &Req| *r) =~= first_occurrences(reqs.take(i + 1)));
        }
        i = i + 1;
    }
    proof {
        assert(reqs.take(n as int) =~= reqs);
    }
    unique
}

/// The first entry of `responses` whose request is `k`, if there is one.
pub open spec fn first_key_index<Req, Res>(responses: Seq<(Req, Res)>, k: Req) -> Option<
    int,
> {
    if exists|j: int| 0 <= j < responses.len() && responses[j].0 == k {
        Some(
            choose|j: int|
                0 <= j < responses.len() && responses[j].0 == k && forall|l: int|
                    0 <= l < j ==> responses[l].0 != k,
        )
    } else {
        None
    }
}

/// The processor's outcome for a batch, its responses taken as a sequence.
pub open spec fn outcome_view<Req, Res, E>(outcome: Result<Vec<(Req, Res)>, E>) -> Result<
    Seq<(Req, Res)>,
    E,
> {
    match outcome {
        Ok(responses) => Ok(responses@),
        Err(e) => Err(e),
    }
}

/// `reply` is what the requester of `k` is owed when its batch ended in
/// `outcome`: a copy of the response recorded for `k`; `RequestNotFound` when
/// the processor recorded none; a copy of the processor's error when it failed.
pub open spec fn reply_matches<Req, Res: Clone, E: Clone>(
    outcome: Result<Seq<(Req, Res)>, E>,
    k: Req,
    reply: Result<Res, BatchError<E>>,
) -> bool {
    match outcome {
        Ok(responses) => match first_key_index(responses, k) {
            Some(j) => reply matches Ok(v) && cloned(responses[j].1, v),
            None => reply == Err::<Res, BatchError<E>>(BatchError::RequestNotFound),
        },
        Err(e) => reply matches Err(BatchError::ProcessingFailed(f)) && cloned(e, f),
    }
}

/// Requesters of the same request in one batch receive the same reply: copies
/// of one response, `RequestNotFound` both, or copies of one error.
pub proof fn lemma_duplicates_share_reply<Req, Res: Clone, E: Clone>(
    outcome: Result<Seq<(Req, Res)>, E>,
    k: Req,
    a: Result<Res, BatchError<E>>,
    b: Result<Res, BatchError<E>>,
)
    requires
        reply_matches(outcome, k, a),
        reply_matches(outcome, k, b),
    ensures
        match outcome {
            Ok(responses) => match first_key_index(responses, k) {
                Some(j) => exists|x: Res, y: Res|
                    a == Ok::<Res, BatchError<E>>(x) && b == Ok::<Res, BatchError<E>>(y)
                        && cloned(responses[j].1, x) && cloned(responses[j].1, y),
                None => a == b,
            },
            Err(e) => exists|x: E, y: E|
                a == Err::<Res, BatchError<E>>(BatchError::ProcessingFailed(x)) && b == Err::<
                    Res,
                    BatchError<E>,
                >(BatchError::ProcessingFailed(y)) && cloned(e, x) && cloned(e, y),
        },
{
    match outcome {
        Ok(responses) => match first_key_index(responses, k) {
            Some(j) => {
                let x = a->Ok_0;
                let y = b->Ok_0;
                assert(a == Ok::<Res, BatchError<E>>(x));
                assert(b == Ok::<Res, BatchError<E>>(y));
            },
            None => {},
        },
        Err(e) => {
            let x = a->Err_0->ProcessingFailed_0;
            let y = b->Err_0->ProcessingFailed_0;
            assert(a == Err::<Res, BatchError<E>>(BatchError::ProcessingFailed(x)));
            assert(b == Err::<Res, BatchError<E>>(BatchError::ProcessingFailed(y)));
        },
    }
}

/// Every reply is a response, `RequestNotFound` or `ProcessingFailed`: the
/// distribution never answers with `ChannelClosed` or `Other`.
pub proof fn lemma_reply_kinds<Req, Res: Clone, E: Clone>(
    outcome: Result<Seq<(Req, Res)>, E>,
    k: Req,
    reply: Result<Res, BatchError<E>>,
)
    requires
        reply_matches(outcome, k, reply),
    ensures
        reply is Ok || reply == Err::<Res, BatchError<E>>(BatchError::RequestNotFound) || (
        reply is Err && reply->Err_0 is ProcessingFailed),
        !(reply matches Err(BatchError::ChannelClosed)),
        !(reply matches Err(BatchError::Other(_))),
{
}

/// A processor that answers a request in its result never leaves that
/// request's requesters with `RequestNotFound`: they receive a copy of its
/// first answer.
pub proof fn lemma_answered_request_gets_response<Req, Res: Clone, E: Clone>(
    responses: Seq<(Req, Res)>,
    k: Req,
    j: int,
    reply: Result<Res, BatchError<E>>,
)
    requires
        0 <= j < responses.len(),
        responses[j].0 == k,
        reply_matches(Ok::<Seq<(Req, Res)>, E>(responses), k, reply),
    ensures
        reply is Ok,
        exists|f: int| #![auto] first_key_index(responses, k) == Some(f) && cloned(responses[f].1, reply->Ok_0),
{
    let f = first_key_index(responses, k)->0;
    assert(first_key_index(responses, k) == Some(f));
}

/// The first entry for `k` is an entry for `k` with none before it, and there
/// is none exactly when no entry is for `k`.
pub proof fn lemma_first_key_index<Req, Res>(responses: Seq<(Req, Res)>, k: Req)
    ensures
        first_key_index(responses, k) is None <==> forall|j: int|
            0 <= j < responses.len() ==> responses[j].0 != k,
        first_key_index(responses, k) matches Some(j) ==> {
            &&& 0 <= j < responses.len()
            &&& responses[j].0 == k
            &&& forall|l: int| 0 <= l < j ==> responses[l].0 != k
        },
{
    if exists|j: int| 0 <= j < responses.len() && responses[j].0 == k {
        let j0 = choose|j: int| 0 <= j < responses.len() && responses[j].0 == k;
        lemma_least_match(responses, k, j0);
    }
}

/// Below any entry for `k` lies a first one.
proof fn lemma_least_match<Req, Res>(responses: Seq<(Req, Res)>, k: Req, j: int)
    requires
        0 <= j < responses.len(),
        responses[j].0 == k,
    ensures
        exists|f: int|
            0 <= f < responses.len() && responses[f].0 == k && forall|l: int|
                0 <= l < f ==> responses[l].0 != k,
    decreases j,
{
    if exists|l: int| 0 <= l < j && responses[l].0 == k {
        let l = choose|l: int| 0 <= l < j && responses[l].0 == k;
        lemma_least_match(responses, k, l);
    } else {
        assert(forall|l: int| 0 <= l < j ==> responses[l].0 != k);
    }
}

/// A requester only ever receives what concerns its own request: a copy of the
/// first response the processor recorded for that very request;
/// `RequestNotFound` exactly when the processor recorded none for it; a copy
/// of the processor's error when the batch failed.
pub proof fn lemma_reply_answers_own_request<Req, Res: Clone, E: Clone>(
    outcome: Result<Seq<(Req, Res)>, E>,
    k: Req,
    reply: Result<Res, BatchError<E>>,
)
    requires
        reply_matches(outcome, k, reply),
    ensures
        reply_owed(outcome, k, reply),
        match outcome {
            Ok(responses) => match reply {
                Ok(v) => exists|j: int|
                    #![trigger responses[j]]
                    0 <= j < responses.len() && responses[j].0 == k && (forall|l: int|
                        0 <= l < j ==> responses[l].0 != k) && cloned(responses[j].1, v),
                Err(e) => e == BatchError::<E>::RequestNotFound && forall|j: int|
                    0 <= j < responses.len() ==> responses[j].0 != k,
            },
            Err(e) => reply matches Err(BatchError::ProcessingFailed(f)) && cloned(e, f),
        },
{
    match outcome {
        Ok(responses) => {
            lemma_first_key_index(responses, k);
        },
        Err(_) => {},
    }
}

/// What the requester of `k` is owed, said directly: with the processor's
/// responses, a copy of the first response recorded for `k` when one is, and
/// `RequestNotFound` when none is; with the processor's error, a copy of it.
pub open spec fn reply_owed<Req, Res: Clone, E: Clone>(
    outcome: Result<Seq<(Req, Res)>, E>,
    k: Req,
    reply: Result<Res, BatchError<E>>,
) -> bool {
    match outcome {
        Ok(responses) => match reply {
            Ok(v) => exists|j: int|
                #![trigger responses[j]]
                0 <= j < responses.len() && responses[j].0 == k && (forall|l: int|
                    0 <= l < j ==> responses[l].0 != k) && cloned(responses[j].1, v),
            Err(e) => e == BatchError::<E>::RequestNotFound && forall|j: int|
                0 <= j < responses.len() ==> responses[j].0 != k,
        },
        Err(e) => reply matches Err(BatchError::ProcessingFailed(f)) && cloned(e, f),
    }
}

/// Finds the response recorded for `request`: a copy of the first entry of
/// `responses` whose request equals it.
fn find_response<Req: PartialEq, Res: Clone>(responses: &Vec<(Req, Res)>, request: &Req) -> (found:
    Option<Res>)
    requires
        obeys_concrete_eq::<Req>(),
    ensures
        match first_key_index(responses@, *request) {
            Some(j) => found matches Some(v) && cloned(responses@[j].1, v),
            None => found is None,
        },
{
    let n = responses.len();
    let mut j: usize = 0;
    while j < n
        invariant
            n == responses@.len(),
            j <= n,
            forall|l: int| 0 <= l < j ==> responses@[l].0 != *request,
            obeys_concrete_eq::<Req>(),
        decreases n - j,
    {
        proof {
            reveal(obeys_concrete_eq);
        }
        if responses[j].0 == *request {
            proof {
                let c = choose|c: int|
                    0 <= c < responses@.len() && responses@[c].0 == *request && forall|l: int|
                        0 <= l < c ==> responses@[l].0 != *request;
                assert(c == j as int) by {
                    if c < j {
                        assert(responses@[c].0 != *request);
                    }
                    if c > j {
                        assert(responses@[j as int].0 != *request);
                    }
                }
            }
            return Some(responses[j].1.clone());
        }
        j = j + 1;
    }
    None
}

/// The replies owed to every requester of a processed batch, in the batch's
/// order, each paired with the handle that reaches its requester.
pub fn distribute_results<Req: PartialEq, S, Res: Clone, E: Clone>(
    pending: Vec<PendingRequest<Req, S>>,
    outcome: Result<Vec<(Req, Res)>, E>,
) -> (replies: Vec<(S, Result<Res, BatchError<E>>)>)
    requires
        obeys_concrete_eq::<Req>(),
    ensures
        replies@.len() == pending@.len(),
        forall|i: int|
            #![trigger replies@[i]]
            #![trigger pending@[i]]
            0 <= i < pending@.len() ==> {
                &&& replies@[i].0 == pending@[i].sender
                &&& reply_matches(outcome_view(outcome), pending@[i].request, replies@[i].1)
                &&& reply_owed(outcome_view(outcome), pending@[i].request, replies@[i].1)
            },
{
    let ghost ps = pending@;
    let mut replies: Vec<(S, Result<Res, BatchError<E>>)> = Vec::new();
    for p in it: pending
        invariant
            it.seq() == ps,
            replies@.len() == it.index(),
            forall|i: int|
                #![trigger replies@[i]]
                0 <= i < it.index() ==> {
                    &&& replies@[i].0 == ps[i].sender
                    &&& reply_matches(outcome_view(outcome), ps[i].request, replies@[i].1)
                },
            obeys_concrete_eq::<Req>(),
    {
        let reply = match &outcome {
            Ok(responses) => match find_response(responses, &p.request) {
                Some(response) => Ok(response),
                None => Err(BatchError::RequestNotFound),
            },
            Err(e) => Err(BatchError::processing_failed(e.clone())),
        };
        replies.push((p.sender, reply));
    }
    proof {
        assert forall|i: int| 0 <= i < ps.len() implies reply_owed(
            outcome_view(outcome),
            ps[i].request,
            #[trigger] replies@[i].1,
        ) by {
            lemma_reply_answers_own_request(outcome_view(outcome), ps[i].request, replies@[i].1);
        }
    }
    replies
}

} // verus!
