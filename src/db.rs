use vstd::prelude::*;

use crate::error::AppError;
pub use crate::record::{Attempt, GetListResponse, HttpRequest, NewOrigin, Origin, QueuedRequest, Request, UpdateRequest};
use crate::listing::{
    attempt_column, attempt_column_of, int_keys, int_positions, is_first_in_order, optional_key, optional_key_of,
    origin_column, origin_column_of, request_column, request_column_of, select_in_order, AttemptColumn, OriginColumn,
    RequestColumn,
};
use crate::mgmt::{Order, Range};
use crate::record::{headers_view, queued_view, text_view, AttemptView, HttpRequestView, OriginView, RequestView};
use crate::retry::{backoff_ms, backoff_with_jitter, JITTER_SPAN_MS, MAX_SCHEDULED_RETRIES};
pub use crate::state::RequestState;

verus! {

/// The most requests that one pass of the retry queue picks up.
pub const RETRY_BATCH: usize = 5;

/// The contents of a store: its three tables and the next id of each.
pub struct StoreView {
    pub requests: Seq<RequestView>,
    pub attempts: Seq<AttemptView>,
    pub origins: Seq<OriginView>,
    pub next_request_id: i64,
    pub next_attempt_id: i64,
    pub next_origin_id: i64,
}

/// Every attempt belongs to a stored request.
pub open spec fn attempts_reference_requests(v: StoreView) -> bool {
    forall|j: int| 0 <= j < v.attempts.len() ==> has_request(v, (#[trigger] v.attempts[j]).request_id)
}

/// Request `id` has an attempt whose status is a success.
pub open spec fn has_success(v: StoreView, id: i64) -> bool {
    exists|j: int|
        0 <= j < v.attempts.len() && (#[trigger] v.attempts[j]).request_id == id && 200
            <= v.attempts[j].response_status < 300
}

/// Every completed request has a successful attempt.
pub open spec fn completed_have_success(v: StoreView) -> bool {
    forall|i: int|
        0 <= i < v.requests.len() && (#[trigger] v.requests[i]).state == RequestState::Completed
            ==> has_success(v, v.requests[i].id)
}

/// Every request that the retry queue may pick up has a pickup time.
pub open spec fn eligible_have_retry_time(v: StoreView) -> bool {
    forall|i: int|
        0 <= i < v.requests.len() && (#[trigger] v.requests[i]).state.spec_is_retry_eligible()
            ==> v.requests[i].retry_ms_at is Some
}

/// Ids increase along each table and stay below the next id to be given.
pub open spec fn ids_ordered(v: StoreView) -> bool {
    &&& 0 < v.next_request_id && 0 < v.next_attempt_id && 0 < v.next_origin_id
    &&& forall|i: int|
        0 <= i < v.requests.len() ==> 0 < (#[trigger] v.requests[i]).id < v.next_request_id
    &&& forall|i: int, k: int|
        0 <= i < k < v.requests.len() ==> (#[trigger] v.requests[i]).id
            < (#[trigger] v.requests[k]).id
    &&& forall|i: int|
        0 <= i < v.attempts.len() ==> 0 < (#[trigger] v.attempts[i]).id < v.next_attempt_id
    &&& forall|i: int, k: int|
        0 <= i < k < v.attempts.len() ==> (#[trigger] v.attempts[i]).id
            < (#[trigger] v.attempts[k]).id
    &&& forall|i: int|
        0 <= i < v.origins.len() ==> 0 < (#[trigger] v.origins[i]).id < v.next_origin_id
    &&& forall|i: int, k: int|
        0 <= i < k < v.origins.len() ==> (#[trigger] v.origins[i]).id
            < (#[trigger] v.origins[k]).id
}

/// What holds of a store in every state it can reach.
pub open spec fn store_wf(v: StoreView) -> bool {
    &&& ids_ordered(v)
    &&& attempts_reference_requests(v)
    &&& completed_have_success(v)
    &&& eligible_have_retry_time(v)
}

/// A request with this id is stored.
pub open spec fn has_request(v: StoreView, id: i64) -> bool {
    exists|i: int| 0 <= i < v.requests.len() && (#[trigger] v.requests[i]).id == id
}

/// The number of attempts made for request `id`.
pub open spec fn attempt_count(v: StoreView, id: i64) -> nat {
    v.attempts.filter(|a: AttemptView| a.request_id == id).len()
}

/// Whether request `r` may be moved to state `s`: a completed or skipped
/// request keeps its state, a request is completed only after a successful
/// attempt, and a request enters a state that the retry queue serves only
/// with a pickup time.
pub open spec fn state_change_allowed(v: StoreView, r: RequestView, s: RequestState) -> bool {
    &&& !(r.state.spec_is_terminal() && s != r.state)
    &&& (s == RequestState::Completed ==> has_success(v, r.id))
    &&& (s.spec_is_retry_eligible() ==> r.retry_ms_at is Some)
}

/// The state in which request `id` is stored, if it is.
pub open spec fn stored_state(v: StoreView, id: i64) -> Option<RequestState> {
    if has_request(v, id) {
        let i = choose|i: int| 0 <= i < v.requests.len() && (#[trigger] v.requests[i]).id == id;
        Some(v.requests[i].state)
    } else {
        None
    }
}

/// Setting any state of a request stored as completed or skipped leaves the
/// store as it is.
pub proof fn lemma_settled_request_keeps_state(v: StoreView, id: i64, s: RequestState)
    requires
        store_wf(v),
        stored_state(v, id) matches Some(t) && t.spec_is_terminal(),
        s != stored_state(v, id).unwrap(),
    ensures
        with_state(v, id, s) == v,
{
    let i = choose|i: int| 0 <= i < v.requests.len() && (#[trigger] v.requests[i]).id == id;
    assert forall|k: int| 0 <= k < v.requests.len() implies with_state(v, id, s).requests[k] == v.requests[k] by {
        if v.requests[k].id == id {
            lemma_request_ids_unique(v, k, i);
        }
    }
    assert(with_state(v, id, s).requests =~= v.requests);
}

/// The store after setting the state of request `id` to `s`, where allowed.
pub open spec fn with_state(v: StoreView, id: i64, s: RequestState) -> StoreView {
    StoreView {
        requests: v.requests.map_values(
            |r: RequestView|
                if r.id == id && state_change_allowed(v, r, s) {
                    RequestView { state: s, ..r }
                } else {
                    r
                },
        ),
        ..v
    }
}

/// The request `id` moves to state `s` with the given pickup time, unless it
/// is completed.
pub open spec fn with_schedule(v: StoreView, id: i64, s: RequestState, at: i64) -> StoreView {
    StoreView {
        requests: v.requests.map_values(
            |r: RequestView|
                if r.id == id && r.state != RequestState::Completed {
                    RequestView { state: s, retry_ms_at: Some(at), ..r }
                } else {
                    r
                },
        ),
        ..v
    }
}

/// The store after request `id`, which failed in state `s`, is scheduled for
/// another try: unchanged once it has had more than `MAX_SCHEDULED_RETRIES`
/// attempts or where the pickup time overflows.
pub open spec fn rescheduled(v: StoreView, id: i64, s: RequestState, now_ms: i64, jitter: i64) -> StoreView {
    let n = attempt_count(v, id);
    let at = now_ms + backoff_ms(n as int, jitter as int);
    if n > MAX_SCHEDULED_RETRIES || at > i64::MAX {
        v
    } else {
        with_schedule(v, id, s, at as i64)
    }
}

/// The store after recording an attempt of request `request_id` under the
/// next attempt id.
pub open spec fn with_attempt(v: StoreView, request_id: i64, status: u16, body: Seq<u8>, now_s: i64) -> StoreView {
    StoreView {
        attempts: v.attempts.push(
            AttemptView {
                id: v.next_attempt_id,
                request_id,
                response_status: status as i64,
                response_body: body,
                created_at: now_s,
            },
        ),
        next_attempt_id: (v.next_attempt_id + 1) as i64,
        ..v
    }
}

/// The request is one the retry queue should pick up at time `now_ms`.
pub open spec fn is_due(r: RequestView, now_ms: i64) -> bool {
    &&& r.state.spec_is_retry_eligible()
    &&& r.retry_ms_at matches Some(t) && t <= now_ms
}

/// Due request `i` comes before due request `k`: an earlier pickup time, or the
/// same time and stored earlier.
pub open spec fn due_before(v: StoreView, i: int, k: int) -> bool {
    let a = v.requests[i].retry_ms_at.unwrap();
    let b = v.requests[k].retry_ms_at.unwrap();
    a < b || (a == b && i < k)
}

/// `sel` lists, in pickup order, the first `RETRY_BATCH` due requests, or all
/// of them if there are fewer.
pub open spec fn is_due_selection(v: StoreView, now_ms: i64, sel: Seq<int>) -> bool {
    &&& sel.len() <= RETRY_BATCH
    &&& forall|k: int|
        0 <= k < sel.len() ==> 0 <= #[trigger] sel[k] < v.requests.len() && is_due(
            v.requests[sel[k]],
            now_ms,
        )
    &&& forall|k: int, l: int| 0 <= k < l < sel.len() ==> due_before(v, #[trigger] sel[k], #[trigger] sel[l])
    &&& forall|x: int|
        0 <= x < v.requests.len() && is_due(#[trigger] v.requests[x], now_ms) && !sel.contains(x)
            ==> sel.len() == RETRY_BATCH && due_before(v, sel[RETRY_BATCH - 1], x)
}

/// A store that gains a new request under the next id stays well formed, as
/// long as the request is not completed and has a pickup time if the retry
/// queue may pick it up.
proof fn lemma_wf_push_request(v: StoreView, r: RequestView)
    requires
        store_wf(v),
        r.id == v.next_request_id,
        v.next_request_id < i64::MAX,
        r.state != RequestState::Completed,
        r.state.spec_is_retry_eligible() ==> r.retry_ms_at is Some,
    ensures
        store_wf(StoreView { requests: v.requests.push(r), next_request_id: (r.id + 1) as i64, ..v }),
{
    let w = StoreView { requests: v.requests.push(r), next_request_id: (r.id + 1) as i64, ..v };
    assert forall|i: int| 0 <= i < v.requests.len() implies w.requests[i] == v.requests[i] by {}
    assert(w.requests[v.requests.len() as int] == r);
    assert forall|j: int| 0 <= j < w.attempts.len() implies has_request(w, (#[trigger] w.attempts[j]).request_id) by {
        let x = w.attempts[j].request_id;
        assert(has_request(v, x));
        let i = choose|i: int| 0 <= i < v.requests.len() && (#[trigger] v.requests[i]).id == x;
        assert(w.requests[i].id == x);
    }
    assert forall|i: int|
        0 <= i < w.requests.len() && (#[trigger] w.requests[i]).state == RequestState::Completed
            implies has_success(w, w.requests[i].id) by {
        assert(has_success(v, v.requests[i].id));
        let j = choose|j: int|
            0 <= j < v.attempts.len() && (#[trigger] v.attempts[j]).request_id == v.requests[i].id
                && 200 <= v.attempts[j].response_status < 300;
        assert(w.attempts[j] == v.attempts[j]);
    }
}

/// Replacing a request by one with the same id keeps a store well formed,
/// as long as the new row may be completed and has a pickup time where needed.
proof fn lemma_wf_update_request(v: StoreView, i: int, r: RequestView)
    requires
        store_wf(v),
        0 <= i < v.requests.len(),
        r.id == v.requests[i].id,
        r.state == RequestState::Completed ==> has_success(v, r.id),
        r.state.spec_is_retry_eligible() ==> r.retry_ms_at is Some,
    ensures
        store_wf(StoreView { requests: v.requests.update(i, r), ..v }),
{
    let w = StoreView { requests: v.requests.update(i, r), ..v };
    assert forall|k: int| 0 <= k < v.requests.len() implies w.requests[k].id == v.requests[k].id by {}
    assert forall|j: int| 0 <= j < w.attempts.len() implies has_request(w, (#[trigger] w.attempts[j]).request_id) by {
        let x = w.attempts[j].request_id;
        assert(has_request(v, x));
        let i = choose|i: int| 0 <= i < v.requests.len() && (#[trigger] v.requests[i]).id == x;
        assert(w.requests[i].id == x);
    }
    assert forall|k: int|
        0 <= k < w.requests.len() && (#[trigger] w.requests[k]).state == RequestState::Completed
            implies has_success(w, w.requests[k].id) by {
        assert(has_success(v, w.requests[k].id));
        let j = choose|j: int|
            0 <= j < v.attempts.len() && (#[trigger] v.attempts[j]).request_id == w.requests[k].id
                && 200 <= v.attempts[j].response_status < 300;
        assert(w.attempts[j] == v.attempts[j]);
    }
}

/// A store that gains an attempt for a stored request under the next id
/// stays well formed.
proof fn lemma_wf_push_attempt(v: StoreView, a: AttemptView)
    requires
        store_wf(v),
        a.id == v.next_attempt_id,
        v.next_attempt_id < i64::MAX,
        has_request(v, a.request_id),
    ensures
        store_wf(StoreView { attempts: v.attempts.push(a), next_attempt_id: (a.id + 1) as i64, ..v }),
        forall|id: i64| has_success(v, id) ==> has_success(
            StoreView { attempts: v.attempts.push(a), next_attempt_id: (a.id + 1) as i64, ..v },
            id,
        ),
{
    let w = StoreView { attempts: v.attempts.push(a), next_attempt_id: (a.id + 1) as i64, ..v };
    assert forall|j: int| 0 <= j < v.attempts.len() implies w.attempts[j] == v.attempts[j] by {}
    assert(w.attempts[v.attempts.len() as int] == a);
    assert forall|id: i64| has_success(v, id) implies has_success(w, id) by {
        let j = choose|j: int|
            0 <= j < v.attempts.len() && (#[trigger] v.attempts[j]).request_id == id && 200
                <= v.attempts[j].response_status < 300;
        assert(w.attempts[j] == v.attempts[j]);
    }
    assert forall|j: int| 0 <= j < w.attempts.len() implies has_request(w, (#[trigger] w.attempts[j]).request_id) by {
        let x = w.attempts[j].request_id;
        if j < v.attempts.len() {
            assert(w.attempts[j] == v.attempts[j]);
        }
        assert(has_request(v, x));
    }
}

/// Ids are unique in a well-formed store.
proof fn lemma_request_ids_unique(v: StoreView, i: int, k: int)
    requires
        store_wf(v),
        0 <= i < v.requests.len(),
        0 <= k < v.requests.len(),
        v.requests[i].id == v.requests[k].id,
    ensures
        i == k,
{
    if i < k {
        assert(v.requests[i].id < v.requests[k].id);
    } else if k < i {
        assert(v.requests[k].id < v.requests[i].id);
    }
}

/// Setting the state of a request twice does what setting it once does.
pub proof fn lemma_state_update_idempotent(v: StoreView, id: i64, s: RequestState)
    ensures
        with_state(with_state(v, id, s), id, s) == with_state(v, id, s),
{
    let w = with_state(v, id, s);
    let u = with_state(w, id, s);
    assert(w.attempts == v.attempts);
    assert forall|x: i64| has_success(w, x) == has_success(v, x) by {}
    assert forall|i: int| 0 <= i < v.requests.len() implies u.requests[i] == w.requests[i] by {
        let r = v.requests[i];
        if r.id == id && state_change_allowed(v, r, s) {
            assert(w.requests[i] == RequestView { state: s, ..r });
        } else {
            assert(w.requests[i] == r);
            assert(!state_change_allowed(w, r, s) || r.id != id || r.state == s);
        }
    }
    assert(u.requests =~= w.requests);
}

/// The origin row that `n` describes, under `id`.
pub open spec fn origin_row(id: i64, n: NewOrigin, created_at: i64, updated_at: i64) -> OriginView {
    OriginView {
        id,
        domain: n.domain@,
        origin_uri: n.origin_uri@,
        timeout: n.timeout,
        alert_threshold: n.alert_threshold,
        alert_email: text_view(n.alert_email),
        smtp_host: text_view(n.smtp_host),
        smtp_username: text_view(n.smtp_username),
        smtp_password: text_view(n.smtp_password),
        smtp_port: n.smtp_port,
        smtp_tls: n.smtp_tls,
        created_at,
        updated_at,
    }
}

/// An origin with this id is stored.
pub open spec fn has_origin(v: StoreView, id: i64) -> bool {
    exists|i: int| 0 <= i < v.origins.len() && (#[trigger] v.origins[i]).id == id
}

/// The attempts of a listing: those of request `filter`, or all of them.
pub open spec fn attempt_matches(a: AttemptView, filter: Option<i64>) -> bool {
    match filter {
        Some(id) => a.request_id == id,
        None => true,
    }
}

/// A change to the origins alone keeps a store well formed when the origin
/// ids stay ordered.
proof fn lemma_wf_origins_only(v: StoreView, w: StoreView)
    requires
        store_wf(v),
        w.requests == v.requests,
        w.attempts == v.attempts,
        w.next_request_id == v.next_request_id,
        w.next_attempt_id == v.next_attempt_id,
        0 < w.next_origin_id,
        forall|i: int| 0 <= i < w.origins.len() ==> 0 < (#[trigger] w.origins[i]).id < w.next_origin_id,
        forall|i: int, k: int| 0 <= i < k < w.origins.len() ==> (#[trigger] w.origins[i]).id < (#[trigger] w.origins[k]).id,
    ensures
        store_wf(w),
{
    assert forall|x: i64| has_success(w, x) == has_success(v, x) by {}
    assert(ids_ordered(w));
    assert forall|j: int| 0 <= j < w.attempts.len() implies has_request(w, (#[trigger] w.attempts[j]).request_id) by {
        let x = w.attempts[j].request_id;
        assert(has_request(v, x));
        let i = choose|i: int| 0 <= i < v.requests.len() && (#[trigger] v.requests[i]).id == x;
        assert(w.requests[i].id == x);
    }
    assert(attempts_reference_requests(w));
    assert(completed_have_success(w));
    assert(eligible_have_retry_time(w));
}

/// A completed request created more than `days` days before `now_s`.
pub open spec fn is_purgeable(r: RequestView, days: u32, now_s: i64) -> bool {
    r.state == RequestState::Completed && r.created_at < now_s - days * 86400
}

/// Request `id` is stored and is purged at `now_s`.
pub open spec fn is_purged(v: StoreView, id: i64, days: u32, now_s: i64) -> bool {
    exists|i: int|
        0 <= i < v.requests.len() && (#[trigger] v.requests[i]).id == id && is_purgeable(
            v.requests[i],
            days,
            now_s,
        )
}

/// The store once old completed requests and their attempts are deleted.
pub open spec fn purged(v: StoreView, days: u32, now_s: i64) -> StoreView {
    StoreView {
        requests: v.requests.filter(|r: RequestView| !is_purgeable(r, days, now_s)),
        attempts: v.attempts.filter(|a: AttemptView| !is_purged(v, a.request_id, days, now_s)),
        ..v
    }
}

proof fn lemma_filter_requests_ordered(s: Seq<RequestView>, p: spec_fn(RequestView) -> bool)
    requires
        forall|i: int, k: int| 0 <= i < k < s.len() ==> (#[trigger] s[i]).id < (#[trigger] s[k]).id,
    ensures
        forall|i: int, k: int| 0 <= i < k < s.filter(p).len() ==> (#[trigger] s.filter(p)[i]).id < (#[trigger] s.filter(p)[k]).id,
    decreases s.len(),
{
    reveal(Seq::filter);
    if s.len() > 0 {
        let d = s.drop_last();
        lemma_filter_requests_ordered(d, p);
        let f = d.filter(p);
        assert forall|i: int| 0 <= i < f.len() implies (#[trigger] f[i]).id < s.last().id by {
            assert(f.contains(f[i]));
            d.lemma_filter_contains_rev(p, f[i]);
            let k = choose|k: int| 0 <= k < d.len() && d[k] == f[i];
            assert(s[k] == d[k]);
        }
    }
}

proof fn lemma_filter_attempts_ordered(s: Seq<AttemptView>, p: spec_fn(AttemptView) -> bool)
    requires
        forall|i: int, k: int| 0 <= i < k < s.len() ==> (#[trigger] s[i]).id < (#[trigger] s[k]).id,
    ensures
        forall|i: int, k: int| 0 <= i < k < s.filter(p).len() ==> (#[trigger] s.filter(p)[i]).id < (#[trigger] s.filter(p)[k]).id,
    decreases s.len(),
{
    reveal(Seq::filter);
    if s.len() > 0 {
        let d = s.drop_last();
        lemma_filter_attempts_ordered(d, p);
        let f = d.filter(p);
        assert forall|i: int| 0 <= i < f.len() implies (#[trigger] f[i]).id < s.last().id by {
            assert(f.contains(f[i]));
            d.lemma_filter_contains_rev(p, f[i]);
            let k = choose|k: int| 0 <= k < d.len() && d[k] == f[i];
            assert(s[k] == d[k]);
        }
    }
}

/// Purging keeps a store well formed.
proof fn lemma_wf_purged(v: StoreView, days: u32, now_s: i64)
    requires
        store_wf(v),
    ensures
        store_wf(purged(v, days, now_s)),
{
    let w = purged(v, days, now_s);
    let pr = |r: RequestView| !is_purgeable(r, days, now_s);
    let pa = |a: AttemptView| !is_purged(v, a.request_id, days, now_s);
    assert(w.requests == v.requests.filter(pr));
    assert(w.attempts == v.attempts.filter(pa));
    lemma_filter_requests_ordered(v.requests, pr);
    lemma_filter_attempts_ordered(v.attempts, pa);
    assert forall|i: int| 0 <= i < w.requests.len() implies 0 < (#[trigger] w.requests[i]).id < w.next_request_id
        && !is_purgeable(w.requests[i], days, now_s) && v.requests.contains(w.requests[i]) by {
        v.requests.lemma_filter_pred(pr, i);
        assert(w.requests.contains(w.requests[i]));
        v.requests.lemma_filter_contains_rev(pr, w.requests[i]);
    }
    assert forall|i: int| 0 <= i < w.attempts.len() implies 0 < (#[trigger] w.attempts[i]).id < w.next_attempt_id
        && !is_purged(v, w.attempts[i].request_id, days, now_s) && v.attempts.contains(w.attempts[i]) by {
        v.attempts.lemma_filter_pred(pa, i);
        assert(w.attempts.contains(w.attempts[i]));
        v.attempts.lemma_filter_contains_rev(pa, w.attempts[i]);
    }
    assert forall|j: int| 0 <= j < w.attempts.len() implies has_request(w, (#[trigger] w.attempts[j]).request_id) by {
        let a = w.attempts[j];
        let j0 = choose|j0: int| 0 <= j0 < v.attempts.len() && v.attempts[j0] == a;
        assert(has_request(v, v.attempts[j0].request_id));
        let i = choose|i: int| 0 <= i < v.requests.len() && (#[trigger] v.requests[i]).id == a.request_id;
        assert(!is_purgeable(v.requests[i], days, now_s));
        v.requests.lemma_filter_contains(pr, i);
        let k = choose|k: int| 0 <= k < w.requests.len() && w.requests[k] == v.requests[i];
        assert(w.requests[k].id == a.request_id);
    }
    assert forall|i: int| 0 <= i < w.requests.len() && (#[trigger] w.requests[i]).state == RequestState::Completed
        implies has_success(w, w.requests[i].id) by {
        let r = w.requests[i];
        let i0 = choose|i0: int| 0 <= i0 < v.requests.len() && v.requests[i0] == r;
        assert(has_success(v, v.requests[i0].id));
        let j = choose|j: int| 0 <= j < v.attempts.len() && (#[trigger] v.attempts[j]).request_id == r.id
            && 200 <= v.attempts[j].response_status < 300;
        if is_purged(v, r.id, days, now_s) {
            let i1 = choose|i1: int| 0 <= i1 < v.requests.len() && (#[trigger] v.requests[i1]).id == r.id
                && is_purgeable(v.requests[i1], days, now_s);
            lemma_request_ids_unique(v, i0, i1);
        }
        v.attempts.lemma_filter_contains(pa, j);
        let k = choose|k: int| 0 <= k < w.attempts.len() && w.attempts[k] == v.attempts[j];
        assert(w.attempts[k].request_id == r.id);
    }
    assert forall|i: int| 0 <= i < w.requests.len() && (#[trigger] w.requests[i]).state.spec_is_retry_eligible()
        implies w.requests[i].retry_ms_at is Some by {
        let i0 = choose|i0: int| 0 <= i0 < v.requests.len() && v.requests[i0] == w.requests[i];
    }
}

/// The store after ingest adds `req` at `now_s`.
pub open spec fn inserted(v: StoreView, req: HttpRequestView, now_s: i64) -> StoreView {
    StoreView {
        requests: v.requests.push(
            RequestView {
                id: v.next_request_id,
                method: req.method,
                uri: req.uri,
                headers: req.headers,
                body: req.body,
                state: RequestState::Received,
                created_at: now_s,
                retry_ms_at: None,
                from_request_id: None,
            },
        ),
        next_request_id: (v.next_request_id + 1) as i64,
        ..v
    }
}

/// A request read back under the id that inserting it gave carries the
/// method, URI, headers and body it was inserted with.
pub proof fn lemma_insert_then_get(v: StoreView, req: HttpRequestView, now_s: i64, got: RequestView)
    requires
        store_wf(v),
        v.next_request_id < i64::MAX,
        got.id == v.next_request_id,
        exists|i: int| 0 <= i < inserted(v, req, now_s).requests.len() && inserted(v, req, now_s).requests[i] == got,
    ensures
        got.method == req.method,
        got.uri == req.uri,
        got.headers == req.headers,
        got.body == req.body,
{
    let w = inserted(v, req, now_s);
    let i = choose|i: int| 0 <= i < w.requests.len() && w.requests[i] == got;
    if i < v.requests.len() {
        assert(w.requests[i] == v.requests[i]);
    }
}

/// Request `r` passes a listing's filters: its state among `states` and its
/// id among `ids`, where given.
pub open spec fn request_matches(r: RequestView, states: Option<Seq<RequestState>>, ids: Option<Seq<i64>>) -> bool {
    &&& (states matches Some(s) ==> s.contains(r.state))
    &&& (ids matches Some(i) ==> i.contains(r.id))
}

/// An optional list as a sequence.
pub open spec fn opt_seq<T>(o: Option<Vec<T>>) -> Option<Seq<T>> {
    match o {
        Some(v) => Some(v@),
        None => None,
    }
}

/// The sort key of a request under a column.
pub open spec fn request_key(r: RequestView, c: RequestColumn) -> int {
    match c {
        RequestColumn::Id => r.id as int,
        RequestColumn::State => r.state.spec_code() as int,
        RequestColumn::CreatedAt => r.created_at as int,
        RequestColumn::RetryMsAt => optional_key(r.retry_ms_at),
        RequestColumn::FromRequestId => optional_key(r.from_request_id),
    }
}

/// The sort key of an attempt under a column.
pub open spec fn attempt_key(a: AttemptView, c: AttemptColumn) -> int {
    match c {
        AttemptColumn::Id => a.id as int,
        AttemptColumn::RequestId => a.request_id as int,
        AttemptColumn::ResponseStatus => a.response_status as int,
        AttemptColumn::CreatedAt => a.created_at as int,
    }
}

/// The sort key of an origin under a column.
pub open spec fn origin_key(o: OriginView, c: OriginColumn) -> int {
    match c {
        OriginColumn::Id => o.id as int,
        OriginColumn::Timeout => o.timeout as int,
        OriginColumn::CreatedAt => o.created_at as int,
        OriginColumn::UpdatedAt => o.updated_at as int,
    }
}

/// The number of rows that a page starting at `start` takes from `sel`.
pub open spec fn page_len(sel_len: int, start: int) -> int {
    if sel_len > start {
        sel_len - start
    } else {
        0
    }
}

/// A count as a total of a listing, at most `i64::MAX`.
pub open spec fn clamped_total(n: nat) -> int {
    if n > i64::MAX {
        i64::MAX as int
    } else {
        n as int
    }
}

/// A completed request stays completed: neither setting a state nor
/// scheduling a try changes it.
pub proof fn lemma_completed_stays_completed(v: StoreView, id: i64, s: RequestState, at: i64, i: int)
    requires
        0 <= i < v.requests.len(),
        v.requests[i].state == RequestState::Completed,
    ensures
        with_state(v, id, s).requests[i].state == RequestState::Completed,
        with_schedule(v, id, s, at).requests[i].state == RequestState::Completed,
{
}

/// Two rows of the requests table hold the same request: id, method, URI,
/// headers and body.
pub open spec fn same_request(x: RequestView, y: RequestView) -> bool {
    x.id == y.id && x.method == y.method && x.uri == y.uri && x.headers == y.headers && x.body
        == y.body
}

/// Every request of `a` is still in `b`, at the same place, holding the same
/// request; only its state and pickup time may differ.
pub open spec fn keeps_requests(a: StoreView, b: StoreView) -> bool {
    &&& a.requests.len() <= b.requests.len()
    &&& forall|i: int| 0 <= i < a.requests.len() ==> same_request(#[trigger] a.requests[i], b.requests[i])
}

/// Request `id` is stored with the method, URI, headers and body of `h`.
pub open spec fn persisted(v: StoreView, id: i64, h: HttpRequestView) -> bool {
    exists|i: int|
        0 <= i < v.requests.len() && (#[trigger] v.requests[i]).id == id && v.requests[i].method
            == h.method && v.requests[i].uri == h.uri && v.requests[i].headers == h.headers
            && v.requests[i].body == h.body
}

pub proof fn lemma_keeps_requests_trans(a: StoreView, b: StoreView, c: StoreView)
    requires
        keeps_requests(a, b),
        keeps_requests(b, c),
    ensures
        keeps_requests(a, c),
{
    assert forall|i: int| 0 <= i < a.requests.len() implies same_request(#[trigger] a.requests[i], c.requests[i]) by {
        assert(same_request(a.requests[i], b.requests[i]));
        assert(same_request(b.requests[i], c.requests[i]));
    }
}

pub proof fn lemma_keeps_persisted(a: StoreView, b: StoreView, id: i64, h: HttpRequestView)
    requires
        keeps_requests(a, b),
        persisted(a, id, h),
    ensures
        persisted(b, id, h),
{
    let i = choose|i: int|
        0 <= i < a.requests.len() && (#[trigger] a.requests[i]).id == id && a.requests[i].method
            == h.method && a.requests[i].uri == h.uri && a.requests[i].headers == h.headers
            && a.requests[i].body == h.body;
    assert(same_request(a.requests[i], b.requests[i]));
}

/// Setting states and pickup times, adding requests and adding attempts keep
/// every stored request.
pub proof fn lemma_updates_keep_requests(v: StoreView, id: i64, s: RequestState, at: i64, r: RequestView)
    ensures
        keeps_requests(v, with_state(v, id, s)),
        keeps_requests(v, with_schedule(v, id, s, at)),
        keeps_requests(v, StoreView { requests: v.requests.push(r), ..v }),
        keeps_requests(v, v),
{
    let w = StoreView { requests: v.requests.push(r), ..v };
    assert forall|i: int| 0 <= i < v.requests.len() implies same_request(#[trigger] v.requests[i], w.requests[i]) by {}
}

/// The three tables of the store, kept in memory: requests, their attempts,
/// and origins. Every operation keeps `store_wf`.
pub struct Store {
    requests: Vec<Request>,
    attempts: Vec<Attempt>,
    origins: Vec<Origin>,
    next_request_id: i64,
    next_attempt_id: i64,
    next_origin_id: i64,
}

impl View for Store {
    type V = StoreView;

    closed spec fn view(&self) -> StoreView {
        StoreView {
            requests: self.requests@.map_values(|r: Request| r@),
            attempts: self.attempts@.map_values(|a: Attempt| a@),
            origins: self.origins@.map_values(|o: Origin| o@),
            next_request_id: self.next_request_id,
            next_attempt_id: self.next_attempt_id,
            next_origin_id: self.next_origin_id,
        }
    }
}

impl Store {
    /// Every store that `new` and the operations below produce satisfies
    /// `store_wf`: each attempt belongs to a stored request, each completed
    /// request has a successful attempt, and each request that the retry
    /// queue may pick up has a pickup time.
    pub open spec fn wf(&self) -> bool {
        store_wf(self@)
    }

    /// A store with no rows.
    pub fn new() -> (r: Store)
        ensures
            r@.requests.len() == 0,
            r@.attempts.len() == 0,
            r@.origins.len() == 0,
            r.wf(),
    {
        let r = Store {
            requests: Vec::new(),
            attempts: Vec::new(),
            origins: Vec::new(),
            next_request_id: 1,
            next_attempt_id: 1,
            next_origin_id: 1,
        };
        assert(r@.requests =~= Seq::empty());
        assert(r@.attempts =~= Seq::empty());
        assert(r@.origins =~= Seq::empty());
        r
    }

    /// The position of request `id`.
    fn find_request(&self, id: i64) -> (r: Option<usize>)
        ensures
            r matches Some(i) ==> i < self@.requests.len() && self@.requests[i as int].id == id,
            r is None ==> !has_request(self@, id),
    {
        let mut i: usize = 0;
        while i < self.requests.len()
            invariant
                i <= self.requests@.len(),
                forall|k: int| 0 <= k < i ==> self@.requests[k].id != id,
            decreases self.requests@.len() - i,
        {
            if self.requests[i].id == id {
                return Some(i);
            }
            i = i + 1;
        }
        None
    }

    /// Adds a request as ingest received it: a new id, state `Received`,
    /// created at `now_s`, with no pickup time.
    pub fn insert_request(&mut self, req: HttpRequest, now_s: i64) -> (r: Result<QueuedRequest, AppError>)
        requires
            old(self).wf(),
        ensures
            final(self).wf(),
            old(self)@.next_request_id == i64::MAX ==> r == Err::<QueuedRequest, AppError>(
                AppError::Exhausted,
            ) && final(self)@ == old(self)@,
            old(self)@.next_request_id < i64::MAX ==> r is Ok,
            r matches Ok(q) ==> {
                &&& q@ == (crate::record::QueuedRequestView {
                    id: old(self)@.next_request_id,
                    method: req@.method,
                    uri: req@.uri,
                    headers: req@.headers,
                    body: req@.body,
                    state: RequestState::Received,
                })
                &&& final(self)@ == inserted(old(self)@, req@, now_s)
            },
    {
        if self.next_request_id == i64::MAX {
            return Err(AppError::Exhausted);
        }
        let id = self.next_request_id;
        let row = Request {
            id,
            method: req.method.clone(),
            uri: req.uri.clone(),
            headers: crate::record::copy_headers(&req.headers),
            body: crate::record::copy_opt_bytes(&req.body),
            state: RequestState::Received,
            created_at: now_s,
            retry_ms_at: None,
            from_request_id: None,
        };
        let ghost before = self@;
        self.next_request_id = id + 1;
        self.requests.push(row);
        proof {
            assert(self@.requests =~= before.requests.push(row@));
            lemma_wf_push_request(before, row@);
        }
        Ok(QueuedRequest {
            id,
            method: req.method,
            uri: req.uri,
            headers: req.headers,
            body: req.body,
            state: RequestState::Received,
        })
    }

    /// The state in which request `id` is stored, if it is.
    pub fn request_state(&self, id: i64) -> (r: Option<RequestState>)
        requires
            self.wf(),
        ensures
            r == stored_state(self@, id),
    {
        match self.find_request(id) {
            Some(i) => {
                proof {
                    let v = self@;
                    let j = choose|j: int| 0 <= j < v.requests.len() && (#[trigger] v.requests[j]).id == id;
                    lemma_request_ids_unique(v, i as int, j);
                }
                Some(self.requests[i].state)
            },
            None => None,
        }
    }

    /// A copy of request `id`, if stored.
    pub fn get_request(&self, id: i64) -> (r: Option<Request>)
        ensures
            r is None <==> !has_request(self@, id),
            r matches Some(q) ==> q.id == id && exists|i: int|
                0 <= i < self@.requests.len() && self@.requests[i] == q@,
    {
        match self.find_request(id) {
            Some(i) => {
                let q = self.requests[i].copy();
                assert(self@.requests[i as int] == q@);
                Some(q)
            },
            None => None,
        }
    }

    /// The number of attempts made for request `id`.
    pub fn count_attempts(&self, id: i64) -> (r: usize)
        ensures
            r == attempt_count(self@, id),
    {
        let mut n: usize = 0;
        let mut i: usize = 0;
        while i < self.attempts.len()
            invariant
                i <= self.attempts@.len(),
                n == self@.attempts.subrange(0, i as int).filter(|a: AttemptView| a.request_id == id).len(),
                n <= i,
            decreases self.attempts@.len() - i,
        {
            proof {
                assert(self@.attempts.subrange(0, i + 1).drop_last() =~= self@.attempts.subrange(0, i as int));
                reveal(Seq::filter);
            }
            if self.attempts[i].request_id == id {
                n = n + 1;
            }
            i = i + 1;
        }
        assert(self@.attempts.subrange(0, i as int) =~= self@.attempts);
        n
    }

    /// Whether request `id` has a successful attempt.
    fn find_success(&self, id: i64) -> (r: bool)
        ensures
            r == has_success(self@, id),
    {
        let mut i: usize = 0;
        while i < self.attempts.len()
            invariant
                i <= self.attempts@.len(),
                forall|j: int| 0 <= j < i ==> !((#[trigger] self@.attempts[j]).request_id == id && 200
                    <= self@.attempts[j].response_status < 300),
            decreases self.attempts@.len() - i,
        {
            let a = &self.attempts[i];
            if a.request_id == id && 200 <= a.response_status && a.response_status < 300 {
                assert(self@.attempts[i as int] == a@);
                return true;
            }
            i = i + 1;
        }
        false
    }

    /// Sets the state of request `id` to `state`, where `state_change_allowed`
    /// permits it; gives the number of rows changed.
    pub fn update_request_state(&mut self, id: i64, state: RequestState) -> (r: u64)
        requires
            old(self).wf(),
        ensures
            final(self).wf(),
            final(self)@ == with_state(old(self)@, id, state),
            r <= 1,
            r == 1 <==> exists|i: int|
                0 <= i < old(self)@.requests.len() && (#[trigger] old(self)@.requests[i]).id == id
                    && state_change_allowed(old(self)@, old(self)@.requests[i], state),
    {
        let ghost v = self@;
        match self.find_request(id) {
            None => {
                assert(self@.requests =~= with_state(v, id, state).requests);
                0
            },
            Some(i) => {
                let current = self.requests[i].state;
                let allowed = !(current.is_terminal() && state != current)
                    && (state != RequestState::Completed || self.find_success(id))
                    && (!state.is_retry_eligible() || self.requests[i].retry_ms_at.is_some());
                assert(allowed == state_change_allowed(v, v.requests[i as int], state));
                if !allowed {
                    proof {
                        assert forall|k: int| 0 <= k < v.requests.len() && #[trigger] v.requests[k].id == id
                            implies k == i by {
                            lemma_request_ids_unique(v, k, i as int);
                        }
                    }
                    assert(self@.requests =~= with_state(v, id, state).requests);
                    return 0;
                }
                self.requests[i].state = state;
                proof {
                    let row = RequestView { state: state, ..v.requests[i as int] };
                    assert forall|k: int| 0 <= k < v.requests.len() && #[trigger] v.requests[k].id == id
                        implies k == i by {
                        lemma_request_ids_unique(v, k, i as int);
                    }
                    assert(self@.requests =~= v.requests.update(i as int, row));
                    assert(self@.requests =~= with_state(v, id, state).requests);
                    lemma_wf_update_request(v, i as int, row);
                }
                1
            },
        }
    }

    /// Whether request `id` has had at least `threshold` attempts.
    pub fn attempts_reached_threshold(&self, id: i64, threshold: u16) -> (r: bool)
        ensures
            r == (attempt_count(self@, id) >= threshold),
    {
        self.count_attempts(id) >= threshold as usize
    }

    /// Records one delivery try of request `request_id` made at `now_s`.
    pub fn insert_attempt(&mut self, request_id: i64, response_status: u16, response_body: Vec<u8>, now_s: i64) -> (r: Result<i64, AppError>)
        requires
            old(self).wf(),
        ensures
            final(self).wf(),
            !has_request(old(self)@, request_id) ==> r == Err::<i64, AppError>(AppError::NotFound),
            has_request(old(self)@, request_id) && old(self)@.next_attempt_id == i64::MAX ==> r == Err::<i64, AppError>(AppError::Exhausted),
            r is Err ==> final(self)@ == old(self)@,
            has_request(old(self)@, request_id) && old(self)@.next_attempt_id < i64::MAX ==> r is Ok,
            r matches Ok(id) ==> id == old(self)@.next_attempt_id && final(self)@ == (StoreView {
                attempts: old(self)@.attempts.push(AttemptView {
                    id,
                    request_id,
                    response_status: response_status as i64,
                    response_body: response_body@,
                    created_at: now_s,
                }),
                next_attempt_id: (id + 1) as i64,
                ..old(self)@
            }),
    {
        if self.find_request(request_id).is_none() {
            return Err(AppError::NotFound);
        }
        if self.next_attempt_id == i64::MAX {
            return Err(AppError::Exhausted);
        }
        let id = self.next_attempt_id;
        let row = Attempt {
            id,
            request_id,
            response_status: response_status as i64,
            response_body,
            created_at: now_s,
        };
        let ghost v = self@;
        self.next_attempt_id = id + 1;
        self.attempts.push(row);
        proof {
            assert(self@.attempts =~= v.attempts.push(row@));
            lemma_wf_push_attempt(v, row@);
        }
        Ok(id)
    }

    /// Moves request `id` to `state` with its pickup time, unless completed.
    fn schedule(&mut self, id: i64, state: RequestState, at: i64) -> (r: u64)
        requires
            old(self).wf(),
            state.spec_is_retry_eligible(),
        ensures
            final(self).wf(),
            final(self)@ == with_schedule(old(self)@, id, state, at),
            r <= 1,
            r == 1 <==> exists|i: int|
                0 <= i < old(self)@.requests.len() && (#[trigger] old(self)@.requests[i]).id == id
                    && old(self)@.requests[i].state != RequestState::Completed,
    {
        let ghost v = self@;
        match self.find_request(id) {
            None => {
                assert(self@.requests =~= with_schedule(v, id, state, at).requests);
                0
            },
            Some(i) => {
                proof {
                    assert forall|k: int| 0 <= k < v.requests.len() && #[trigger] v.requests[k].id == id
                        implies k == i by {
                        lemma_request_ids_unique(v, k, i as int);
                    }
                }
                if self.requests[i].state == RequestState::Completed {
                    assert(self@.requests =~= with_schedule(v, id, state, at).requests);
                    return 0;
                }
                self.requests[i].state = state;
                self.requests[i].retry_ms_at = Some(at);
                proof {
                    let row = RequestView { state: state, retry_ms_at: Some(at), ..v.requests[i as int] };
                    assert(self@.requests =~= v.requests.update(i as int, row));
                    assert(self@.requests =~= with_schedule(v, id, state, at).requests);
                    lemma_wf_update_request(v, i as int, row);
                }
                1
            },
        }
    }

    /// Schedules request `id`, which failed in `state`, for another try: with
    /// `n` prior attempts, at `now_ms + backoff_ms(n, jitter)`. A request with
    /// more than `MAX_SCHEDULED_RETRIES` attempts, or a completed one, is left
    /// as it is.
    pub fn retry_request(&mut self, id: i64, state: RequestState, now_ms: i64, jitter: i64) -> (r: Result<(), AppError>)
        requires
            old(self).wf(),
            state.spec_is_retry_eligible(),
            0 <= jitter < JITTER_SPAN_MS,
        ensures
            final(self).wf(),
            ({
                let n = attempt_count(old(self)@, id);
                let at = now_ms + backoff_ms(n as int, jitter as int);
                &&& n > MAX_SCHEDULED_RETRIES ==> r is Ok && final(self)@ == old(self)@
                &&& n <= MAX_SCHEDULED_RETRIES && at > i64::MAX ==> r == Err::<(), AppError>(AppError::Exhausted) && final(self)@ == old(self)@
                &&& n <= MAX_SCHEDULED_RETRIES && at <= i64::MAX ==> r is Ok && final(self)@ == with_schedule(old(self)@, id, state, at as i64)
            }),
            final(self)@ == rescheduled(old(self)@, id, state, now_ms, jitter),
    {
        let n = self.count_attempts(id);
        if n > MAX_SCHEDULED_RETRIES as usize {
            return Ok(());
        }
        let delay = backoff_with_jitter(n as i32, jitter);
        proof {
            crate::retry::lemma_backoff_base_bounded(n as int);
        }
        match now_ms.checked_add(delay) {
            None => Err(AppError::Exhausted),
            Some(at) => {
                self.schedule(id, state, at);
                Ok(())
            },
        }
    }

    /// Puts request `id` back in the queue for a try at `now_ms`, unless it
    /// is completed; gives the number of rows changed.
    pub fn add_request_to_queue(&mut self, id: i64, now_ms: i64) -> (r: u64)
        requires
            old(self).wf(),
        ensures
            final(self).wf(),
            final(self)@ == with_schedule(old(self)@, id, RequestState::Created, now_ms),
            r <= 1,
            r == 1 <==> exists|i: int|
                0 <= i < old(self)@.requests.len() && (#[trigger] old(self)@.requests[i]).id == id
                    && old(self)@.requests[i].state != RequestState::Completed,
    {
        self.schedule(id, RequestState::Created, now_ms)
    }

    /// Whether stored request `j` is due at `now_ms`.
    fn due_at(&self, j: usize, now_ms: i64) -> (r: bool)
        requires
            j < self@.requests.len(),
        ensures
            r == is_due(self@.requests[j as int], now_ms),
    {
        let row = &self.requests[j];
        row.state.is_retry_eligible() && match row.retry_ms_at {
            Some(t) => t <= now_ms,
            None => false,
        }
    }

    /// Whether due request `i` comes before due request `k`.
    fn comes_before(&self, i: usize, k: usize) -> (r: bool)
        requires
            i < self@.requests.len(),
            k < self@.requests.len(),
            self@.requests[i as int].retry_ms_at is Some,
            self@.requests[k as int].retry_ms_at is Some,
        ensures
            r == due_before(self@, i as int, k as int),
    {
        let a = self.requests[i].retry_ms_at.unwrap();
        let b = self.requests[k].retry_ms_at.unwrap();
        a < b || (a == b && i < k)
    }

    /// The requests that the retry queue picks up at `now_ms`: at most
    /// `RETRY_BATCH` of those in a state it serves whose pickup time has come,
    /// earliest pickup time first.
    pub fn list_failed_requests(&self, now_ms: i64) -> (r: Vec<QueuedRequest>)
        ensures
            exists|sel: Seq<int>|
                #[trigger] is_due_selection(self@, now_ms, sel) && r@.len() == sel.len() && forall|k: int|
                    0 <= k < sel.len() ==> (#[trigger] r@[k])@ == queued_view(self@.requests[sel[k]]),
    {
        let ghost v = self@;
        let n = self.requests.len();
        let mut chosen: Vec<usize> = Vec::new();
        let mut result: Vec<QueuedRequest> = Vec::new();
        let mut exhausted = false;
        while chosen.len() < RETRY_BATCH && !exhausted
            invariant
                v == self@,
                n == v.requests.len(),
                chosen@.len() <= RETRY_BATCH,
                result@.len() == chosen@.len(),
                forall|k: int| 0 <= k < chosen@.len() ==> (#[trigger] chosen@[k]) < n && is_due(v.requests[chosen@[k] as int], now_ms),
                forall|k: int| 0 <= k < chosen@.len() ==> (#[trigger] result@[k])@ == queued_view(v.requests[chosen@[k] as int]),
                forall|k: int, l: int| 0 <= k < l < chosen@.len() ==> due_before(v, #[trigger] chosen@[k] as int, #[trigger] chosen@[l] as int),
                forall|x: int| 0 <= x < n && is_due(#[trigger] v.requests[x], now_ms) && !chosen@.map_values(|c: usize| c as int).contains(x)
                    ==> !exhausted && chosen@.len() > 0 ==> due_before(v, chosen@[chosen@.len() - 1] as int, x),
                forall|x: int| 0 <= x < n && is_due(#[trigger] v.requests[x], now_ms) && exhausted ==> chosen@.map_values(|c: usize| c as int).contains(x),
            decreases RETRY_BATCH - chosen@.len(), if exhausted { 0int } else { 1int },
        {
            let mut best: Option<usize> = None;
            let mut j: usize = 0;
            while j < n
                invariant
                    v == self@,
                    n == v.requests.len(),
                    j <= n,
                    chosen@.len() <= RETRY_BATCH,
                    forall|k: int| 0 <= k < chosen@.len() ==> (#[trigger] chosen@[k]) < n && is_due(v.requests[chosen@[k] as int], now_ms),
                    best matches Some(b) ==> b < j && is_due(v.requests[b as int], now_ms) && (chosen@.len() == 0 || due_before(v, chosen@[chosen@.len() - 1] as int, b as int)),
                    forall|y: int| 0 <= y < j && is_due(#[trigger] v.requests[y], now_ms) && (chosen@.len() == 0 || due_before(v, chosen@[chosen@.len() - 1] as int, y))
                        ==> (best matches Some(b) && (y == b || due_before(v, b as int, y))),
                decreases n - j,
            {
                if self.due_at(j, now_ms) {
                    let after_last = chosen.len() == 0 || self.comes_before(chosen[chosen.len() - 1], j);
                    if after_last {
                        match best {
                            None => {
                                best = Some(j);
                            },
                            Some(b) => {
                                if self.comes_before(j, b) {
                                    best = Some(j);
                                }
                            },
                        }
                    }
                }
                j = j + 1;
            }
            match best {
                None => {
                    exhausted = true;
                    proof {
                        assert forall|x: int| 0 <= x < n && is_due(#[trigger] v.requests[x], now_ms)
                            implies chosen@.map_values(|c: usize| c as int).contains(x) by {
                            if !chosen@.map_values(|c: usize| c as int).contains(x) {
                                assert(chosen@.len() == 0 || due_before(v, chosen@[chosen@.len() - 1] as int, x));
                            }
                        }
                    }
                },
                Some(b) => {
                    let ghost old_chosen = chosen@;
                    chosen.push(b);
                    result.push(self.requests[b].to_queued());
                    proof {
                        assert forall|x: int| 0 <= x < n && is_due(#[trigger] v.requests[x], now_ms) && !chosen@.map_values(|c: usize| c as int).contains(x)
                            implies due_before(v, chosen@[chosen@.len() - 1] as int, x) by {
                            let now_sel = chosen@.map_values(|c: usize| c as int);
                            let old_sel = old_chosen.map_values(|c: usize| c as int);
                            assert(now_sel =~= old_sel.push(b as int));
                            assert(now_sel[now_sel.len() - 1] == b as int);
                            assert(x != b as int);
                            if old_sel.contains(x) {
                                let k = choose|k: int| 0 <= k < old_sel.len() && old_sel[k] == x;
                                assert(now_sel[k] == x);
                            }
                        }
                        assert forall|k: int, l: int| 0 <= k < l < chosen@.len() implies due_before(v, #[trigger] chosen@[k] as int, #[trigger] chosen@[l] as int) by {
                            if l == chosen@.len() - 1 && k < l - 1 {
                                assert(due_before(v, old_chosen[k] as int, old_chosen[old_chosen.len() - 1] as int));
                            }
                        }
                    }
                },
            }
        }
        let ghost sel = chosen@.map_values(|c: usize| c as int);
        proof {
            assert forall|k: int| 0 <= k < sel.len() implies 0 <= #[trigger] sel[k] < v.requests.len() && is_due(v.requests[sel[k]], now_ms) by {
                assert(sel[k] == chosen@[k] as int);
            }
            assert forall|k: int, l: int| 0 <= k < l < sel.len() implies due_before(v, #[trigger] sel[k], #[trigger] sel[l]) by {
                assert(sel[k] == chosen@[k] as int);
                assert(sel[l] == chosen@[l] as int);
            }
            assert forall|x: int| 0 <= x < v.requests.len() && is_due(#[trigger] v.requests[x], now_ms) && !sel.contains(x)
                implies sel.len() == RETRY_BATCH && due_before(v, sel[RETRY_BATCH - 1], x) by {
                assert(!exhausted);
            }
            assert(is_due_selection(v, now_ms, sel));
        }
        result
    }

    /// A new request forked by an operator from request `id`: state
    /// `Created`, due at once, linked to `id`.
    pub fn update_request(&mut self, id: i64, request: UpdateRequest, now_s: i64, now_ms: i64) -> (r: Result<Request, AppError>)
        requires
            old(self).wf(),
        ensures
            final(self).wf(),
            !has_request(old(self)@, id) ==> r == Err::<Request, AppError>(AppError::NotFound),
            has_request(old(self)@, id) && old(self)@.next_request_id == i64::MAX ==> r == Err::<Request, AppError>(AppError::Exhausted),
            has_request(old(self)@, id) && old(self)@.next_request_id < i64::MAX ==> r is Ok,
            r is Err ==> final(self)@ == old(self)@,
            r matches Ok(q) ==> {
                &&& q@ == (RequestView {
                    id: old(self)@.next_request_id,
                    method: request.method@,
                    uri: request.uri@,
                    headers: headers_view(request.headers@),
                    body: Some(request.body@),
                    state: RequestState::Created,
                    created_at: now_s,
                    retry_ms_at: Some(now_ms),
                    from_request_id: Some(id),
                })
                &&& final(self)@ == (StoreView {
                    requests: old(self)@.requests.push(q@),
                    next_request_id: (q.id + 1) as i64,
                    ..old(self)@
                })
            },
    {
        if self.find_request(id).is_none() {
            return Err(AppError::NotFound);
        }
        if self.next_request_id == i64::MAX {
            return Err(AppError::Exhausted);
        }
        let new_id = self.next_request_id;
        let row = Request {
            id: new_id,
            method: request.method,
            uri: request.uri,
            headers: request.headers,
            body: Some(request.body),
            state: RequestState::Created,
            created_at: now_s,
            retry_ms_at: Some(now_ms),
            from_request_id: Some(id),
        };
        let copy = row.copy();
        let ghost v = self@;
        self.next_request_id = new_id + 1;
        self.requests.push(row);
        proof {
            assert(self@.requests =~= v.requests.push(copy@));
            lemma_wf_push_request(v, copy@);
        }
        Ok(copy)
    }

    /// A copy of attempt `id`, if stored.
    pub fn get_attempt(&self, id: i64) -> (r: Option<Attempt>)
        ensures
            r is None <==> !exists|i: int| 0 <= i < self@.attempts.len() && (#[trigger] self@.attempts[i]).id == id,
            r matches Some(a) ==> a.id == id && exists|i: int| 0 <= i < self@.attempts.len() && self@.attempts[i] == a@,
    {
        let mut i: usize = 0;
        while i < self.attempts.len()
            invariant
                i <= self.attempts@.len(),
                forall|k: int| 0 <= k < i ==> (#[trigger] self@.attempts[k]).id != id,
            decreases self.attempts@.len() - i,
        {
            if self.attempts[i].id == id {
                let a = self.attempts[i].copy();
                assert(self@.attempts[i as int] == a@);
                return Some(a);
            }
            i = i + 1;
        }
        None
    }

    /// Adds an origin under a new id, created and updated at `now_s`.
    pub fn insert_origin(&mut self, origin: NewOrigin, now_s: i64) -> (r: Result<Origin, AppError>)
        requires
            old(self).wf(),
        ensures
            final(self).wf(),
            old(self)@.next_origin_id == i64::MAX ==> r == Err::<Origin, AppError>(AppError::Exhausted) && final(self)@ == old(self)@,
            old(self)@.next_origin_id < i64::MAX ==> r is Ok,
            r matches Ok(o) ==> {
                &&& o@ == origin_row(old(self)@.next_origin_id, origin, now_s, now_s)
                &&& final(self)@ == (StoreView {
                    origins: old(self)@.origins.push(o@),
                    next_origin_id: (o.id + 1) as i64,
                    ..old(self)@
                })
            },
    {
        if self.next_origin_id == i64::MAX {
            return Err(AppError::Exhausted);
        }
        let id = self.next_origin_id;
        let row = Origin {
            id,
            domain: origin.domain,
            origin_uri: origin.origin_uri,
            timeout: origin.timeout,
            alert_threshold: origin.alert_threshold,
            alert_email: origin.alert_email,
            smtp_host: origin.smtp_host,
            smtp_username: origin.smtp_username,
            smtp_password: origin.smtp_password,
            smtp_port: origin.smtp_port,
            smtp_tls: origin.smtp_tls,
            created_at: now_s,
            updated_at: now_s,
        };
        let copy = row.copy();
        let ghost v = self@;
        self.next_origin_id = id + 1;
        self.origins.push(row);
        proof {
            assert(self@.origins =~= v.origins.push(copy@));
            assert forall|i: int| 0 <= i < v.origins.len() implies self@.origins[i] == v.origins[i] by {}
            lemma_wf_origins_only(v, self@);
        }
        Ok(copy)
    }

    /// The position of origin `id`.
    fn find_origin(&self, id: i64) -> (r: Option<usize>)
        ensures
            r matches Some(i) ==> i < self@.origins.len() && self@.origins[i as int].id == id,
            r is None ==> !has_origin(self@, id),
    {
        let mut i: usize = 0;
        while i < self.origins.len()
            invariant
                i <= self.origins@.len(),
                forall|k: int| 0 <= k < i ==> self@.origins[k].id != id,
            decreases self.origins@.len() - i,
        {
            if self.origins[i].id == id {
                return Some(i);
            }
            i = i + 1;
        }
        None
    }

    /// Replaces the settings of origin `id`, updated at `now_s`.
    pub fn update_origin(&mut self, id: i64, origin: NewOrigin, now_s: i64) -> (r: Result<Origin, AppError>)
        requires
            old(self).wf(),
        ensures
            final(self).wf(),
            !has_origin(old(self)@, id) ==> r == Err::<Origin, AppError>(AppError::NotFound) && final(self)@ == old(self)@,
            has_origin(old(self)@, id) ==> r is Ok,
            r matches Ok(o) ==> exists|i: int| 0 <= i < old(self)@.origins.len() && old(self)@.origins[i].id == id
                && o@ == origin_row(id, origin, old(self)@.origins[i].created_at, now_s)
                && final(self)@ == (StoreView { origins: old(self)@.origins.update(i, o@), ..old(self)@ }),
    {
        match self.find_origin(id) {
            None => Err(AppError::NotFound),
            Some(i) => {
                let row = Origin {
                    id,
                    domain: origin.domain,
                    origin_uri: origin.origin_uri,
                    timeout: origin.timeout,
                    alert_threshold: origin.alert_threshold,
                    alert_email: origin.alert_email,
                    smtp_host: origin.smtp_host,
                    smtp_username: origin.smtp_username,
                    smtp_password: origin.smtp_password,
                    smtp_port: origin.smtp_port,
                    smtp_tls: origin.smtp_tls,
                    created_at: self.origins[i].created_at,
                    updated_at: now_s,
                };
                let copy = row.copy();
                let ghost v = self@;
                self.origins.set(i, row);
                proof {
                    assert(self@.origins =~= v.origins.update(i as int, copy@));
                    assert forall|k: int| 0 <= k < v.origins.len() implies self@.origins[k].id == v.origins[k].id by {}
                    lemma_wf_origins_only(v, self@);
                }
                Ok(copy)
            },
        }
    }

    /// A copy of origin `id`.
    pub fn get_origin(&self, id: i64) -> (r: Result<Origin, AppError>)
        ensures
            !has_origin(self@, id) ==> r == Err::<Origin, AppError>(AppError::NotFound),
            has_origin(self@, id) ==> r is Ok,
            r matches Ok(o) ==> o.id == id && exists|i: int| 0 <= i < self@.origins.len() && self@.origins[i] == o@,
    {
        match self.find_origin(id) {
            None => Err(AppError::NotFound),
            Some(i) => {
                let o = self.origins[i].copy();
                assert(self@.origins[i as int] == o@);
                Ok(o)
            },
        }
    }

    /// Removes origin `id`; tells whether it was stored.
    pub fn delete_origin(&mut self, id: i64) -> (r: bool)
        requires
            old(self).wf(),
        ensures
            final(self).wf(),
            r == has_origin(old(self)@, id),
            !r ==> final(self)@ == old(self)@,
            r ==> exists|i: int| 0 <= i < old(self)@.origins.len() && old(self)@.origins[i].id == id
                && final(self)@ == (StoreView { origins: old(self)@.origins.remove(i), ..old(self)@ }),
    {
        match self.find_origin(id) {
            None => false,
            Some(i) => {
                let ghost v = self@;
                self.origins.remove(i);
                proof {
                    assert(self@.origins =~= v.origins.remove(i as int));
                    assert forall|a: int, b: int| 0 <= a < b < self@.origins.len() implies
                        (#[trigger] self@.origins[a]).id < (#[trigger] self@.origins[b]).id by {
                        let a0 = if a < i { a } else { a + 1 };
                        let b0 = if b < i { b } else { b + 1 };
                        assert(self@.origins[a] == v.origins[a0]);
                        assert(self@.origins[b] == v.origins[b0]);
                    }
                    assert forall|a: int| 0 <= a < self@.origins.len() implies
                        0 < (#[trigger] self@.origins[a]).id < self@.next_origin_id by {
                        let a0 = if a < i { a } else { a + 1 };
                        assert(self@.origins[a] == v.origins[a0]);
                    }
                    lemma_wf_origins_only(v, self@);
                }
                true
            },
        }
    }

    /// Copies of all origins, in the order they were added.
    pub fn list_origins(&self) -> (r: Vec<Origin>)
        ensures
            r@.map_values(|o: Origin| o@) == self@.origins,
    {
        let mut r: Vec<Origin> = Vec::new();
        let mut i: usize = 0;
        while i < self.origins.len()
            invariant
                i <= self.origins@.len(),
                r@.map_values(|o: Origin| o@) == self@.origins.subrange(0, i as int),
            decreases self.origins@.len() - i,
        {
            let o = self.origins[i].copy();
            assert(self@.origins[i as int] == o@);
            let ghost before = r@;
            r.push(o);
            assert(r@.map_values(|o: Origin| o@) =~= before.map_values(|o: Origin| o@).push(o@));
            i = i + 1;
            assert(r@.map_values(|o: Origin| o@) =~= self@.origins.subrange(0, i as int));
        }
        assert(self@.origins.subrange(0, i as int) =~= self@.origins);
        r
    }

    /// Whether stored request `i` is purged at `now_s`.
    fn purgeable_at(&self, i: usize, days: u32, now_s: i64) -> (r: bool)
        requires
            i < self@.requests.len(),
        ensures
            r == is_purgeable(self@.requests[i as int], days, now_s),
    {
        let row = &self.requests[i];
        row.state == RequestState::Completed && (row.created_at as i128) < (now_s as i128) - (days as i128) * 86400
    }

    /// Deletes the completed requests created more than `days` days before
    /// `now_s`, with their attempts.
    pub fn purge_completed_requests(&mut self, days: u32, now_s: i64)
        requires
            old(self).wf(),
        ensures
            final(self).wf(),
            final(self)@ == purged(old(self)@, days, now_s),
    {
        let ghost v = self@;
        let mut kept_attempts: Vec<Attempt> = Vec::new();
        let mut j: usize = 0;
        while j < self.attempts.len()
            invariant
                v == self@,
                store_wf(v),
                j <= v.attempts.len(),
                kept_attempts@.map_values(|a: Attempt| a@) == v.attempts.subrange(0, j as int).filter(|a: AttemptView| !is_purged(v, a.request_id, days, now_s)),
            decreases v.attempts.len() - j,
        {
            proof {
                let next = v.attempts.subrange(0, j + 1);
                assert(next.drop_last() =~= v.attempts.subrange(0, j as int));
                assert(next.last() == v.attempts[j as int]);
                reveal(Seq::filter);
                assert(next.filter(|a: AttemptView| !is_purged(v, a.request_id, days, now_s)) == if !is_purged(v, v.attempts[j as int].request_id, days, now_s) {
                    v.attempts.subrange(0, j as int).filter(|a: AttemptView| !is_purged(v, a.request_id, days, now_s)).push(v.attempts[j as int])
                } else {
                    v.attempts.subrange(0, j as int).filter(|a: AttemptView| !is_purged(v, a.request_id, days, now_s))
                });
            }
            let rid = self.attempts[j].request_id;
            let gone = match self.find_request(rid) {
                Some(i) => {
                    proof {
                        if is_purged(v, rid, days, now_s) {
                            let i1 = choose|i1: int| 0 <= i1 < v.requests.len() && (#[trigger] v.requests[i1]).id == rid
                                && is_purgeable(v.requests[i1], days, now_s);
                            lemma_request_ids_unique(v, i as int, i1);
                        }
                    }
                    self.purgeable_at(i, days, now_s)
                },
                None => false,
            };
            assert(gone == is_purged(v, v.attempts[j as int].request_id, days, now_s));
            if !gone {
                let a = self.attempts[j].copy();
                let ghost before = kept_attempts@;
                kept_attempts.push(a);
                assert(kept_attempts@.map_values(|a: Attempt| a@) =~= before.map_values(|a: Attempt| a@).push(v.attempts[j as int]));
            }
            j = j + 1;
        }
        let mut kept_requests: Vec<Request> = Vec::new();
        let mut i: usize = 0;
        while i < self.requests.len()
            invariant
                v == self@,
                i <= v.requests.len(),
                kept_requests@.map_values(|r: Request| r@) == v.requests.subrange(0, i as int).filter(|r: RequestView| !is_purgeable(r, days, now_s)),
            decreases v.requests.len() - i,
        {
            proof {
                let next = v.requests.subrange(0, i + 1);
                assert(next.drop_last() =~= v.requests.subrange(0, i as int));
                assert(next.last() == v.requests[i as int]);
                reveal(Seq::filter);
                assert(next.filter(|r: RequestView| !is_purgeable(r, days, now_s)) == if !is_purgeable(v.requests[i as int], days, now_s) {
                    v.requests.subrange(0, i as int).filter(|r: RequestView| !is_purgeable(r, days, now_s)).push(v.requests[i as int])
                } else {
                    v.requests.subrange(0, i as int).filter(|r: RequestView| !is_purgeable(r, days, now_s))
                });
            }
            if !self.purgeable_at(i, days, now_s) {
                let r = self.requests[i].copy();
                let ghost before = kept_requests@;
                kept_requests.push(r);
                assert(kept_requests@.map_values(|r: Request| r@) =~= before.map_values(|r: Request| r@).push(v.requests[i as int]));
            }
            i = i + 1;
        }
        assert(v.attempts.subrange(0, j as int) =~= v.attempts);
        assert(v.requests.subrange(0, i as int) =~= v.requests);
        self.attempts = kept_attempts;
        self.requests = kept_requests;
        proof {
            assert(self@.requests =~= purged(v, days, now_s).requests);
            assert(self@.attempts =~= purged(v, days, now_s).attempts);
            lemma_wf_purged(v, days, now_s);
        }
    }
}

/// Whether `v` holds `s`.
fn contains_state(v: &Vec<RequestState>, s: RequestState) -> (r: bool)
    ensures
        r == v@.contains(s),
{
    let mut i: usize = 0;
    while i < v.len()
        invariant
            i <= v@.len(),
            forall|k: int| 0 <= k < i ==> v@[k] != s,
        decreases v@.len() - i,
    {
        if v[i] == s {
            assert(v@[i as int] == s);
            return true;
        }
        i = i + 1;
    }
    false
}

/// Whether `v` holds `x`.
fn contains_id(v: &Vec<i64>, x: i64) -> (r: bool)
    ensures
        r == v@.contains(x),
{
    let mut i: usize = 0;
    while i < v.len()
        invariant
            i <= v@.len(),
            forall|k: int| 0 <= k < i ==> v@[k] != x,
        decreases v@.len() - i,
    {
        if v[i] == x {
            assert(v@[i as int] == x);
            return true;
        }
        i = i + 1;
    }
    false
}

impl Store {
    /// One page `[range.start, range.end]` of the requests that pass the
    /// filters, ordered by the column that `field` names in the given
    /// direction, with the number of all that pass. A field that names no
    /// sortable column is refused.
    pub fn list_requests(
        &self,
        range: Range,
        field: &str,
        order: Order,
        states: Option<Vec<RequestState>>,
        ids: Option<Vec<i64>>,
    ) -> (r: Result<GetListResponse<Request>, AppError>)
        requires
            range.start <= range.end,
        ensures
            request_column_of(field@) is None ==> r == Err::<GetListResponse<Request>, AppError>(AppError::InvalidSort),
            request_column_of(field@) matches Some(c) ==> (r matches Ok(resp) && {
                let rows = self@.requests;
                let keys = Seq::new(rows.len(), |i: int| request_key(rows[i], c));
                let cand = Seq::new(rows.len(), |i: int| request_matches(rows[i], opt_seq(states), opt_seq(ids)));
                &&& resp.total as int == clamped_total(rows.filter(|q: RequestView| request_matches(q, opt_seq(states), opt_seq(ids))).len())
                &&& exists|sel: Seq<int>| #[trigger] is_first_in_order(keys, cand, order, range.end + 1, sel)
                    && resp.items@.len() == page_len(sel.len() as int, range.start as int)
                    && forall|k: int| 0 <= k < resp.items@.len() ==> (#[trigger] resp.items@[k])@ == rows[sel[range.start + k]]
            }),
    {
        let c = match request_column(field) {
            Some(c) => c,
            None => return Err(AppError::InvalidSort),
        };
        let ghost rows = self@.requests;
        let ghost sv = opt_seq(states);
        let ghost iv = opt_seq(ids);
        let ghost pred = |q: RequestView| request_matches(q, opt_seq(states), opt_seq(ids));
        let mut keys: Vec<i128> = Vec::new();
        let mut cand: Vec<bool> = Vec::new();
        let mut matching: u64 = 0;
        let mut i: usize = 0;
        while i < self.requests.len()
            invariant
                rows == self@.requests,
                sv == opt_seq(states),
                iv == opt_seq(ids),
                pred == (|q: RequestView| request_matches(q, opt_seq(states), opt_seq(ids))),
                i <= rows.len(),
                keys@.len() == i,
                cand@.len() == i,
                forall|j: int| 0 <= j < i ==> (#[trigger] keys@[j]) as int == request_key(rows[j], c),
                forall|j: int| 0 <= j < i ==> (#[trigger] cand@[j]) == request_matches(rows[j], sv, iv),
                matching as int == rows.subrange(0, i as int).filter(pred).len(),
                matching <= i,
            decreases rows.len() - i,
        {
            proof {
                let next = rows.subrange(0, i + 1);
                assert(next.drop_last() =~= rows.subrange(0, i as int));
                assert(next.last() == rows[i as int]);
                reveal(Seq::filter);
            }
            let row = &self.requests[i];
            let key: i128 = match c {
                RequestColumn::Id => row.id as i128,
                RequestColumn::State => row.state.code() as i128,
                RequestColumn::CreatedAt => row.created_at as i128,
                RequestColumn::RetryMsAt => optional_key_of(row.retry_ms_at),
                RequestColumn::FromRequestId => optional_key_of(row.from_request_id),
            };
            let state_ok = match &states {
                Some(v) => contains_state(v, row.state),
                None => true,
            };
            let id_ok = match &ids {
                Some(v) => contains_id(v, row.id),
                None => true,
            };
            assert((state_ok && id_ok) == request_matches(rows[i as int], sv, iv));
            keys.push(key);
            cand.push(state_ok && id_ok);
            if state_ok && id_ok {
                matching = matching + 1;
            }
            i = i + 1;
        }
        assert(rows.subrange(0, i as int) =~= rows);
        let ghost ks = Seq::new(rows.len(), |j: int| request_key(rows[j], c));
        let ghost cs = Seq::new(rows.len(), |j: int| request_matches(rows[j], opt_seq(states), opt_seq(ids)));
        assert(int_keys(keys@) =~= ks);
        assert(cand@ =~= cs);
        let sel = select_in_order(&keys, &cand, order, range.end);
        let ghost selv = int_positions(sel@);
        let mut items: Vec<Request> = Vec::new();
        let start = range.start as usize;
        let mut k = start;
        while k < sel.len()
            invariant
                rows == self@.requests,
                selv == int_positions(sel@),
                forall|j: int| 0 <= j < sel@.len() ==> 0 <= #[trigger] selv[j] < rows.len(),
                start == range.start as usize,
                start <= k,
                k <= sel@.len() || k == start,
                items@.len() == k - start,
                forall|j: int| 0 <= j < items@.len() ==> (#[trigger] items@[j])@ == rows[selv[start + j]],
            decreases sel@.len() - k,
        {
            assert(selv[k as int] == sel@[k as int] as int);
            let copy = self.requests[sel[k]].copy();
            items.push(copy);
            k = k + 1;
        }
        let total: i64 = if matching > i64::MAX as u64 { i64::MAX } else { matching as i64 };
        proof {
            assert(is_first_in_order(ks, cs, order, range.end + 1, selv));
            assert(items@.len() == page_len(selv.len() as int, range.start as int));
        }
        Ok(GetListResponse { total, items })
    }

    /// One page `[range.start, range.end]` of the attempts of request
    /// `request_id`, or of all attempts, ordered by the column that `field`
    /// names in the given direction, with the number of all that match. A
    /// field that names no sortable column is refused.
    pub fn list_attempts(
        &self,
        range: Range,
        field: &str,
        order: Order,
        request_id: Option<i64>,
    ) -> (r: Result<GetListResponse<Attempt>, AppError>)
        requires
            range.start <= range.end,
        ensures
            attempt_column_of(field@) is None ==> r == Err::<GetListResponse<Attempt>, AppError>(AppError::InvalidSort),
            attempt_column_of(field@) matches Some(c) ==> (r matches Ok(resp) && {
                let rows = self@.attempts;
                let keys = Seq::new(rows.len(), |i: int| attempt_key(rows[i], c));
                let cand = Seq::new(rows.len(), |i: int| attempt_matches(rows[i], request_id));
                &&& resp.total as int == clamped_total(rows.filter(|a: AttemptView| attempt_matches(a, request_id)).len())
                &&& exists|sel: Seq<int>| #[trigger] is_first_in_order(keys, cand, order, range.end + 1, sel)
                    && resp.items@.len() == page_len(sel.len() as int, range.start as int)
                    && forall|k: int| 0 <= k < resp.items@.len() ==> (#[trigger] resp.items@[k])@ == rows[sel[range.start + k]]
            }),
    {
        let c = match attempt_column(field) {
            Some(c) => c,
            None => return Err(AppError::InvalidSort),
        };
        let ghost rows = self@.attempts;
        let ghost pred = |a: AttemptView| attempt_matches(a, request_id);
        let mut keys: Vec<i128> = Vec::new();
        let mut cand: Vec<bool> = Vec::new();
        let mut matching: u64 = 0;
        let mut i: usize = 0;
        while i < self.attempts.len()
            invariant
                rows == self@.attempts,
                pred == (|a: AttemptView| attempt_matches(a, request_id)),
                i <= rows.len(),
                keys@.len() == i,
                cand@.len() == i,
                forall|j: int| 0 <= j < i ==> (#[trigger] keys@[j]) as int == attempt_key(rows[j], c),
                forall|j: int| 0 <= j < i ==> (#[trigger] cand@[j]) == attempt_matches(rows[j], request_id),
                matching as int == rows.subrange(0, i as int).filter(pred).len(),
                matching <= i,
            decreases rows.len() - i,
        {
            proof {
                let next = rows.subrange(0, i + 1);
                assert(next.drop_last() =~= rows.subrange(0, i as int));
                assert(next.last() == rows[i as int]);
                reveal(Seq::filter);
            }
            let row = &self.attempts[i];
            let key: i128 = match c {
                AttemptColumn::Id => row.id as i128,
                AttemptColumn::RequestId => row.request_id as i128,
                AttemptColumn::ResponseStatus => row.response_status as i128,
                AttemptColumn::CreatedAt => row.created_at as i128,
            };
            let ok = match request_id {
                Some(id) => row.request_id == id,
                None => true,
            };
            keys.push(key);
            cand.push(ok);
            if ok {
                matching = matching + 1;
            }
            i = i + 1;
        }
        assert(rows.subrange(0, i as int) =~= rows);
        let ghost ks = Seq::new(rows.len(), |j: int| attempt_key(rows[j], c));
        let ghost cs = Seq::new(rows.len(), |j: int| attempt_matches(rows[j], request_id));
        assert(int_keys(keys@) =~= ks);
        assert(cand@ =~= cs);
        let sel = select_in_order(&keys, &cand, order, range.end);
        let ghost selv = int_positions(sel@);
        let mut items: Vec<Attempt> = Vec::new();
        let start = range.start as usize;
        let mut k = start;
        while k < sel.len()
            invariant
                rows == self@.attempts,
                selv == int_positions(sel@),
                forall|j: int| 0 <= j < sel@.len() ==> 0 <= #[trigger] selv[j] < rows.len(),
                start == range.start as usize,
                start <= k,
                k <= sel@.len() || k == start,
                items@.len() == k - start,
                forall|j: int| 0 <= j < items@.len() ==> (#[trigger] items@[j])@ == rows[selv[start + j]],
            decreases sel@.len() - k,
        {
            assert(selv[k as int] == sel@[k as int] as int);
            let copy = self.attempts[sel[k]].copy();
            items.push(copy);
            k = k + 1;
        }
        let total: i64 = if matching > i64::MAX as u64 { i64::MAX } else { matching as i64 };
        proof {
            assert(is_first_in_order(ks, cs, order, range.end + 1, selv));
            assert(items@.len() == page_len(selv.len() as int, range.start as int));
        }
        Ok(GetListResponse { total, items })
    }

    /// One page `[range.start, range.end]` of the origins, ordered by the
    /// column that `field` names in the given direction, with the number of
    /// all origins. A field that names no sortable column is refused.
    pub fn list_origins_page(&self, range: Range, field: &str, order: Order) -> (r: Result<GetListResponse<Origin>, AppError>)
        requires
            range.start <= range.end,
        ensures
            origin_column_of(field@) is None ==> r == Err::<GetListResponse<Origin>, AppError>(AppError::InvalidSort),
            origin_column_of(field@) matches Some(c) ==> (r matches Ok(resp) && {
                let rows = self@.origins;
                let keys = Seq::new(rows.len(), |i: int| origin_key(rows[i], c));
                let cand = Seq::new(rows.len(), |i: int| true);
                &&& resp.total as int == clamped_total(rows.len())
                &&& exists|sel: Seq<int>| #[trigger] is_first_in_order(keys, cand, order, range.end + 1, sel)
                    && resp.items@.len() == page_len(sel.len() as int, range.start as int)
                    && forall|k: int| 0 <= k < resp.items@.len() ==> (#[trigger] resp.items@[k])@ == rows[sel[range.start + k]]
            }),
    {
        let c = match origin_column(field) {
            Some(c) => c,
            None => return Err(AppError::InvalidSort),
        };
        let ghost rows = self@.origins;
        let mut keys: Vec<i128> = Vec::new();
        let mut cand: Vec<bool> = Vec::new();
        let mut i: usize = 0;
        while i < self.origins.len()
            invariant
                rows == self@.origins,
                i <= rows.len(),
                keys@.len() == i,
                cand@.len() == i,
                forall|j: int| 0 <= j < i ==> (#[trigger] keys@[j]) as int == origin_key(rows[j], c),
                forall|j: int| 0 <= j < i ==> (#[trigger] cand@[j]),
            decreases rows.len() - i,
        {
            let row = &self.origins[i];
            let key: i128 = match c {
                OriginColumn::Id => row.id as i128,
                OriginColumn::Timeout => row.timeout as i128,
                OriginColumn::CreatedAt => row.created_at as i128,
                OriginColumn::UpdatedAt => row.updated_at as i128,
            };
            keys.push(key);
            cand.push(true);
            i = i + 1;
        }
        let ghost ks = Seq::new(rows.len(), |j: int| origin_key(rows[j], c));
        let ghost cs = Seq::new(rows.len(), |j: int| true);
        assert(int_keys(keys@) =~= ks);
        assert(cand@ =~= cs);
        let sel = select_in_order(&keys, &cand, order, range.end);
        let ghost selv = int_positions(sel@);
        let mut items: Vec<Origin> = Vec::new();
        let start = range.start as usize;
        let mut k = start;
        while k < sel.len()
            invariant
                rows == self@.origins,
                selv == int_positions(sel@),
                forall|j: int| 0 <= j < sel@.len() ==> 0 <= #[trigger] selv[j] < rows.len(),
                start == range.start as usize,
                start <= k,
                k <= sel@.len() || k == start,
                items@.len() == k - start,
                forall|j: int| 0 <= j < items@.len() ==> (#[trigger] items@[j])@ == rows[selv[start + j]],
            decreases sel@.len() - k,
        {
            assert(selv[k as int] == sel@[k as int] as int);
            let copy = self.origins[sel[k]].copy();
            items.push(copy);
            k = k + 1;
        }
        let n = self.origins.len();
        let total: i64 = if n as u64 > i64::MAX as u64 { i64::MAX } else { n as i64 };
        proof {
            assert(is_first_in_order(ks, cs, order, range.end + 1, selv));
            assert(items@.len() == page_len(selv.len() as int, range.start as int));
        }
        Ok(GetListResponse { total, items })
    }
}

} // verus!
