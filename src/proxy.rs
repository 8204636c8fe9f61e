use vstd::prelude::*;
use vstd::string::{StrSliceExecFns, StringExecFns};

use crate::cache::OriginCache;
use crate::db::{
    attempt_count, has_request, inserted, lemma_settled_request_keeps_state, store_wf, stored_state, keeps_requests, lemma_keeps_persisted, lemma_keeps_requests_trans,
    lemma_updates_keep_requests, persisted, rescheduled, with_attempt, with_schedule, with_state, Store, StoreView,
};
use crate::error::AppError;
use crate::origin::{resolved, Origin, ResolvedView};
use crate::record::{AttemptView, HttpRequest, HttpRequestView, OriginView, QueuedRequest, QueuedRequestView};
use crate::retry::JITTER_SPAN_MS;
use crate::state::RequestState;
use crate::uri::{check_authority, is_valid_authority, parse_uri, uri_parts_of, UriParts, UriPartsView};

verus! {

/// The header name `host`, in any ASCII case.
pub open spec fn is_host_name(n: Seq<char>) -> bool {
    &&& n.len() == 4
    &&& (n[0] == 'h' || n[0] == 'H')
    &&& (n[1] == 'o' || n[1] == 'O')
    &&& (n[2] == 's' || n[2] == 'S')
    &&& (n[3] == 't' || n[3] == 'T')
}

/// The value of the first `host` header.
pub open spec fn first_host(h: Seq<(Seq<char>, Seq<char>)>) -> Option<Seq<char>>
    decreases h.len(),
{
    if h.len() == 0 {
        None
    } else if is_host_name(h[0].0) {
        Some(h[0].1)
    } else {
        first_host(h.drop_first())
    }
}

fn is_host_header(name: &str) -> (r: bool)
    ensures
        r == is_host_name(name@),
{
    if name.unicode_len() != 4 {
        return false;
    }
    let (a, b, c, d) = (name.get_char(0), name.get_char(1), name.get_char(2), name.get_char(3));
    (a == 'h' || a == 'H') && (b == 'o' || b == 'O') && (c == 's' || c == 'S') && (d == 't' || d == 'T')
}

/// The value of the first header named `host`, in any ASCII case.
pub fn first_host_header(headers: &Vec<(String, String)>) -> (r: Option<String>)
    ensures
        crate::record::text_view(r) == first_host(crate::record::headers_view(headers@)),
{
    let ghost hv = crate::record::headers_view(headers@);
    let mut i: usize = 0;
    assert(hv.subrange(0, hv.len() as int) =~= hv);
    while i < headers.len()
        invariant
            i <= headers@.len(),
            hv == crate::record::headers_view(headers@),
            first_host(hv) == first_host(hv.subrange(i as int, hv.len() as int)),
        decreases headers@.len() - i,
    {
        let ghost rest = hv.subrange(i as int, hv.len() as int);
        assert(rest[0] == hv[i as int]);
        if is_host_header(headers[i].0.as_str()) {
            return Some(headers[i].1.clone());
        }
        assert(rest.drop_first() =~= hv.subrange(i + 1, hv.len() as int));
        i = i + 1;
    }
    None
}

/// The authority that a request targets: the one of its URI, else that of its
/// first `host` header.
pub open spec fn target_authority(q: QueuedRequestView) -> Option<Seq<char>> {
    match uri_parts_of(q.uri) {
        None => None,
        Some(p) => if p.authority is Some {
            p.authority
        } else {
            match first_host(q.headers) {
                Some(h) => if is_valid_authority(h) {
                    Some(h)
                } else {
                    None
                },
                None => None,
            }
        },
    }
}

/// The upstream address for a request with parts `req` sent to an origin
/// whose address has parts `origin`: the origin's scheme and authority, then
/// the request's path and query.
pub open spec fn upstream_spec(origin: Option<UriPartsView>, req: UriPartsView) -> Option<Seq<char>> {
    match origin {
        Some(o) => if o.scheme is Some && o.authority is Some && req.path_and_query is Some {
            Some(o.scheme.unwrap() + "://"@ + o.authority.unwrap() + req.path_and_query.unwrap())
        } else {
            None
        },
        None => None,
    }
}

/// The upstream address for a request with parts `req`, given the parts of the
/// origin's address (`None` where it is no URI).
pub fn upstream_address(origin: Option<UriParts>, req: &UriParts) -> (r: Result<String, AppError>)
    ensures
        match upstream_spec(
            match origin {
                Some(o) => Some(o@),
                None => None,
            },
            req@,
        ) {
            Some(u) => r matches Ok(s) && s@ == u,
            None => r == Err::<String, AppError>(AppError::InvalidTarget),
        },
{
    let o = match origin {
        Some(o) => o,
        None => return Err(AppError::InvalidTarget),
    };
    match (o.scheme, o.authority, &req.path_and_query) {
        (Some(scheme), Some(authority), Some(pq)) => {
            let mut u = scheme;
            u.append("://");
            u.append(authority.as_str());
            u.append(pq.as_str());
            Ok(u)
        },
        _ => Err(AppError::InvalidTarget),
    }
}

/// What resolving request `q` against the cache view `cache` gives: an error
/// where its target cannot be read or the origin's address cannot be joined
/// with it, no origin on a miss, else the origin with its upstream address.
pub open spec fn resolution(cache: Map<Seq<char>, OriginView>, q: QueuedRequestView) -> Result<Option<ResolvedView>, AppError> {
    match target_authority(q) {
        None => Err(AppError::InvalidTarget),
        Some(a) => if !cache.contains_key(a) {
            Ok(None)
        } else {
            match upstream_spec(uri_parts_of(cache[a].origin_uri), uri_parts_of(q.uri).unwrap()) {
                Some(u) => Ok(Some(resolved(cache[a], u))),
                None => Err(AppError::InvalidTarget),
            }
        },
    }
}

/// The outcome of resolving request `req`, stored in state `stored` (`None`
/// where it is not stored): a request stored as completed or skipped is
/// settled and is not resolved; any other is resolved through the cache.
pub fn resolve_step(stored: Option<RequestState>, origin_cache: &OriginCache, req: &QueuedRequest) -> (r: Outcome)
    ensures
        (stored matches Some(s) && s.spec_is_terminal()) ==> r is Settled,
        !(stored matches Some(s) && s.spec_is_terminal()) ==> match resolution(origin_cache@, req@) {
            Ok(Some(v)) => r matches Outcome::Resolved(Some(o)) && o@ == v,
            Ok(None) => r matches Outcome::Resolved(None),
            Err(e) => r matches Outcome::ResolveFailed(x) && x == e,
        },
{
    if let Some(s) = stored {
        if s.is_terminal() {
            return Outcome::Settled;
        }
    }
    match map_origin(origin_cache, req) {
        Ok(found) => Outcome::Resolved(found),
        Err(e) => Outcome::ResolveFailed(e),
    }
}

/// Resolves the origin of request `req` through the cache.
pub fn map_origin(origin_cache: &OriginCache, req: &QueuedRequest) -> (r: Result<Option<Origin>, AppError>)
    ensures
        match resolution(origin_cache@, req@) {
            Ok(Some(v)) => r matches Ok(Some(o)) && o@ == v,
            Ok(None) => r matches Ok(None),
            Err(e) => r == Err::<Option<Origin>, AppError>(e),
        },
{
    let parts = match parse_uri(req.uri.as_str()) {
        Some(p) => p,
        None => return Err(AppError::InvalidTarget),
    };
    let authority = match &parts.authority {
        Some(a) => a.clone(),
        None => match first_host_header(&req.headers) {
            Some(h) => {
                if !check_authority(h.as_str()) {
                    return Err(AppError::InvalidTarget);
                }
                h
            },
            None => return Err(AppError::InvalidTarget),
        },
    };
    let matched = match origin_cache.get(authority.as_str()) {
        Some(o) => o,
        None => return Ok(None),
    };
    let origin_parts = parse_uri(matched.origin_uri.as_str());
    let uri = upstream_address(origin_parts, &parts)?;
    Ok(Some(Origin {
        uri,
        timeout: matched.timeout,
        alert_threshold: matched.alert_threshold,
        alert_email: matched.alert_email,
        smtp_host: matched.smtp_host,
        smtp_port: matched.smtp_port,
        smtp_username: matched.smtp_username,
        smtp_password: matched.smtp_password,
        smtp_tls: matched.smtp_tls,
    }))
}

/// The status that stands for an upstream that did not answer in time.
pub const TIMEOUT_STATUS: u16 = 504;

/// A status in `[200, 300)`.
pub open spec fn is_success_status(status: u16) -> bool {
    200 <= status < 300
}

/// The body recorded for an upstream that did not answer in time: `Timeout`.
pub fn timeout_body() -> (r: Vec<u8>)
    ensures
        r@ == seq![84u8, 105u8, 109u8, 101u8, 111u8, 117u8, 116u8],
{
    vec![84u8, 105u8, 109u8, 101u8, 111u8, 117u8, 116u8]
}

/// Where a request stands in a drive, with what the next step needs.
#[derive(Debug)]
pub enum State {
    /// Captured by ingest, not yet persisted.
    Received(HttpRequest),
    /// Persisted, ready to progress.
    Created(QueuedRequest),
    /// Waiting its turn; about to be marked so in the store.
    Enqueued(QueuedRequest),
    /// About to have its origin resolved.
    UnmappedOrigin(QueuedRequest),
    /// About to be sent to its origin.
    Active(QueuedRequest, Origin),
    /// Delivered; about to be marked so.
    Completed(i64),
    /// The origin answered with an error status; about to be rescheduled.
    Failed(i64, Origin),
    /// No answer was observed; about to be rescheduled.
    Panic(i64, Origin),
    /// The origin did not answer in time; about to be rescheduled.
    Timeout(i64, Origin),
    /// No origin matched; about to be marked so.
    Skipped(i64),
}

/// When a rescheduled request raises an alert.
#[derive(Clone, Copy, Debug, PartialEq, Eq, Structural)]
pub enum AlertRule {
    Never,
    /// Once the request has had at least this many attempts.
    Reached(u16),
    Always,
}

/// The work that the driver does for one step.
#[derive(Clone, Copy, Debug, PartialEq, Eq, Structural)]
pub enum Effect {
    /// Persist the captured request.
    InsertRequest,
    /// Nothing.
    Advance,
    /// Set the stored state of a request.
    SetState(i64, RequestState),
    /// Resolve the origin through the cache (`map_origin`).
    ResolveOrigin,
    /// Send the request upstream and record the attempt.
    Deliver,
    /// Schedule the request for another try, then alert as the rule says.
    Reschedule(i64, RequestState, AlertRule),
}

/// What came of a step's work.
#[derive(Debug)]
pub enum Outcome {
    /// The request was persisted.
    Inserted(QueuedRequest),
    /// The work was done.
    Done,
    /// The store failed.
    StoreFailed,
    /// The origin was resolved; `None` on a miss.
    Resolved(Option<Origin>),
    /// The request's target could not be resolved.
    ResolveFailed(AppError),
    /// The request is stored as completed or skipped: there is nothing left
    /// to do.
    Settled,
    /// The origin answered with this status, and the attempt was recorded.
    Delivered(u16),
    /// No answer was observed.
    NotDelivered,
}

/// The rule for alerting about a request rescheduled from `state` at `origin`.
pub open spec fn alert_rule(state: RequestState, origin: Origin) -> AlertRule {
    if state == RequestState::Panic {
        AlertRule::Always
    } else {
        match origin.alert_threshold {
            Some(t) => AlertRule::Reached(t),
            None => AlertRule::Never,
        }
    }
}

/// The work for each state.
pub open spec fn effect_spec(state: State) -> Effect {
    match state {
        State::Received(_) => Effect::InsertRequest,
        State::Created(_) => Effect::Advance,
        State::Enqueued(q) => Effect::SetState(q.id, RequestState::Enqueued),
        State::UnmappedOrigin(_) => Effect::ResolveOrigin,
        State::Active(_, _) => Effect::Deliver,
        State::Completed(id) => Effect::SetState(id, RequestState::Completed),
        State::Failed(id, o) => Effect::Reschedule(id, RequestState::Failed, alert_rule(RequestState::Failed, o)),
        State::Panic(id, o) => Effect::Reschedule(id, RequestState::Panic, alert_rule(RequestState::Panic, o)),
        State::Timeout(id, o) => Effect::Reschedule(id, RequestState::Timeout, alert_rule(RequestState::Timeout, o)),
        State::Skipped(id) => Effect::SetState(id, RequestState::Skipped),
    }
}

/// The work that the driver does for `state`.
pub fn effect_of(state: &State) -> (r: Effect)
    ensures
        r == effect_spec(*state),
{
    match state {
        State::Received(_) => Effect::InsertRequest,
        State::Created(_) => Effect::Advance,
        State::Enqueued(q) => Effect::SetState(q.id, RequestState::Enqueued),
        State::UnmappedOrigin(_) => Effect::ResolveOrigin,
        State::Active(_, _) => Effect::Deliver,
        State::Completed(id) => Effect::SetState(*id, RequestState::Completed),
        State::Failed(id, o) => Effect::Reschedule(*id, RequestState::Failed, rule_for(RequestState::Failed, o)),
        State::Panic(id, o) => Effect::Reschedule(*id, RequestState::Panic, rule_for(RequestState::Panic, o)),
        State::Timeout(id, o) => Effect::Reschedule(*id, RequestState::Timeout, rule_for(RequestState::Timeout, o)),
        State::Skipped(id) => Effect::SetState(*id, RequestState::Skipped),
    }
}

fn rule_for(state: RequestState, origin: &Origin) -> (r: AlertRule)
    ensures
        r == alert_rule(state, *origin),
{
    if state == RequestState::Panic {
        AlertRule::Always
    } else {
        match origin.alert_threshold {
            Some(t) => AlertRule::Reached(t),
            None => AlertRule::Never,
        }
    }
}

/// Whether to alert under `rule`, given whether the attempt threshold was
/// reached (`None` where that could not be read: alert to be safe).
pub fn alert_due(rule: AlertRule, reached: Option<bool>) -> (r: bool)
    ensures
        r == match rule {
            AlertRule::Never => false,
            AlertRule::Always => true,
            AlertRule::Reached(_) => reached != Some(false),
        },
{
    match rule {
        AlertRule::Never => false,
        AlertRule::Always => true,
        AlertRule::Reached(_) => !matches!(reached, Some(false)),
    }
}

/// The state after a step from `state` whose work had `outcome`: `None` once
/// the drive is over, an error where it is abandoned.
pub open spec fn next_spec(state: State, outcome: Outcome) -> Result<Option<State>, AppError> {
    match (state, outcome) {
        (State::Received(_), Outcome::Inserted(q)) => Ok(Some(State::Created(q))),
        (State::Received(_), Outcome::StoreFailed) => Err(AppError::Storage),
        (State::Created(q), Outcome::Done) => Ok(Some(State::Enqueued(q))),
        (State::Enqueued(q), Outcome::Done) => Ok(Some(State::UnmappedOrigin(q))),
        (State::Enqueued(_), Outcome::StoreFailed) => Err(AppError::Storage),
        (State::UnmappedOrigin(q), Outcome::Resolved(Some(o))) => Ok(Some(State::Active(q, o))),
        (State::UnmappedOrigin(q), Outcome::Resolved(None)) => Ok(Some(State::Skipped(q.id))),
        (State::UnmappedOrigin(_), Outcome::ResolveFailed(e)) => Err(e),
        (State::UnmappedOrigin(_), Outcome::Settled) => Ok(None),
        (State::UnmappedOrigin(_), Outcome::StoreFailed) => Err(AppError::Storage),
        (State::Active(q, o), Outcome::Delivered(status)) => if is_success_status(status) {
            Ok(Some(State::Completed(q.id)))
        } else if status == TIMEOUT_STATUS {
            Ok(Some(State::Timeout(q.id, o)))
        } else {
            Ok(Some(State::Failed(q.id, o)))
        },
        (State::Active(q, o), Outcome::NotDelivered) => Ok(Some(State::Panic(q.id, o))),
        (State::Active(_, _), Outcome::StoreFailed) => Err(AppError::Storage),
        (State::Completed(_), Outcome::Done) => Ok(None),
        (State::Completed(_), Outcome::StoreFailed) => Ok(None),
        (State::Failed(_, _), Outcome::Done) => Ok(None),
        (State::Panic(_, _), Outcome::Done) => Ok(None),
        (State::Timeout(_, _), Outcome::Done) => Ok(None),
        (State::Skipped(_), Outcome::Done) => Ok(None),
        (State::Skipped(_), Outcome::StoreFailed) => Ok(None),
        _ => Err(AppError::UnexpectedOutcome),
    }
}

/// The next state of a drive, from the current one and the outcome of its work.
pub fn next(state: State, outcome: Outcome) -> (r: Result<Option<State>, AppError>)
    ensures
        r == next_spec(state, outcome),
{
    match (state, outcome) {
        (State::Received(_), Outcome::Inserted(q)) => Ok(Some(State::Created(q))),
        (State::Received(_), Outcome::StoreFailed) => Err(AppError::Storage),
        (State::Created(q), Outcome::Done) => Ok(Some(State::Enqueued(q))),
        (State::Enqueued(q), Outcome::Done) => Ok(Some(State::UnmappedOrigin(q))),
        (State::Enqueued(_), Outcome::StoreFailed) => Err(AppError::Storage),
        (State::UnmappedOrigin(q), Outcome::Resolved(Some(o))) => Ok(Some(State::Active(q, o))),
        (State::UnmappedOrigin(q), Outcome::Resolved(None)) => Ok(Some(State::Skipped(q.id))),
        (State::UnmappedOrigin(_), Outcome::ResolveFailed(e)) => Err(e),
        (State::UnmappedOrigin(_), Outcome::Settled) => Ok(None),
        (State::UnmappedOrigin(_), Outcome::StoreFailed) => Err(AppError::Storage),
        (State::Active(q, o), Outcome::Delivered(status)) => {
            if 200 <= status && status < 300 {
                Ok(Some(State::Completed(q.id)))
            } else if status == TIMEOUT_STATUS {
                Ok(Some(State::Timeout(q.id, o)))
            } else {
                Ok(Some(State::Failed(q.id, o)))
            }
        },
        (State::Active(q, o), Outcome::NotDelivered) => Ok(Some(State::Panic(q.id, o))),
        (State::Active(_, _), Outcome::StoreFailed) => Err(AppError::Storage),
        (State::Completed(_), Outcome::Done) => Ok(None),
        (State::Completed(_), Outcome::StoreFailed) => Ok(None),
        (State::Failed(_, _), Outcome::Done) => Ok(None),
        (State::Panic(_, _), Outcome::Done) => Ok(None),
        (State::Timeout(_, _), Outcome::Done) => Ok(None),
        (State::Skipped(_), Outcome::Done) => Ok(None),
        (State::Skipped(_), Outcome::StoreFailed) => Ok(None),
        _ => Err(AppError::UnexpectedOutcome),
    }
}

/// The request that a state concerns, once it has an id.
pub open spec fn request_id_of(s: State) -> Option<i64> {
    match s {
        State::Received(_) => None,
        State::Created(q) => Some(q.id),
        State::Enqueued(q) => Some(q.id),
        State::UnmappedOrigin(q) => Some(q.id),
        State::Active(q, _) => Some(q.id),
        State::Completed(id) => Some(id),
        State::Failed(id, _) => Some(id),
        State::Panic(id, _) => Some(id),
        State::Timeout(id, _) => Some(id),
        State::Skipped(id) => Some(id),
    }
}

/// The edges of the delivery graph: `b` may follow `a`.
pub open spec fn may_follow(a: State, b: State) -> bool {
    match (a, b) {
        (State::Received(_), State::Created(_)) => true,
        (State::Created(_), State::Enqueued(_)) => true,
        (State::Enqueued(_), State::UnmappedOrigin(_)) => true,
        (State::UnmappedOrigin(_), State::Active(_, _)) => true,
        (State::UnmappedOrigin(_), State::Skipped(_)) => true,
        (State::Active(_, _), State::Completed(_)) => true,
        (State::Active(_, _), State::Failed(_, _)) => true,
        (State::Active(_, _), State::Panic(_, _)) => true,
        (State::Active(_, _), State::Timeout(_, _)) => true,
        _ => false,
    }
}

/// How far a state is from the end of a drive.
pub open spec fn rank(s: State) -> nat {
    match s {
        State::Received(_) => 5,
        State::Created(_) => 4,
        State::Enqueued(_) => 3,
        State::UnmappedOrigin(_) => 2,
        State::Active(_, _) => 1,
        _ => 0,
    }
}

/// Drive steps follow the delivery graph and keep to one request; a
/// completed or skipped request has no next state; a request becomes
/// completed only from a delivery whose status is a success.
pub proof fn lemma_steps_follow_graph(s: State, o: Outcome)
    ensures
        next_spec(s, o) matches Ok(Some(t)) ==> (may_follow(s, t) && rank(t) < rank(s)
            && (request_id_of(s) is Some ==> request_id_of(t) == request_id_of(s))),
        (s is Completed || s is Skipped) ==> !(next_spec(s, o) matches Ok(Some(_))),
        next_spec(s, o) matches Ok(Some(State::Completed(_))) ==> s is Active && (o matches Outcome::Delivered(st) && is_success_status(st)),
{
}

/// Driving a completed or skipped request sends nothing and makes no attempt:
/// its only work is to set its stored state, and the drive then ends.
pub proof fn lemma_terminal_redrive_makes_no_attempt(id: i64, o: Outcome)
    ensures
        effect_spec(State::Completed(id)) == Effect::SetState(id, RequestState::Completed),
        effect_spec(State::Skipped(id)) == Effect::SetState(id, RequestState::Skipped),
        !(next_spec(State::Completed(id), o) matches Ok(Some(_))),
        !(next_spec(State::Skipped(id), o) matches Ok(Some(_))),
{
}

/// The end of a drive's rescheduling step for request `id`, which failed in
/// state `s` at an origin with the given alert threshold: the store once the
/// request is rescheduled, and the number of alerts raised.
pub open spec fn finish_spec(v: StoreView, id: i64, s: RequestState, threshold: Option<u16>, now_ms: i64, jitter: i64) -> (StoreView, Result<u32, AppError>) {
    let w = rescheduled(v, id, s, now_ms, jitter);
    let alerts: u32 = if s == RequestState::Panic {
        1
    } else {
        match threshold {
            Some(t) => if attempt_count(w, id) >= t { 1 } else { 0 },
            None => 0,
        }
    };
    (w, Ok(alerts))
}

/// The end of a drive from the delivery of request `id` to origin `o`, whose
/// upstream answers `reply`: the answer is recorded as an attempt; a success
/// completes the request, a timeout or an error status reschedules it as
/// `Timeout` or `Failed`, and no answer reschedules it as `Panic`.
pub open spec fn deliver_spec(v: StoreView, id: i64, o: ResolvedView, reply: Reply, now_s: i64, now_ms: i64, jitter: i64) -> (StoreView, Result<u32, AppError>) {
    match reply {
        Reply::NoResponse => finish_spec(v, id, RequestState::Panic, o.alert_threshold, now_ms, jitter),
        Reply::Response(status, body) => if !has_request(v, id) || v.next_attempt_id == i64::MAX {
            (v, Err(AppError::Storage))
        } else {
            let w = with_attempt(v, id, status, body@, now_s);
            if is_success_status(status) {
                (with_state(w, id, RequestState::Completed), Ok(0))
            } else if status == TIMEOUT_STATUS {
                finish_spec(w, id, RequestState::Timeout, o.alert_threshold, now_ms, jitter)
            } else {
                finish_spec(w, id, RequestState::Failed, o.alert_threshold, now_ms, jitter)
            }
        },
    }
}

/// The end of a drive from the resolution of request `q`: over at once where
/// the request is stored as completed or skipped, abandoned where the target
/// cannot be resolved, skipped on a cache miss, else delivered.
pub open spec fn resolve_spec(v: StoreView, cache: Map<Seq<char>, OriginView>, q: QueuedRequestView, reply: Reply, now_s: i64, now_ms: i64, jitter: i64) -> (StoreView, Result<u32, AppError>) {
    if stored_state(v, q.id) matches Some(s) && s.spec_is_terminal() {
        (v, Ok(0))
    } else {
    match resolution(cache, q) {
        Err(e) => (v, Err(e)),
        Ok(None) => (with_state(v, q.id, RequestState::Skipped), Ok(0)),
        Ok(Some(o)) => deliver_spec(v, q.id, o, reply, now_s, now_ms, jitter),
    }
    }
}

/// The request that inserting `req` into `v` gives to the drive.
pub open spec fn inserted_queued(v: StoreView, req: HttpRequestView) -> QueuedRequestView {
    QueuedRequestView {
        id: v.next_request_id,
        method: req.method,
        uri: req.uri,
        headers: req.headers,
        body: req.body,
        state: RequestState::Received,
    }
}

/// How a drive from `start` ends against store `v`, cache view `cache` and an
/// upstream that answers `reply`: the store afterwards, and the number of
/// alerts raised or the error on which the drive was abandoned.
pub open spec fn drive_spec(v: StoreView, cache: Map<Seq<char>, OriginView>, start: State, reply: Reply, now_s: i64, now_ms: i64, jitter: i64) -> (StoreView, Result<u32, AppError>) {
    match start {
        State::Received(req) => if v.next_request_id == i64::MAX {
            (v, Err(AppError::Storage))
        } else {
            let w = inserted(v, req@, now_s);
            let q = inserted_queued(v, req@);
            resolve_spec(with_state(w, q.id, RequestState::Enqueued), cache, q, reply, now_s, now_ms, jitter)
        },
        State::Created(q) => resolve_spec(with_state(v, q.id, RequestState::Enqueued), cache, q@, reply, now_s, now_ms, jitter),
        State::Enqueued(q) => resolve_spec(with_state(v, q.id, RequestState::Enqueued), cache, q@, reply, now_s, now_ms, jitter),
        State::UnmappedOrigin(q) => resolve_spec(v, cache, q@, reply, now_s, now_ms, jitter),
        State::Active(q, o) => deliver_spec(v, q.id, o@, reply, now_s, now_ms, jitter),
        State::Completed(id) => (with_state(v, id, RequestState::Completed), Ok(0)),
        State::Failed(id, o) => finish_spec(v, id, RequestState::Failed, o.alert_threshold, now_ms, jitter),
        State::Panic(id, o) => finish_spec(v, id, RequestState::Panic, o.alert_threshold, now_ms, jitter),
        State::Timeout(id, o) => finish_spec(v, id, RequestState::Timeout, o.alert_threshold, now_ms, jitter),
        State::Skipped(id) => (with_state(v, id, RequestState::Skipped), Ok(0)),
    }
}

/// `start` re-drives, from before its resolution, a request that `v` stores
/// as completed or skipped.
pub open spec fn settled_redrive(start: State, v: StoreView) -> bool {
    match start {
        State::Created(q) => stored_state(v, q.id) matches Some(s) && s.spec_is_terminal(),
        State::Enqueued(q) => stored_state(v, q.id) matches Some(s) && s.spec_is_terminal(),
        State::UnmappedOrigin(q) => stored_state(v, q.id) matches Some(s) && s.spec_is_terminal(),
        _ => false,
    }
}

/// Re-driving a request stored as completed or skipped changes nothing: no
/// state is set, nothing is resolved or sent, and no attempt is recorded.
pub proof fn lemma_settled_redrive_is_noop(v: StoreView, cache: Map<Seq<char>, OriginView>, start: State, reply: Reply, now_s: i64, now_ms: i64, jitter: i64)
    requires
        store_wf(v),
        settled_redrive(start, v),
    ensures
        drive_spec(v, cache, start, reply, now_s, now_ms, jitter) == (v, Ok::<u32, AppError>(0)),
{
    match start {
        State::Created(q) => {
            if stored_state(v, q.id).unwrap() != RequestState::Enqueued {
                lemma_settled_request_keeps_state(v, q.id, RequestState::Enqueued);
            }
        },
        State::Enqueued(q) => {
            if stored_state(v, q.id).unwrap() != RequestState::Enqueued {
                lemma_settled_request_keeps_state(v, q.id, RequestState::Enqueued);
            }
        },
        _ => {},
    }
}

/// What the upstream answered to a delivery.
#[derive(Debug)]
pub enum Reply {
    /// A response with this status and body.
    Response(u16, Vec<u8>),
    /// No response was observed.
    NoResponse,
}

/// Drives a request from `initial_state` to the end of its drive against the
/// store, the cache, and an upstream that answers `reply`, at the given time
/// and with the given jitter for a retry. Gives the number of alerts raised,
/// or the error on which the drive was abandoned. A drive records at most one
/// attempt, and none when it starts from a completed or skipped request.
#[verifier::rlimit(60)]
pub fn proxy(
    store: &mut Store,
    origin_cache: &OriginCache,
    reply: Reply,
    initial_state: State,
    now_s: i64,
    now_ms: i64,
    jitter: i64,
) -> (r: Result<u32, AppError>)
    requires
        old(store).wf(),
        0 <= jitter < JITTER_SPAN_MS,
    ensures
        final(store).wf(),
        (final(store)@, r) == drive_spec(old(store)@, origin_cache@, initial_state, reply, now_s, now_ms, jitter),
        settled_redrive(initial_state, old(store)@) ==> final(store)@ == old(store)@ && r == Ok::<u32, AppError>(0),
        r matches Ok(n) ==> n <= 1,
        final(store)@.attempts == old(store)@.attempts || (reply matches Reply::Response(status, body)
            && exists|a: AttemptView|
            final(store)@.attempts == old(store)@.attempts.push(a) && a.response_status == status as i64
                && a.response_body == body@ && a.created_at == now_s),
        initial_state matches State::Completed(id) ==> r == Ok::<u32, AppError>(0)
            && final(store)@ == with_state(old(store)@, id, RequestState::Completed),
        initial_state matches State::Skipped(id) ==> r == Ok::<u32, AppError>(0)
            && final(store)@ == with_state(old(store)@, id, RequestState::Skipped),
        keeps_requests(old(store)@, final(store)@),
        initial_state matches State::Received(req) ==> (old(store)@.next_request_id < i64::MAX
            ==> persisted(final(store)@, old(store)@.next_request_id, req@)),
{
    let ghost start = store@.attempts;
    let ghost first = initial_state;
    let ghost answer = reply;
    proof {
        if settled_redrive(initial_state, store@) {
            lemma_settled_redrive_is_noop(store@, origin_cache@, initial_state, reply, now_s, now_ms, jitter);
        }
    }
    let mut state = initial_state;
    let mut pending: Option<Reply> = Some(reply);
    let mut alerts: u32 = 0;
    loop
        invariant
            store.wf(),
            0 <= jitter < JITTER_SPAN_MS,
            start == old(store)@.attempts,
            first == initial_state,
            answer == reply,
            drive_spec(store@, origin_cache@, state, answer, now_s, now_ms, jitter) == drive_spec(old(store)@, origin_cache@, first, answer, now_s, now_ms, jitter),
            pending is None ==> rank(state) == 0,
            settled_redrive(first, old(store)@) ==> drive_spec(old(store)@, origin_cache@, first, answer, now_s, now_ms, jitter) == (old(store)@, Ok::<u32, AppError>(0)),
            rank(state) >= 1 ==> store@.attempts == start,
            pending is Some ==> pending == Some(answer) && store@.attempts == start,
            store@.attempts == start || (answer matches Reply::Response(status, body)
                && exists|a: AttemptView|
                store@.attempts == start.push(a) && a.response_status == status as i64
                    && a.response_body == body@ && a.created_at == now_s),
            (first is Completed || first is Skipped) ==> store@ == old(store)@ && state == first,
            keeps_requests(old(store)@, store@),
            first matches State::Received(req0) ==> (old(store)@.next_request_id < i64::MAX ==> ((
            state == first && store@ == old(store)@) || persisted(
                store@,
                old(store)@.next_request_id,
                req0@,
            ))),
            alerts == 0,
        decreases rank(state),
    {
        let ghost before = store@;
        let outcome = match effect_of(&state) {
            Effect::InsertRequest => match &state {
                State::Received(req) => match store.insert_request(req.copy(), now_s) {
                    Ok(q) => {
                        proof {
                            let row = store@.requests[before.requests.len() as int];
                            lemma_updates_keep_requests(before, 0, RequestState::Received, 0, row);
                            assert(store@.requests =~= before.requests.push(row));
                            assert(persisted(store@, before.next_request_id, req@));
                        }
                        Outcome::Inserted(q)
                    },
                    Err(_) => Outcome::StoreFailed,
                },
                _ => Outcome::StoreFailed,
            },
            Effect::Advance => Outcome::Done,
            Effect::SetState(id, s) => {
                store.update_request_state(id, s);
                proof {
                    lemma_updates_keep_requests(before, id, s, 0, before.requests[0]);
                }
                Outcome::Done
            },
            Effect::ResolveOrigin => match &state {
                State::UnmappedOrigin(q) => resolve_step(store.request_state(q.id), origin_cache, q),
                _ => Outcome::StoreFailed,
            },
            Effect::Deliver => {
                let id = match &state {
                    State::Active(q, _) => q.id,
                    _ => 0,
                };
                match pending.take() {
                    Some(Reply::Response(status, body)) => match store.insert_attempt(id, status, body, now_s) {
                        Ok(_) => {
                            proof {
                                assert(keeps_requests(before, store@));
                            }
                            Outcome::Delivered(status)
                        },
                        Err(_) => Outcome::StoreFailed,
                    },
                    _ => Outcome::NotDelivered,
                }
            },
            Effect::Reschedule(id, s, rule) => {
                if s.is_retry_eligible() {
                    let _ = store.retry_request(id, s, now_ms, jitter);
                }
                proof {
                    lemma_updates_keep_requests(before, id, s, 0, before.requests[0]);
                    if store@ != before {
                        let at = choose|at: i64| store@ == with_schedule(before, id, s, at);
                        lemma_updates_keep_requests(before, id, s, at, before.requests[0]);
                    }
                }
                let reached = match rule {
                    AlertRule::Reached(t) => Some(store.attempts_reached_threshold(id, t)),
                    _ => None,
                };
                if alert_due(rule, reached) {
                    alerts = alerts + 1;
                }
                Outcome::Done
            },
        };
        let ghost s0 = state;
        let ghost o0 = outcome;
        proof {
            lemma_steps_follow_graph(s0, o0);
            lemma_updates_keep_requests(before, 0, RequestState::Received, 0, before.requests[0]);
            assert(keeps_requests(before, store@));
            lemma_keeps_requests_trans(old(store)@, before, store@);
            if let State::Received(req0) = first {
                if old(store)@.next_request_id < i64::MAX && persisted(before, old(store)@.next_request_id, req0@) {
                    lemma_keeps_persisted(before, store@, old(store)@.next_request_id, req0@);
                }
            }
        }
        match next(state, outcome) {
            Ok(Some(t)) => {
                state = t;
            },
            Ok(None) => {
                return Ok(alerts);
            },
            Err(e) => {
                return Err(e);
            },
        }
    }
}

} // verus!
