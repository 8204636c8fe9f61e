use soldr::cache::OriginCache;
use soldr::db::{HttpRequest, NewOrigin, QueuedRequest, RequestState, Store};
use soldr::error::AppError;
use soldr::proxy::{
    alert_due, resolve_step, effect_of, first_host_header, map_origin, next, proxy, timeout_body, AlertRule, Effect, Outcome, Reply,
    State, TIMEOUT_STATUS,
};
use soldr::uri::UriParts;

fn attempts_of(store: &Store, request_id: Option<i64>) -> Vec<soldr::db::Attempt> {
    store
        .list_attempts(soldr::mgmt::Range { start: 0, end: 1000 }, "id", soldr::mgmt::Order::Asc, request_id)
        .unwrap()
        .items
}


const DOMAIN: &str = "example.wh.soldr.dev";
const NOW_S: i64 = 1_700_000_000;
const NOW_MS: i64 = 1_700_000_000_000;

fn ingest_request(path: &str) -> HttpRequest {
    HttpRequest {
        method: "POST".to_string(),
        uri: path.to_string(),
        headers: vec![("Host".to_string(), DOMAIN.to_string())],
        body: Some(vec![]),
    }
}

fn with_origin(store: &mut Store, cache: &mut OriginCache, threshold: Option<u16>) {
    store
        .insert_origin(
            NewOrigin {
                domain: DOMAIN.to_string(),
                origin_uri: "http://127.0.0.1:4000".to_string(),
                timeout: 100,
                alert_threshold: threshold,
                ..Default::default()
            },
            NOW_S,
        )
        .unwrap();
    cache.refresh(store.list_origins());
}

fn queued(uri: &str, headers: Vec<(&str, &str)>) -> QueuedRequest {
    QueuedRequest {
        id: 1,
        method: "GET".to_string(),
        uri: uri.to_string(),
        headers: headers.into_iter().map(|(n, v)| (n.to_string(), v.to_string())).collect(),
        body: None,
        state: RequestState::Enqueued,
    }
}

#[test]
fn happy_path_completes_with_one_attempt() {
    let mut store = Store::new();
    let mut cache = OriginCache::new();
    with_origin(&mut store, &mut cache, None);
    let alerts = proxy(
        &mut store,
        &cache,
        Reply::Response(200, b"Hello, World!".to_vec()),
        State::Received(ingest_request("/")),
        NOW_S,
        NOW_MS,
        0,
    )
    .unwrap();
    assert_eq!(alerts, 0);
    let req = store.get_request(1).unwrap();
    assert_eq!(req.state, RequestState::Completed);
    let attempts = attempts_of(&store, None);
    assert_eq!(attempts.len(), 1);
    assert_eq!(attempts[0].response_status, 200);
    assert_eq!(attempts[0].response_body, b"Hello, World!".to_vec());
}

#[test]
fn origin_miss_is_skipped_without_attempt() {
    let mut store = Store::new();
    let cache = OriginCache::new();
    let r = proxy(
        &mut store,
        &cache,
        Reply::Response(200, vec![]),
        State::Received(ingest_request("/")),
        NOW_S,
        NOW_MS,
        0,
    );
    assert_eq!(r, Ok(0));
    assert_eq!(store.get_request(1).unwrap().state, RequestState::Skipped);
    assert!(attempts_of(&store, None).is_empty());
}

#[test]
fn failure_then_operator_retry_adds_second_attempt() {
    let mut store = Store::new();
    let mut cache = OriginCache::new();
    with_origin(&mut store, &mut cache, None);
    let failure = || Reply::Response(500, b"unexpected error".to_vec());
    proxy(&mut store, &cache, failure(), State::Received(ingest_request("/failure")), NOW_S, NOW_MS, 0).unwrap();
    let req = store.get_request(1).unwrap();
    assert_eq!(req.state, RequestState::Failed);
    let attempts = attempts_of(&store, None);
    assert_eq!(attempts.len(), 1);
    assert_eq!(attempts[0].response_status, 500);
    assert_eq!(attempts[0].response_body, b"unexpected error".to_vec());

    assert_eq!(store.add_request_to_queue(1, NOW_MS + 10), 1);
    let due = store.list_failed_requests(NOW_MS + 10);
    assert_eq!(due.len(), 1);
    for q in due {
        proxy(&mut store, &cache, failure(), State::Enqueued(q), NOW_S, NOW_MS + 10, 0).unwrap();
    }
    let attempts = attempts_of(&store, Some(1));
    assert_eq!(attempts.len(), 2);
    assert_eq!(attempts[1].request_id, 1);
}

#[test]
fn timeout_records_synthesized_attempt() {
    let mut store = Store::new();
    let mut cache = OriginCache::new();
    with_origin(&mut store, &mut cache, None);
    proxy(
        &mut store,
        &cache,
        Reply::Response(TIMEOUT_STATUS, timeout_body()),
        State::Received(ingest_request("/timeout")),
        NOW_S,
        NOW_MS,
        0,
    )
    .unwrap();
    assert_eq!(store.get_request(1).unwrap().state, RequestState::Timeout);
    let attempts = attempts_of(&store, None);
    assert_eq!(attempts.len(), 1);
    assert_eq!(attempts[0].response_status, 504);
    assert_eq!(attempts[0].response_body, b"Timeout".to_vec());
}

#[test]
fn backoff_bound_after_failures() {
    let mut store = Store::new();
    let mut cache = OriginCache::new();
    with_origin(&mut store, &mut cache, None);
    let failure = || Reply::Response(500, b"unexpected error".to_vec());
    proxy(&mut store, &cache, failure(), State::Received(ingest_request("/failure")), NOW_S, NOW_MS, 999).unwrap();
    let q = store.get_request(1).unwrap().to_queued();
    proxy(&mut store, &cache, failure(), State::Enqueued(q), NOW_S, NOW_MS, 999).unwrap();
    let delay = store.get_request(1).unwrap().retry_ms_at.unwrap() - NOW_MS;
    assert!(delay < 3400);
}

#[test]
fn threshold_alert_raised_once() {
    let mut store = Store::new();
    let mut cache = OriginCache::new();
    with_origin(&mut store, &mut cache, Some(1));
    let alerts = proxy(
        &mut store,
        &cache,
        Reply::Response(500, b"unexpected error".to_vec()),
        State::Received(ingest_request("/failure")),
        NOW_S,
        NOW_MS,
        0,
    )
    .unwrap();
    assert_eq!(alerts, 1);
    assert_eq!(store.get_request(1).unwrap().state, RequestState::Failed);
    assert_eq!(attempts_of(&store, None).len(), 1);
}

#[test]
fn no_response_panics_and_alerts() {
    let mut store = Store::new();
    let mut cache = OriginCache::new();
    with_origin(&mut store, &mut cache, None);
    let alerts =
        proxy(&mut store, &cache, Reply::NoResponse, State::Received(ingest_request("/")), NOW_S, NOW_MS, 0).unwrap();
    assert_eq!(alerts, 1);
    assert_eq!(store.get_request(1).unwrap().state, RequestState::Panic);
    assert!(attempts_of(&store, None).is_empty());
}

#[test]
fn redriving_completed_request_makes_no_attempt() {
    let mut store = Store::new();
    let mut cache = OriginCache::new();
    with_origin(&mut store, &mut cache, None);
    proxy(&mut store, &cache, Reply::Response(200, vec![]), State::Received(ingest_request("/")), NOW_S, NOW_MS, 0)
        .unwrap();
    proxy(&mut store, &cache, Reply::Response(200, vec![]), State::Completed(1), NOW_S, NOW_MS, 0).unwrap();
    proxy(&mut store, &cache, Reply::Response(200, vec![]), State::Skipped(1), NOW_S, NOW_MS, 0).unwrap();
    assert_eq!(attempts_of(&store, None).len(), 1);
    assert_eq!(store.get_request(1).unwrap().state, RequestState::Completed);
}

#[test]
fn map_origin_builds_upstream_address() {
    let mut store = Store::new();
    let mut cache = OriginCache::new();
    with_origin(&mut store, &mut cache, Some(3));
    let q = queued("/hooks/a?x=1", vec![("x-other", "1"), ("HOST", DOMAIN)]);
    let origin = map_origin(&cache, &q).unwrap().unwrap();
    assert_eq!(origin.uri, "http://127.0.0.1:4000/hooks/a?x=1");
    assert_eq!(origin.timeout, 100);
    assert_eq!(origin.alert_threshold, Some(3));
}

#[test]
fn map_origin_prefers_uri_authority() {
    let mut store = Store::new();
    let mut cache = OriginCache::new();
    with_origin(&mut store, &mut cache, None);
    let q = queued("http://example.wh.soldr.dev/p", vec![("host", "elsewhere.dev")]);
    assert_eq!(map_origin(&cache, &q).unwrap().unwrap().uri, "http://127.0.0.1:4000/p");
    let miss = queued("http://elsewhere.dev/p", vec![("host", DOMAIN)]);
    assert!(map_origin(&cache, &miss).unwrap().is_none());
}

#[test]
fn map_origin_errors() {
    let cache = OriginCache::new();
    assert_eq!(map_origin(&cache, &queued("/p", vec![])).unwrap_err(), AppError::InvalidTarget);
    assert_eq!(map_origin(&cache, &queued("/p", vec![("host", "bad host")])).unwrap_err(), AppError::InvalidTarget);
    assert_eq!(map_origin(&cache, &queued("not a uri", vec![("host", DOMAIN)])).unwrap_err(), AppError::InvalidTarget);
}

#[test]
fn first_host_header_ignores_case() {
    let headers = vec![
        ("accept".to_string(), "*/*".to_string()),
        ("Host".to_string(), "a.dev".to_string()),
        ("host".to_string(), "b.dev".to_string()),
    ];
    assert_eq!(first_host_header(&headers), Some("a.dev".to_string()));
    assert_eq!(first_host_header(&vec![]), None);
}

#[test]
fn upstream_address_joins_parts() {
    let origin = UriParts {
        scheme: Some("https".to_string()),
        authority: Some("www.example.com".to_string()),
        path_and_query: Some("/".to_string()),
    };
    let req = UriParts { scheme: None, authority: None, path_and_query: Some("/x?y".to_string()) };
    assert_eq!(soldr::proxy::upstream_address(Some(origin), &req).unwrap(), "https://www.example.com/x?y");
    let no_scheme = UriParts { scheme: None, authority: Some("h".to_string()), path_and_query: None };
    assert_eq!(soldr::proxy::upstream_address(Some(no_scheme), &req).unwrap_err(), AppError::InvalidTarget);
    assert_eq!(soldr::proxy::upstream_address(None, &req).unwrap_err(), AppError::InvalidTarget);
}

#[test]
fn steps_follow_transition_table() {
    let q = queued("/", vec![]);
    assert_eq!(effect_of(&State::Created(queued("/", vec![]))), Effect::Advance);
    match next(State::Created(q), Outcome::Done).unwrap().unwrap() {
        State::Enqueued(q) => assert_eq!(q.id, 1),
        other => panic!("unexpected {:?}", other),
    }
    let enq = State::Enqueued(queued("/", vec![]));
    assert_eq!(effect_of(&enq), Effect::SetState(1, RequestState::Enqueued));
    assert_eq!(next(enq, Outcome::StoreFailed).unwrap_err(), AppError::Storage);
    match next(State::UnmappedOrigin(queued("/", vec![])), Outcome::Resolved(None)).unwrap().unwrap() {
        State::Skipped(id) => assert_eq!(id, 1),
        other => panic!("unexpected {:?}", other),
    }
    assert!(next(State::Completed(1), Outcome::Done).unwrap().is_none());
    assert!(next(State::Completed(1), Outcome::StoreFailed).unwrap().is_none());
    assert!(next(State::Skipped(1), Outcome::StoreFailed).unwrap().is_none());
    assert_eq!(next(State::Completed(1), Outcome::Delivered(200)).unwrap_err(), AppError::UnexpectedOutcome);
}

#[test]
fn alert_rules() {
    assert!(!alert_due(AlertRule::Never, Some(true)));
    assert!(alert_due(AlertRule::Always, Some(false)));
    assert!(alert_due(AlertRule::Reached(1), Some(true)));
    assert!(!alert_due(AlertRule::Reached(1), Some(false)));
    assert!(alert_due(AlertRule::Reached(1), None));
}

#[test]
fn redriving_settled_request_from_enqueued_is_noop() {
    let mut store = Store::new();
    let mut cache = OriginCache::new();
    with_origin(&mut store, &mut cache, None);
    deliver_once(&mut store, &cache, 200);
    let q = store.get_request(1).unwrap().to_queued();
    let r = proxy(&mut store, &cache, Reply::Response(200, vec![]), State::Enqueued(q), NOW_S, NOW_MS, 0);
    assert_eq!(r, Ok(0));
    assert_eq!(attempts_of(&store, None).len(), 1);
    assert_eq!(store.get_request(1).unwrap().state, RequestState::Completed);

    let mut empty = OriginCache::new();
    empty.refresh(vec![]);
    proxy(&mut store, &empty, Reply::Response(200, vec![]), State::Received(ingest_request("/")), NOW_S, NOW_MS, 0)
        .unwrap();
    assert_eq!(store.get_request(2).unwrap().state, RequestState::Skipped);
    let q = store.get_request(2).unwrap().to_queued();
    let r = proxy(&mut store, &cache, Reply::Response(200, vec![]), State::Enqueued(q), NOW_S, NOW_MS, 0);
    assert_eq!(r, Ok(0));
    assert_eq!(store.get_request(2).unwrap().state, RequestState::Skipped);
    assert_eq!(attempts_of(&store, None).len(), 1);
}

fn deliver_once(store: &mut Store, cache: &OriginCache, status: u16) {
    proxy(store, cache, Reply::Response(status, vec![]), State::Received(ingest_request("/")), NOW_S, NOW_MS, 0).unwrap();
}

#[test]
fn resolve_step_settles_terminal_requests() {
    let mut store = Store::new();
    let mut cache = OriginCache::new();
    with_origin(&mut store, &mut cache, None);
    let q = queued("/", vec![("host", DOMAIN)]);
    assert!(matches!(resolve_step(Some(RequestState::Completed), &cache, &q), Outcome::Settled));
    assert!(matches!(resolve_step(Some(RequestState::Skipped), &cache, &q), Outcome::Settled));
    assert!(matches!(resolve_step(Some(RequestState::Failed), &cache, &q), Outcome::Resolved(Some(_))));
    assert!(matches!(resolve_step(None, &cache, &q), Outcome::Resolved(Some(_))));
}

#[test]
fn alerting_needs_host_port_and_address() {
    let mut origin = soldr::origin::Origin {
        uri: "http://h/".to_string(),
        timeout: 100,
        alert_threshold: Some(1),
        alert_email: Some("error@example.com".to_string()),
        smtp_host: Some("127.0.0.1".to_string()),
        smtp_port: Some(2525),
        smtp_username: None,
        smtp_password: None,
        smtp_tls: false,
    };
    assert!(origin.alerting_configured());
    origin.smtp_port = None;
    assert!(!origin.alerting_configured());
}
