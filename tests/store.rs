use soldr::db::{HttpRequest, NewOrigin, RequestState, Store, UpdateRequest};
use soldr::error::AppError;
use soldr::mgmt::{Order, Range};

fn attempts_of(store: &Store, request_id: Option<i64>) -> Vec<soldr::db::Attempt> {
    store
        .list_attempts(soldr::mgmt::Range { start: 0, end: 1000 }, "id", soldr::mgmt::Order::Asc, request_id)
        .unwrap()
        .items
}


fn sample(uri: &str) -> HttpRequest {
    HttpRequest {
        method: "POST".to_string(),
        uri: uri.to_string(),
        headers: vec![
            ("host".to_string(), "example.wh.soldr.dev".to_string()),
            ("x-a".to_string(), "1".to_string()),
        ],
        body: Some(b"payload".to_vec()),
    }
}

#[test]
fn insert_then_get_round_trips() {
    let mut store = Store::new();
    let q = store.insert_request(sample("/hook?x=1"), 100).unwrap();
    assert_eq!(q.state, RequestState::Received);
    let r = store.get_request(q.id).unwrap();
    assert_eq!(r.method, "POST");
    assert_eq!(r.uri, "/hook?x=1");
    assert_eq!(r.headers, sample("/").headers);
    assert_eq!(r.body, Some(b"payload".to_vec()));
    assert_eq!(r.state, RequestState::Received);
    assert_eq!(r.created_at, 100);
    assert_eq!(r.retry_ms_at, None);
    assert!(store.get_request(q.id + 1).is_none());
}

#[test]
fn ids_increase() {
    let mut store = Store::new();
    let a = store.insert_request(sample("/a"), 1).unwrap();
    let b = store.insert_request(sample("/b"), 1).unwrap();
    assert!(b.id > a.id);
}

#[test]
fn update_request_state_is_idempotent() {
    let mut store = Store::new();
    let q = store.insert_request(sample("/"), 1).unwrap();
    assert_eq!(store.update_request_state(q.id, RequestState::Enqueued), 1);
    assert_eq!(store.update_request_state(q.id, RequestState::Enqueued), 1);
    assert_eq!(store.get_request(q.id).unwrap().state, RequestState::Enqueued);
    assert_eq!(store.update_request_state(999, RequestState::Enqueued), 0);
}

#[test]
fn completed_needs_successful_attempt_and_never_changes() {
    let mut store = Store::new();
    let q = store.insert_request(sample("/"), 1).unwrap();
    assert_eq!(store.update_request_state(q.id, RequestState::Completed), 0);
    store.insert_attempt(q.id, 500, b"no".to_vec(), 2).unwrap();
    assert_eq!(store.update_request_state(q.id, RequestState::Completed), 0);
    store.insert_attempt(q.id, 204, vec![], 3).unwrap();
    assert_eq!(store.update_request_state(q.id, RequestState::Completed), 1);
    assert_eq!(store.update_request_state(q.id, RequestState::Skipped), 0);
    assert_eq!(store.add_request_to_queue(q.id, 10), 0);
    assert_eq!(store.get_request(q.id).unwrap().state, RequestState::Completed);
}

#[test]
fn retry_eligible_state_needs_pickup_time() {
    let mut store = Store::new();
    let q = store.insert_request(sample("/"), 1).unwrap();
    assert_eq!(store.update_request_state(q.id, RequestState::Failed), 0);
    assert_eq!(store.add_request_to_queue(q.id, 50), 1);
    assert_eq!(store.update_request_state(q.id, RequestState::Failed), 1);
    let r = store.get_request(q.id).unwrap();
    assert_eq!(r.state, RequestState::Failed);
    assert_eq!(r.retry_ms_at, Some(50));
}

#[test]
fn insert_attempt_needs_request() {
    let mut store = Store::new();
    assert_eq!(store.insert_attempt(5, 200, vec![], 1), Err(AppError::NotFound));
}

#[test]
fn backoff_after_two_failed_attempts_is_bounded() {
    let mut store = Store::new();
    let q = store.insert_request(sample("/failure"), 1).unwrap();
    store.insert_attempt(q.id, 500, b"unexpected error".to_vec(), 1).unwrap();
    store.insert_attempt(q.id, 500, b"unexpected error".to_vec(), 2).unwrap();
    let now_ms = 1_700_000_000_000;
    store.retry_request(q.id, RequestState::Failed, now_ms, 999).unwrap();
    let r = store.get_request(q.id).unwrap();
    assert_eq!(r.state, RequestState::Failed);
    let delay = r.retry_ms_at.unwrap() - now_ms;
    assert!(delay < 3400);
    assert_eq!(delay, 2310 + 999);
}

#[test]
fn twenty_attempts_leave_request_unchanged() {
    let mut store = Store::new();
    let q = store.insert_request(sample("/"), 1).unwrap();
    store.add_request_to_queue(q.id, 77);
    for i in 0..20 {
        store.insert_attempt(q.id, 500, vec![], i).unwrap();
    }
    assert_eq!(store.count_attempts(q.id), 20);
    store.retry_request(q.id, RequestState::Timeout, 1000, 0).unwrap();
    let r = store.get_request(q.id).unwrap();
    assert_eq!(r.state, RequestState::Created);
    assert_eq!(r.retry_ms_at, Some(77));
}

#[test]
fn retry_overflow_reported() {
    let mut store = Store::new();
    let q = store.insert_request(sample("/"), 1).unwrap();
    assert_eq!(store.retry_request(q.id, RequestState::Failed, i64::MAX, 0), Err(AppError::Exhausted));
}

#[test]
fn threshold_counts_attempts() {
    let mut store = Store::new();
    let q = store.insert_request(sample("/"), 1).unwrap();
    assert!(!store.attempts_reached_threshold(q.id, 1));
    store.insert_attempt(q.id, 500, vec![], 1).unwrap();
    assert!(store.attempts_reached_threshold(q.id, 1));
    assert!(!store.attempts_reached_threshold(q.id, 2));
    assert!(store.attempts_reached_threshold(q.id, 0));
}

#[test]
fn failed_requests_listed_in_pickup_order_at_most_five() {
    let mut store = Store::new();
    let mut ids = vec![];
    for i in 0..8 {
        let q = store.insert_request(sample("/"), 1).unwrap();
        ids.push(q.id);
        store.add_request_to_queue(q.id, 100 - i);
    }
    let q = store.insert_request(sample("/late"), 1).unwrap();
    store.add_request_to_queue(q.id, 10_000);
    let received = store.insert_request(sample("/new"), 1).unwrap();
    let due = store.list_failed_requests(1000);
    let got: Vec<i64> = due.iter().map(|r| r.id).collect();
    assert_eq!(got, vec![ids[7], ids[6], ids[5], ids[4], ids[3]]);
    assert!(!got.contains(&received.id));
    let few = store.list_failed_requests(94);
    let got: Vec<i64> = few.iter().map(|r| r.id).collect();
    assert_eq!(got, vec![ids[7], ids[6]]);
    assert!(store.list_failed_requests(0).is_empty());
}

#[test]
fn equal_pickup_times_keep_store_order() {
    let mut store = Store::new();
    let a = store.insert_request(sample("/a"), 1).unwrap();
    let b = store.insert_request(sample("/b"), 1).unwrap();
    store.add_request_to_queue(b.id, 5);
    store.add_request_to_queue(a.id, 5);
    let got: Vec<i64> = store.list_failed_requests(5).iter().map(|r| r.id).collect();
    assert_eq!(got, vec![a.id, b.id]);
}

#[test]
fn purge_removes_old_completed_with_attempts() {
    let mut store = Store::new();
    let day = 86_400;
    let old = store.insert_request(sample("/old"), 0).unwrap();
    store.insert_attempt(old.id, 200, vec![], 0).unwrap();
    store.update_request_state(old.id, RequestState::Completed);
    let recent = store.insert_request(sample("/recent"), 29 * day).unwrap();
    store.insert_attempt(recent.id, 200, vec![], 29 * day).unwrap();
    store.update_request_state(recent.id, RequestState::Completed);
    let failed = store.insert_request(sample("/failed"), 0).unwrap();
    store.insert_attempt(failed.id, 500, vec![], 0).unwrap();
    store.purge_completed_requests(30, 31 * day);
    assert!(store.get_request(old.id).is_none());
    assert!(store.get_request(recent.id).is_some());
    assert!(store.get_request(failed.id).is_some());
    assert!(attempts_of(&store, Some(old.id)).is_empty());
    assert_eq!(attempts_of(&store, None).len(), 2);
}

#[test]
fn fork_creates_new_due_request() {
    let mut store = Store::new();
    let q = store.insert_request(sample("/"), 1).unwrap();
    let update = UpdateRequest {
        method: "PUT".to_string(),
        uri: "/edited".to_string(),
        headers: vec![],
        body: b"new".to_vec(),
    };
    let forked = store.update_request(q.id, update, 5, 5000).unwrap();
    assert_ne!(forked.id, q.id);
    assert_eq!(forked.state, RequestState::Created);
    assert_eq!(forked.retry_ms_at, Some(5000));
    assert_eq!(forked.from_request_id, Some(q.id));
    assert_eq!(forked.body, Some(b"new".to_vec()));
    let missing = UpdateRequest { method: "GET".to_string(), uri: "/".to_string(), headers: vec![], body: vec![] };
    assert_eq!(store.update_request(12345, missing, 5, 5000).unwrap_err(), AppError::NotFound);
}

#[test]
fn attempts_listed_and_read() {
    let mut store = Store::new();
    let a = store.insert_request(sample("/a"), 1).unwrap();
    let b = store.insert_request(sample("/b"), 1).unwrap();
    let first = store.insert_attempt(a.id, 500, b"e".to_vec(), 1).unwrap();
    store.insert_attempt(b.id, 200, b"ok".to_vec(), 2).unwrap();
    store.insert_attempt(a.id, 504, b"Timeout".to_vec(), 3).unwrap();
    let of_a = attempts_of(&store, Some(a.id));
    assert_eq!(of_a.len(), 2);
    assert_eq!(of_a[0].response_status, 500);
    assert_eq!(of_a[1].response_body, b"Timeout".to_vec());
    let got = store.get_attempt(first).unwrap();
    assert_eq!(got.request_id, a.id);
    assert!(store.get_attempt(first + 100).is_none());
}

#[test]
fn origins_crud() {
    let mut store = Store::new();
    let o = store
        .insert_origin(
            NewOrigin {
                domain: "example.wh.soldr.dev".to_string(),
                origin_uri: "https://www.example.com".to_string(),
                timeout: 100,
                ..Default::default()
            },
            10,
        )
        .unwrap();
    assert_eq!(o.domain, "example.wh.soldr.dev");
    assert_eq!(o.timeout, 100);
    assert_eq!(o.created_at, 10);
    let u = store
        .update_origin(
            o.id,
            NewOrigin { domain: "other.dev".to_string(), origin_uri: "http://h".to_string(), timeout: 5, ..Default::default() },
            20,
        )
        .unwrap();
    assert_eq!(u.domain, "other.dev");
    assert_eq!(u.created_at, 10);
    assert_eq!(u.updated_at, 20);
    assert_eq!(store.get_origin(o.id).unwrap().origin_uri, "http://h");
    assert_eq!(store.list_origins().len(), 1);
    assert!(store.delete_origin(o.id));
    assert!(!store.delete_origin(o.id));
    assert_eq!(store.get_origin(o.id).unwrap_err(), AppError::NotFound);
    assert!(store.list_origins().is_empty());
}

#[test]
fn list_requests_filters_orders_and_pages() {
    let mut store = Store::new();
    let mut ids = vec![];
    for i in 0..6 {
        let q = store.insert_request(sample("/"), i).unwrap();
        ids.push(q.id);
    }
    store.add_request_to_queue(ids[1], 5);
    store.add_request_to_queue(ids[3], 5);
    let all = store.list_requests(Range { start: 0, end: 9 }, "id", Order::Asc, None, None).unwrap();
    assert_eq!(all.total, 6);
    assert_eq!(all.items.iter().map(|r| r.id).collect::<Vec<_>>(), ids);
    let desc = store.list_requests(Range { start: 1, end: 2 }, "id", Order::Desc, None, None).unwrap();
    assert_eq!(desc.total, 6);
    assert_eq!(desc.items.iter().map(|r| r.id).collect::<Vec<_>>(), vec![ids[4], ids[3]]);
    let created = store.list_requests(Range { start: 0, end: 9 }, "id", Order::Asc, Some(vec![RequestState::Created]), None).unwrap();
    assert_eq!(created.total, 2);
    assert_eq!(created.items.iter().map(|r| r.id).collect::<Vec<_>>(), vec![ids[1], ids[3]]);
    let by_id = store.list_requests(Range { start: 0, end: 9 }, "id", Order::Asc, None, Some(vec![ids[5], ids[0]])).unwrap();
    assert_eq!(by_id.items.iter().map(|r| r.id).collect::<Vec<_>>(), vec![ids[0], ids[5]]);
    let past_end = store.list_requests(Range { start: 10, end: 12 }, "id", Order::Asc, None, None).unwrap();
    assert_eq!(past_end.total, 6);
    assert!(past_end.items.is_empty());
}

#[test]
fn content_range_values() {
    assert_eq!(soldr::mgmt::content_range(0, 0), "0-0/0");
    assert_eq!(soldr::mgmt::content_range(10, 123), "0-9/123");
    assert_eq!(soldr::mgmt::content_range(1, 1), "0-0/1");
    assert_eq!(soldr::mgmt::content_range(51, -7), "0-50/-7");
}

#[test]
fn list_requests_by_column() {
    let mut store = Store::new();
    let a = store.insert_request(sample("/a"), 30).unwrap();
    let b = store.insert_request(sample("/b"), 10).unwrap();
    let c = store.insert_request(sample("/c"), 20).unwrap();
    let by_created = store.list_requests(Range { start: 0, end: 9 }, "created_at", Order::Asc, None, None).unwrap();
    assert_eq!(by_created.items.iter().map(|r| r.id).collect::<Vec<_>>(), vec![b.id, c.id, a.id]);
    store.add_request_to_queue(c.id, 500);
    store.add_request_to_queue(a.id, 100);
    let by_retry = store.list_requests(Range { start: 0, end: 9 }, "retry_ms_at", Order::Desc, None, None).unwrap();
    assert_eq!(by_retry.items.iter().map(|r| r.id).collect::<Vec<_>>(), vec![c.id, a.id, b.id]);
    let page = store.list_requests(Range { start: 1, end: 1 }, "retry_ms_at", Order::Asc, None, None).unwrap();
    assert_eq!(page.total, 3);
    assert_eq!(page.items.iter().map(|r| r.id).collect::<Vec<_>>(), vec![a.id]);
    let refused = store.list_requests(Range { start: 0, end: 9 }, "uri; DROP TABLE requests", Order::Asc, None, None);
    assert_eq!(refused.unwrap_err(), AppError::InvalidSort);
}

#[test]
fn list_attempts_pages_sorted() {
    let mut store = Store::new();
    let a = store.insert_request(sample("/a"), 1).unwrap();
    let b = store.insert_request(sample("/b"), 1).unwrap();
    store.insert_attempt(a.id, 500, vec![], 1).unwrap();
    store.insert_attempt(b.id, 200, vec![], 2).unwrap();
    store.insert_attempt(a.id, 504, vec![], 3).unwrap();
    store.insert_attempt(a.id, 404, vec![], 4).unwrap();
    let by_status = store.list_attempts(Range { start: 0, end: 1 }, "response_status", Order::Desc, Some(a.id)).unwrap();
    assert_eq!(by_status.total, 3);
    assert_eq!(by_status.items.iter().map(|x| x.response_status).collect::<Vec<_>>(), vec![504, 500]);
    let rest = store.list_attempts(Range { start: 2, end: 5 }, "response_status", Order::Desc, Some(a.id)).unwrap();
    assert_eq!(rest.items.iter().map(|x| x.response_status).collect::<Vec<_>>(), vec![404]);
    let all = store.list_attempts(Range { start: 0, end: 9 }, "id", Order::Asc, None).unwrap();
    assert_eq!(all.total, 4);
    assert_eq!(all.items.len(), 4);
    assert_eq!(store.list_attempts(Range { start: 0, end: 9 }, "response_body", Order::Asc, None).unwrap_err(), AppError::InvalidSort);
}

#[test]
fn skipped_request_keeps_its_state() {
    let mut store = Store::new();
    let q = store.insert_request(sample("/"), 1).unwrap();
    assert_eq!(store.update_request_state(q.id, RequestState::Skipped), 1);
    assert_eq!(store.update_request_state(q.id, RequestState::Enqueued), 0);
    assert_eq!(store.request_state(q.id), Some(RequestState::Skipped));
    assert_eq!(store.request_state(q.id + 1), None);
}

#[test]
fn origins_listed_by_column() {
    let mut store = Store::new();
    for (d, t) in [("a.dev", 300u32), ("b.dev", 100), ("c.dev", 200)] {
        store
            .insert_origin(NewOrigin { domain: d.to_string(), origin_uri: "http://h".to_string(), timeout: t, ..Default::default() }, 1)
            .unwrap();
    }
    let page = store.list_origins_page(Range { start: 0, end: 1 }, "timeout", Order::Asc).unwrap();
    assert_eq!(page.total, 3);
    assert_eq!(page.items.iter().map(|o| o.domain.as_str()).collect::<Vec<_>>(), vec!["b.dev", "c.dev"]);
    let desc = store.list_origins_page(Range { start: 0, end: 9 }, "id", Order::Desc).unwrap();
    assert_eq!(desc.items.iter().map(|o| o.domain.as_str()).collect::<Vec<_>>(), vec!["c.dev", "b.dev", "a.dev"]);
    assert_eq!(store.list_origins_page(Range { start: 0, end: 9 }, "domain", Order::Asc).unwrap_err(), AppError::InvalidSort);
}
