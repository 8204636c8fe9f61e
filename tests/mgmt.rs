use soldr::error::AppError;
use soldr::listing::{attempt_column, origin_column, request_column};
use soldr::mgmt::{states_from_codes, Order, RangeParams, SortParams};
use soldr::state::RequestState;

fn range(text: &str) -> Result<(u32, u32), AppError> {
    let params = RangeParams { range: Some(text.to_string()) };
    params.parse_range().map(|r| (r.start, r.end))
}

#[test]
fn range_defaults_to_first_ten() {
    let params = RangeParams { range: None };
    let r = params.parse_range().unwrap();
    assert_eq!((r.start, r.end), (0, 9));
}

#[test]
fn range_reads_bracketed_pair() {
    assert_eq!(range("[0,9]"), Ok((0, 9)));
    assert_eq!(range("[ 3 , 7 ]"), Ok((3, 7)));
    assert_eq!(range("[+3,7]"), Ok((3, 7)));
    assert_eq!(range("4,5"), Ok((4, 5)));
    assert_eq!(range("[[4,5]]"), Ok((4, 5)));
}

#[test]
fn range_span_of_fifty_accepted_fifty_one_rejected() {
    assert_eq!(range("[0,50]"), Ok((0, 50)));
    assert_eq!(range("[0,51]"), Err(AppError::RangeTooWide));
    assert_eq!(range("[950,1000]"), Ok((950, 1000)));
}

#[test]
fn range_start_past_thousand_rejected() {
    assert_eq!(range("[1001,1010]"), Err(AppError::RangeStartTooLarge));
    assert_eq!(range("[1000,1000]"), Ok((1000, 1000)));
    assert_eq!(range("[990,1001]"), Ok((990, 1001)));
    assert_eq!(range("[990,1010]"), Ok((990, 1010)));
}

#[test]
fn range_start_after_end_rejected() {
    assert_eq!(range("[10,5]"), Err(AppError::RangeStartAfterEnd));
}

#[test]
fn range_malformed_rejected() {
    assert_eq!(range("abc"), Err(AppError::InvalidRange));
    assert_eq!(range("[1,2,3]"), Err(AppError::InvalidRange));
    assert_eq!(range("[1]"), Err(AppError::InvalidRange));
    assert_eq!(range("[-1,2]"), Err(AppError::InvalidRange));
    assert_eq!(range("[,2]"), Err(AppError::InvalidRange));
    assert_eq!(range("[4294967296,1]"), Err(AppError::InvalidRange));
    assert_eq!(range("[4294967295,4294967295]"), Err(AppError::RangeStartTooLarge));
}

#[test]
fn sort_defaults_to_id_descending() {
    let params = SortParams { sort: None };
    let s = params.parse_sort().unwrap();
    assert_eq!(s.field, "id");
    assert_eq!(s.order, Order::Desc);
}

#[test]
fn sort_reads_json_pair() {
    let params = SortParams { sort: Some(r#"["id","ASC"]"#.to_string()) };
    let s = params.parse_sort().unwrap();
    assert_eq!(s.field, "id");
    assert_eq!(s.order, Order::Asc);
    let params = SortParams { sort: Some(r#"["state", "DESC"]"#.to_string()) };
    let s = params.parse_sort().unwrap();
    assert_eq!(s.field, "state");
    assert_eq!(s.order, Order::Desc);
}

#[test]
fn sort_rejects_bad_input() {
    let bad_order = SortParams { sort: Some(r#"["id","DOWN"]"#.to_string()) };
    assert_eq!(bad_order.parse_sort().unwrap_err(), AppError::InvalidSortOrder);
    let short = SortParams { sort: Some(r#"["id"]"#.to_string()) };
    assert_eq!(short.parse_sort().unwrap_err(), AppError::InvalidSort);
    let not_json = SortParams { sort: Some("id,ASC".to_string()) };
    assert_eq!(not_json.parse_sort().unwrap_err(), AppError::InvalidSort);
}

#[test]
fn order_keywords() {
    assert_eq!(Order::Asc.as_str(), "ASC");
    assert_eq!(Order::Desc.as_str(), "DESC");
}

#[test]
fn state_codes_map_to_states() {
    let states = states_from_codes(&vec![0, 4, 9, -1, 8, 5]);
    assert_eq!(
        states,
        vec![RequestState::Received, RequestState::Completed, RequestState::Skipped, RequestState::Failed]
    );
    for code in 0..=8i8 {
        assert_eq!(RequestState::from_code(code).unwrap().code(), code);
    }
    assert_eq!(RequestState::from_code(9), None);
}

#[test]
fn sort_columns_are_whitelisted_per_listing() {
    assert_eq!(request_column("id").unwrap().name(), "id");
    assert_eq!(request_column("retry_ms_at").unwrap().name(), "retry_ms_at");
    assert!(request_column("domain").is_none());
    assert!(request_column("id; DROP TABLE requests").is_none());
    assert!(request_column("ID").is_none());
    assert_eq!(attempt_column("response_status").unwrap().name(), "response_status");
    assert!(attempt_column("state").is_none());
    assert_eq!(origin_column("timeout").unwrap().name(), "timeout");
    assert!(origin_column("method").is_none());
}
