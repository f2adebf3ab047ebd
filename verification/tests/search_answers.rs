use slack_adapter::search::{rendered_or_raw, truncation_notice};
use slack_adapter::{interpret_response, search_script, ApiResponse, RawRow, SearchError};

fn row(ts: &str, p: &str) -> RawRow {
    RawRow {
        ts: ts.to_string(),
        channel: "general".to_string(),
        author: "ann".to_string(),
        text: "hi".to_string(),
        permalink: p.to_string(),
    }
}

#[test]
fn not_authenticated_error() {
    let r = ApiResponse { results: vec![], total: 0, error: Some("not_authenticated".into()) };
    let e = interpret_response("from:@me", r).unwrap_err();
    assert!(matches!(e, SearchError::NotAuthenticated));
    assert_eq!(
        e.message(),
        "not signed in to Slack — complete login in the browser window, then re-run"
    );
}

#[test]
fn no_user_id_error() {
    let r = ApiResponse { results: vec![row("1", "p")], total: 1, error: Some("no_user_id".into()) };
    let e = interpret_response("to:@me", r).unwrap_err();
    assert!(matches!(e, SearchError::NoUserId));
    assert!(e.message().starts_with("query scopes to `@me` but the active workspace"));
}

#[test]
fn other_endpoint_error_names_code_and_query() {
    let r = ApiResponse { results: vec![], total: 0, error: Some("invalid_auth".into()) };
    let e = interpret_response("in:#x", r).unwrap_err();
    assert_eq!(
        e.message(),
        "Slack's search endpoint returned error 'invalid_auth' for query 'in:#x' \
         (the session token may have expired, or the browser-automation-backed API changed)"
    );
}

#[test]
fn rows_become_results_in_order() {
    let r = ApiResponse {
        results: vec![row("1700000000.632709", "a"), row("junk", "b")],
        total: 2,
        error: None,
    };
    let a = interpret_response("q", r).unwrap();
    assert!(a.notice.is_none());
    assert_eq!(a.rows.len(), 2);
    assert_eq!(a.rows[0].ts, "2023-11-14T22:13:20+00:00");
    assert_eq!(a.rows[0].permalink, "a");
    assert_eq!(a.rows[1].ts, "junk");
    assert_eq!(a.rows[1].channel, "general");
    assert_eq!(a.rows[1].author, "ann");
    assert_eq!(a.rows[1].text, "hi");
}

#[test]
fn truncation_notice_only_when_capped() {
    assert_eq!(truncation_notice("q", 999, 5000), None);
    assert_eq!(truncation_notice("q", 1000, 1000), None);
    assert_eq!(
        truncation_notice("from:@me", 1000, 1234).unwrap(),
        "slack-adapter: query 'from:@me' matched 1234 messages; returning the first 1000 \
         (narrow the date range or add a channel/text filter for the rest)"
    );
    let rows: Vec<RawRow> = (0..1000).map(|i| row("1", &i.to_string())).collect();
    let a = interpret_response("x", ApiResponse { results: rows, total: 1001, error: None }).unwrap();
    assert!(a.notice.unwrap().contains("matched 1001 messages; returning the first 1000"));
}

#[test]
fn rendered_instant_or_raw() {
    assert_eq!(rendered_or_raw("raw", None), "raw");
    assert_eq!(rendered_or_raw("raw", Some("t".to_string())), "t");
}

#[test]
fn script_has_placeholders_filled() {
    let js = search_script("from:@me \"q\\\" \n");
    assert!(js.contains("const QUERY = \"from:@me \\\"q\\\\\\\" \\n\";"));
    assert!(js.contains("const PER_PAGE = 100;"));
    assert!(js.contains("const MAX = 1000;"));
    assert!(!js.contains("__QUERY__"));
    assert!(!js.contains("__PER_PAGE__"));
    assert!(!js.contains("__MAX__"));
}

#[test]
fn script_escapes_control_chars_in_lowercase_hex() {
    let js = search_script("a\u{1}b\u{1f}\u{7f}");
    assert!(js.contains("const QUERY = \"a\\u0001b\\u001f\u{7f}\";"));
}

#[test]
fn placeholder_names_in_the_query_stay_verbatim() {
    let js = search_script("__MAX__ __PER_PAGE__ __QUERY__");
    assert!(js.contains("const QUERY = \"__MAX__ __PER_PAGE__ __QUERY__\";"));
    assert!(js.contains("const PER_PAGE = 100;"));
    assert!(js.contains("const MAX = 1000;"));
}

#[test]
fn script_is_head_literal_tail() {
    let a = search_script("a");
    let b = search_script("xyz");
    let head = "\n(async () => {\n  const QUERY = ";
    assert!(a.starts_with(head) && b.starts_with(head));
    assert_eq!(&a[head.len() + 4..], &b[head.len() + 6..]);
}
