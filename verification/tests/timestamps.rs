use slack_adapter::iso8601;

#[test]
fn slack_ts_to_iso8601() {
    // 1700000000 = 2023-11-14T22:13:20Z
    assert_eq!(iso8601("1700000000.632709"), "2023-11-14T22:13:20+00:00");
    // unparseable → returned as-is
    assert_eq!(iso8601("not-a-ts"), "not-a-ts");
}

#[test]
fn ts_without_fraction_and_signs() {
    assert_eq!(iso8601("0"), "1970-01-01T00:00:00+00:00");
    assert_eq!(iso8601("+86400.5"), "1970-01-02T00:00:00+00:00");
    assert_eq!(iso8601("-1"), "1969-12-31T23:59:59+00:00");
}

#[test]
fn ts_edge_cases_fall_back_to_raw() {
    assert_eq!(iso8601(""), "");
    assert_eq!(iso8601(".5"), ".5");
    assert_eq!(iso8601("+"), "+");
    assert_eq!(iso8601("12a.3"), "12a.3");
    // fits i64 but lies beyond chrono's range
    assert_eq!(iso8601("9223372036854775807"), "9223372036854775807");
    // does not fit i64
    assert_eq!(iso8601("99999999999999999999.1"), "99999999999999999999.1");
}

#[test]
fn instants_within_eight_trillion_seconds_render() {
    assert!(iso8601("8000000000000").ends_with("+00:00"));
    assert!(iso8601("-8000000000000").ends_with("+00:00"));
    assert_ne!(iso8601("8000000000000"), "8000000000000");
    assert_ne!(iso8601("-8000000000000"), "-8000000000000");
}

#[test]
fn chrono_range_ends_exactly() {
    assert_eq!(iso8601("8210266876799"), "+262142-12-31T23:59:59+00:00");
    assert_eq!(iso8601("8210266876800"), "8210266876800");
    assert_eq!(iso8601("-8334601228800"), "-262143-01-01T00:00:00+00:00");
    assert_eq!(iso8601("-8334601228801"), "-8334601228801");
}

#[test]
fn rendered_times_sort_as_seconds() {
    let secs = ["0", "59", "60", "3599", "86399", "86400", "951782400", "1700000000.9", "253402300799"];
    for w in secs.windows(2) {
        assert!(iso8601(w[0]) < iso8601(w[1]), "{} vs {}", w[0], w[1]);
    }
    assert_eq!(iso8601("253402300799"), "9999-12-31T23:59:59+00:00");
}
