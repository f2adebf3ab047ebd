use slack_adapter::{Date, Scope, SearchQuery};

fn d(y: i32, m: u32, day: u32) -> Date {
    Date::from_ymd_opt(y, m, day).unwrap()
}

#[test]
fn spec_example_inclusive_to_exclusive() {
    // 2026-05-25..=2026-05-31 renders after:2026-05-24 before:2026-06-01
    // (the days outside the window).
    let q = SearchQuery::new()
        .mine()
        .in_channel("proj-acme")
        .text("invoice")
        .between(d(2026, 5, 25), d(2026, 5, 31));
    assert_eq!(
        q.to_slack_queries(),
        vec!["from:@me in:#proj-acme after:2026-05-24 before:2026-06-01 invoice"]
    );
}

#[test]
fn one_query_per_scope() {
    let q = SearchQuery::new()
        .mine()
        .mentions()
        .between(d(2026, 5, 25), d(2026, 5, 31));
    assert_eq!(
        q.to_slack_queries(),
        vec![
            "from:@me after:2026-05-24 before:2026-06-01",
            "to:@me after:2026-05-24 before:2026-06-01",
        ]
    );
}

#[test]
fn no_scope_is_one_query_without_modifier() {
    let q = SearchQuery::new()
        .text("invoice")
        .between(d(2026, 5, 25), d(2026, 5, 31));
    assert_eq!(
        q.to_slack_queries(),
        vec!["after:2026-05-24 before:2026-06-01 invoice"]
    );
}

#[test]
fn channel_hash_prefix_is_normalized() {
    let q = SearchQuery::new().mine().in_channel("#general");
    assert_eq!(q.to_slack_queries(), vec!["from:@me in:#general"]);
}

#[test]
fn month_and_year_boundaries_off_by_one() {
    let q = SearchQuery::new().between(d(2026, 3, 1), d(2026, 12, 31));
    assert_eq!(
        q.to_slack_queries(),
        vec!["after:2026-02-28 before:2027-01-01"]
    );
}

#[test]
fn scope_modifiers() {
    assert_eq!(Scope::FromMe.modifier(), "from:@me");
    assert_eq!(Scope::ToMe.modifier(), "to:@me");
}

#[test]
fn mine_twice_adds_one_scope() {
    let q = SearchQuery::new().mine().mine().mentions().mine().mentions();
    assert_eq!(q.scopes, vec![Scope::FromMe, Scope::ToMe]);
    assert_eq!(q.to_slack_queries(), vec!["from:@me", "to:@me"]);
}

#[test]
fn scope_order_follows_calls() {
    let q = SearchQuery::new().mentions().mine();
    assert_eq!(q.to_slack_queries(), vec!["to:@me", "from:@me"]);
}

#[test]
fn empty_query_renders_one_empty_string() {
    assert_eq!(SearchQuery::new().to_slack_queries(), vec![""]);
    let dflt: SearchQuery = Default::default();
    assert_eq!(dflt.to_slack_queries(), vec![""]);
}

#[test]
fn many_leading_hashes_are_stripped() {
    let a = SearchQuery::new().in_channel("###general").to_slack_queries();
    let b = SearchQuery::new().in_channel("general").to_slack_queries();
    assert_eq!(a, vec!["in:#general"]);
    assert_eq!(a, b);
}

#[test]
fn surrounding_whitespace_of_text_is_trimmed() {
    let q = SearchQuery::new().text("  invoice\t\n");
    assert_eq!(q.to_slack_queries(), vec!["invoice"]);
    let q = SearchQuery::new().mine().text("a  b ");
    assert_eq!(q.to_slack_queries(), vec!["from:@me a  b"]);
}

#[test]
fn modifier_order_is_scope_channel_dates_text() {
    let q = SearchQuery::new()
        .text("hours")
        .between(d(2024, 2, 29), d(2024, 2, 29))
        .in_channel("billing")
        .mentions();
    assert_eq!(
        q.to_slack_queries(),
        vec!["to:@me in:#billing after:2024-02-28 before:2024-03-01 hours"]
    );
}

#[test]
fn only_one_bound_set() {
    let mut q = SearchQuery::new();
    q.from = Some(d(2025, 1, 1));
    assert_eq!(q.to_slack_queries(), vec!["after:2024-12-31"]);
    let mut q = SearchQuery::new();
    q.to = Some(d(2024, 2, 28));
    assert_eq!(q.to_slack_queries(), vec!["before:2024-02-29"]);
}

#[test]
fn bounds_at_the_ends_of_chrono_range_stay_put() {
    let q = SearchQuery::new().between(d(-262143, 1, 1), d(262142, 12, 31));
    assert_eq!(
        q.to_slack_queries(),
        vec!["after:-262143-01-01 before:+262142-12-31"]
    );
}

#[test]
fn command_line_scope_flags() {
    let both = SearchQuery::new().with_scope_flags(false, false);
    assert_eq!(both.scopes, vec![Scope::FromMe, Scope::ToMe]);
    assert_eq!(SearchQuery::new().with_scope_flags(true, false).scopes, vec![Scope::FromMe]);
    assert_eq!(SearchQuery::new().with_scope_flags(false, true).scopes, vec![Scope::ToMe]);
    assert_eq!(
        SearchQuery::new().with_scope_flags(true, true).scopes,
        vec![Scope::FromMe, Scope::ToMe]
    );
}
