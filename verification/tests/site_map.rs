use slack_adapter::{fill_places, MapError};

#[test]
fn placeholders_are_filled() {
    let t = "url = \"https://{workspace}.slack.com/client/{team_id}\" # {team_id}";
    assert_eq!(
        fill_places(t, "acme", "  T0123  ").unwrap(),
        "url = \"https://acme.slack.com/client/T0123\" # T0123"
    );
}

#[test]
fn missing_identifiers_are_refused() {
    assert_eq!(fill_places("x", "", "T1"), Err(MapError::MissingWorkspace));
    assert_eq!(fill_places("x", "acme", " \t "), Err(MapError::MissingWorkspace));
    assert_eq!(
        MapError::MissingWorkspace.message(),
        "SlackConfig needs a non-empty workspace subdomain and team_id"
    );
}
