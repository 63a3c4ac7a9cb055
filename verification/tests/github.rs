use garbelour::github::{parse_event_json, upsert_sticky_comment, GitHubClient};

#[test]
fn parses_event_json_extracts_all_fields() {
    let json = r#"{
        "pull_request": {
            "number": 42,
            "base": {"sha": "0123456789abcdef0123456789abcdef01234567"},
            "head": {"sha": "abcdef0123456789abcdef0123456789abcdef01"}
        },
        "repository": {
            "name": "widget",
            "owner": {"login": "acme"}
        }
    }"#;
    let event = parse_event_json(json).unwrap();
    assert_eq!(event.owner, "acme");
    assert_eq!(event.repo, "widget");
    assert_eq!(event.pr_number, 42);
    assert_eq!(event.base_sha.len(), 40);
    assert_eq!(event.head_sha.len(), 40);
}

#[test]
fn parse_event_json_errors_on_missing_pr() {
    let json = r#"{"repository": {"name": "x", "owner": {"login": "y"}}}"#;
    assert!(parse_event_json(json).is_err());
}

#[test]
fn parse_event_json_errors_on_missing_base_sha() {
    let json = r#"{
        "pull_request": {"number": 1, "head": {"sha": "x"}},
        "repository": {"name": "r", "owner": {"login": "o"}}
    }"#;
    assert!(parse_event_json(json).is_err());
}

#[test]
fn upsert_requires_sticky_marker() {
    let client = GitHubClient::from_env(Some("x".into()))
        .unwrap()
        .with_base_url("http://localhost:0".into());
    let result = upsert_sticky_comment(&client, "o", "r", 1, "no marker here", None);
    assert!(result.is_err());
}
