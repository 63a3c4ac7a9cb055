use garbelour::github::{
    parse_event_json, read_event, upsert_sticky_comment, ApiRequest, EventError, GitHubClient,
    GitHubError, IssueComment, Method,
};
use garbelour::json::parse;
use garbelour::render::STICKY_MARKER;

fn client() -> GitHubClient {
    GitHubClient::from_env(Some("tok".to_string())).unwrap()
}

fn header<'a>(r: &'a ApiRequest, name: &str) -> Option<&'a str> {
    r.headers.iter().find(|(n, _)| n == name).map(|(_, v)| v.as_str())
}

#[test]
fn a_client_needs_a_token() {
    let e = GitHubClient::from_env(None).unwrap_err();
    assert_eq!(e, GitHubError::NoToken);
    assert_eq!(e.message(), "GITHUB_TOKEN is not set");
}

#[test]
fn requests_are_addressed_and_signed() {
    let r = client().list_issue_comments("o", "r", 12);
    assert_eq!(r.method, Method::Get);
    assert_eq!(r.url, "https://api.github.com/repos/o/r/issues/12/comments");
    assert_eq!(header(&r, "Accept"), Some("application/vnd.github+json"));
    assert_eq!(header(&r, "Authorization"), Some("Bearer tok"));
    assert_eq!(header(&r, "X-GitHub-Api-Version"), Some("2022-11-28"));
    assert_eq!(header(&r, "User-Agent"), Some("garbelour"));
    assert_eq!(header(&r, "content-type"), None);
    assert!(r.body.is_none());

    let c = client().with_base_url("http://ghe/api".to_string());
    let r = c.create_issue_comment("o", "r", 12, "a \"b\"");
    assert_eq!(r.method, Method::Post);
    assert_eq!(r.url, "http://ghe/api/repos/o/r/issues/12/comments");
    assert_eq!(header(&r, "content-type"), Some("application/json"));
    assert_eq!(r.body.as_deref(), Some("{\"body\":\"a \\\"b\\\"\"}"));

    let r = c.update_issue_comment("o", "r", 99, "x");
    assert_eq!(r.method, Method::Patch);
    assert_eq!(r.url, "http://ghe/api/repos/o/r/issues/comments/99");
    assert_eq!(r.body.as_deref(), Some("{\"body\":\"x\"}"));
}

fn comment(id: u64, body: &str) -> IssueComment {
    IssueComment { id, body: body.to_string() }
}

#[test]
fn first_comment_with_the_marker_is_updated() {
    let body = format!("{STICKY_MARKER}\nreport");
    let step = |listed: Option<&[IssueComment]>| {
        upsert_sticky_comment(&client(), "o", "r", 1, &body, listed).unwrap()
    };
    assert_eq!(step(None).method, Method::Get);

    let mut comments = vec![comment(4, "hello")];
    assert_eq!(step(Some(&comments)).method, Method::Post);

    // What was created is found the next time.
    comments.push(comment(5, &body));
    let r = step(Some(&comments));
    assert_eq!(r.method, Method::Patch);
    assert!(r.url.ends_with("/issues/comments/5"));

    // And so is what was updated, before any other.
    comments[1].body = format!("{STICKY_MARKER}\nother");
    comments.push(comment(6, &body));
    assert!(step(Some(&comments)).url.ends_with("/issues/comments/5"));
}

#[test]
fn a_body_without_the_marker_is_refused_at_every_step() {
    let listed = vec![comment(4, STICKY_MARKER)];
    for step in [None, Some(listed.as_slice())] {
        let e = upsert_sticky_comment(&client(), "o", "r", 1, "plain", step).unwrap_err();
        assert_eq!(e, GitHubError::NoMarker);
        assert!(e.message().contains(STICKY_MARKER));
    }
}

fn event(pr: &str, repository: &str) -> String {
    format!("{{{pr}{repository}}}")
}

#[test]
fn each_missing_part_of_an_event_is_named() {
    let repository = "\"repository\":{\"name\":\"n\",\"owner\":{\"login\":\"o\"}}";
    let error = |text: &str| parse_event_json(text).unwrap_err();
    assert_eq!(error("nope"), EventError::NotJson);
    assert_eq!(error(&event("", repository)), EventError::NoPullRequest);
    let pr = "\"pull_request\":null,";
    assert_eq!(error(&event(pr, repository)), EventError::NoNumber);
    let pr = "\"pull_request\":{\"number\":-1,\"base\":{\"sha\":\"b\"},\"head\":{\"sha\":\"h\"}},";
    assert_eq!(error(&event(pr, repository)), EventError::NoNumber);
    let pr = "\"pull_request\":{\"number\":1,\"base\":{},\"head\":{\"sha\":\"h\"}},";
    assert_eq!(error(&event(pr, repository)), EventError::NoBaseSha);
    let pr = "\"pull_request\":{\"number\":1,\"base\":{\"sha\":\"b\"},\"head\":{\"sha\":7}},";
    assert_eq!(error(&event(pr, repository)), EventError::NoHeadSha);
    let pr = "\"pull_request\":{\"number\":1,\"base\":{\"sha\":\"b\"},\"head\":{\"sha\":\"h\"}},";
    assert_eq!(error(&event(pr, "\"x\":1")), EventError::NoRepository);
    assert_eq!(error(&event(pr, "\"repository\":{\"name\":\"n\"}")), EventError::NoOwner);
    let nameless = "\"repository\":{\"owner\":{\"login\":\"o\"}}";
    assert_eq!(error(&event(pr, nameless)), EventError::NoName);
    assert_eq!(EventError::NoName.message(), "repository.name missing");

    let e = read_event(&parse(&event(pr, repository)).unwrap()).unwrap();
    assert_eq!((e.owner.as_str(), e.repo.as_str(), e.pr_number), ("o", "n", 1));
    assert_eq!((e.base_sha.as_str(), e.head_sha.as_str()), ("b", "h"));
}
