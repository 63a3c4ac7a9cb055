//! GitHub: the event of a pull request, and the sticky comment.
//!
//! The library builds the requests and decides on the replies; sending is left
//! to the caller. Three endpoints are used:
//!
//! - `GET /repos/{owner}/{repo}/issues/{n}/comments` lists comments,
//! - `POST /repos/{owner}/{repo}/issues/{n}/comments` creates one,
//! - `PATCH /repos/{owner}/{repo}/issues/comments/{id}` updates one.
//!
//! The sticky comment is known by a marker at the top of its body.
use vstd::prelude::*;

use crate::json;
use crate::json::{Json, JsonView};
use crate::render::STICKY_MARKER;
use crate::text;

verus! {

/// Where to send requests, and on whose behalf.
#[derive(Debug)]
pub struct GitHubClient {
    token: String,
    base_url: String,
}

/// How a request is sent.
#[derive(Clone, Copy, Debug, PartialEq, Eq, Structural)]
pub enum Method {
    Get,
    Post,
    Patch,
}

/// A request to the API. The body, where there is one, is a JSON document.
#[derive(Debug)]
pub struct ApiRequest {
    pub method: Method,
    pub url: String,
    pub headers: Vec<(String, String)>,
    pub body: Option<String>,
}

#[verifier::ext_equal]
pub struct ApiRequestView {
    pub method: Method,
    pub url: Seq<char>,
    pub headers: Seq<(Seq<char>, Seq<char>)>,
    pub body: Option<Seq<char>>,
}

impl View for ApiRequest {
    type V = ApiRequestView;

    open spec fn view(&self) -> ApiRequestView {
        ApiRequestView {
            method: self.method,
            url: self.url@,
            headers: Seq::new(
                self.headers@.len(),
                |i: int| (self.headers@[i].0@, self.headers@[i].1@),
            ),
            body: text::opt_view(self.body),
        }
    }
}

/// A comment on a pull request.
#[derive(Debug)]
pub struct IssueComment {
    pub id: u64,
    pub body: String,
}

#[verifier::ext_equal]
pub struct IssueCommentView {
    pub id: u64,
    pub body: Seq<char>,
}

impl View for IssueComment {
    type V = IssueCommentView;

    open spec fn view(&self) -> IssueCommentView {
        IssueCommentView { id: self.id, body: self.body@ }
    }
}

impl Clone for IssueComment {
    fn clone(&self) -> (r: Self)
        ensures
            r@ == self@,
    {
        IssueComment { id: self.id, body: self.body.clone() }
    }
}

/// Why no comment can be posted.
#[derive(Clone, Copy, Debug, PartialEq, Eq, Structural)]
pub enum GitHubError {
    /// There is no token in the environment.
    NoToken,
    /// The body of the comment lacks the marker.
    NoMarker,
}

/// What the user is told.
pub open spec fn error_message(e: GitHubError) -> Seq<char> {
    match e {
        GitHubError::NoToken => "GITHUB_TOKEN is not set"@,
        GitHubError::NoMarker =>
            "garbelour: sticky comment body must contain the marker \"<!-- garbelour:sticky -->\""@,
    }
}

impl GitHubError {
    /// What the user is told.
    pub fn message(&self) -> (r: &'static str)
        ensures
            r@ == error_message(*self),
    {
        match self {
            GitHubError::NoToken => "GITHUB_TOKEN is not set",
            GitHubError::NoMarker =>
                "garbelour: sticky comment body must contain the marker \"<!-- garbelour:sticky -->\"",
        }
    }
}

/// Where the API is found.
pub const API_URL: &'static str = "https://api.github.com";

/// The headers of every request.
pub open spec fn common_headers(token: Seq<char>) -> Seq<(Seq<char>, Seq<char>)> {
    seq![
        ("Accept"@, "application/vnd.github+json"@),
        ("Authorization"@, "Bearer "@ + token),
        ("X-GitHub-Api-Version"@, "2022-11-28"@),
        ("User-Agent"@, "garbelour"@),
    ]
}

/// The headers of a request with a body.
pub open spec fn body_headers(token: Seq<char>) -> Seq<(Seq<char>, Seq<char>)> {
    common_headers(token).push(("content-type"@, "application/json"@))
}

/// What a comment is sent as.
pub open spec fn comment_json(body: Seq<char>) -> JsonView {
    JsonView::Object(seq![("body"@, JsonView::Text(body))])
}

/// The address of the comments on a pull request.
pub open spec fn comments_url(
    base: Seq<char>,
    owner: Seq<char>,
    repo: Seq<char>,
    issue: u64,
) -> Seq<char> {
    base + "/repos/"@ + owner + "/"@ + repo + "/issues/"@ + text::dec(issue as nat) + "/comments"@
}

/// The address of a comment.
pub open spec fn comment_url(
    base: Seq<char>,
    owner: Seq<char>,
    repo: Seq<char>,
    id: u64,
) -> Seq<char> {
    base + "/repos/"@ + owner + "/"@ + repo + "/issues/comments/"@ + text::dec(id as nat)
}

fn body_value(body: &str) -> (r: String)
    ensures
        r@ == json::json_compact(comment_json(body@)),
{
    let members: Vec<(String, Json)> = vec![("body".to_string(), Json::Text(body.to_string()))];
    assert(json::object_view(members@) =~= comment_json(body@)->Object_0);
    let v: Json = Json::Object(members);
    proof {
        let m = comment_json(body@)->Object_0;
        assert forall|i: int| 0 <= i < m.len() implies json::writable((#[trigger] m[i]).1) by {
            assert(m[i].1 is Text);
        }
    }
    v.compact()
}

fn header(name: &str, value: &str) -> (r: (String, String))
    ensures
        r.0@ == name@,
        r.1@ == value@,
{
    (name.to_string(), value.to_string())
}

impl GitHubClient {
    /// On whose behalf requests are sent.
    pub closed spec fn token(&self) -> Seq<char> {
        self.token@
    }

    /// Where requests are sent to.
    pub closed spec fn base_url(&self) -> Seq<char> {
        self.base_url@
    }

    /// A client with the token from `GITHUB_TOKEN`, if the environment has it.
    pub fn from_env(token: Option<String>) -> (r: Result<Self, GitHubError>)
        ensures
            match r {
                Ok(c) => token is Some && c.token() == token.unwrap()@ && c.base_url() == API_URL@,
                Err(e) => token is None && e == GitHubError::NoToken,
            },
    {
        match token {
            Some(token) => Ok(GitHubClient { token, base_url: API_URL.to_string() }),
            None => Err(GitHubError::NoToken),
        }
    }

    /// The client, with the API at another place.
    pub fn with_base_url(self, url: String) -> (r: Self)
        ensures
            r.token() == self.token(),
            r.base_url() == url@,
    {
        GitHubClient { token: self.token, base_url: url }
    }

    fn headers(&self) -> (r: Vec<(String, String)>)
        ensures
            r@.len() == 4,
            Seq::new(r@.len(), |i: int| (r@[i].0@, r@[i].1@)) == common_headers(self.token()),
    {
        let mut bearer: String = "Bearer ".to_string();
        bearer.append(self.token.as_str());
        let r: Vec<(String, String)> = vec![
            header("Accept", "application/vnd.github+json"),
            header("Authorization", bearer.as_str()),
            header("X-GitHub-Api-Version", "2022-11-28"),
            header("User-Agent", "garbelour"),
        ];
        assert(Seq::new(r@.len(), |i: int| (r@[i].0@, r@[i].1@)) =~= common_headers(self.token()));
        r
    }

    fn issue_url(&self, owner: &str, repo: &str, issue: u64) -> (r: String)
        ensures
            r@ == comments_url(self.base_url(), owner@, repo@, issue),
    {
        let mut out: String = self.base_url.clone();
        out.append("/repos/");
        out.append(owner);
        out.append("/");
        out.append(repo);
        out.append("/issues/");
        out.append(text::decimal(issue).as_str());
        out.append("/comments");
        out
    }

    fn request(&self, method: Method, url: String, body: Option<&str>) -> (r: ApiRequest)
        ensures
            r@ == (ApiRequestView {
                method,
                url: url@,
                headers: if body is Some {
                    body_headers(self.token())
                } else {
                    common_headers(self.token())
                },
                body: match body {
                    Some(b) => Some(json::json_compact(comment_json(b@))),
                    None => None,
                },
            }),
    {
        let mut headers: Vec<(String, String)> = self.headers();
        let ghost before = headers@;
        let document: Option<String> = match body {
            Some(b) => {
                headers.push(header("content-type", "application/json"));
                proof {
                    let common = common_headers(self.token());
                    let all = body_headers(self.token());
                    assert forall|i: int| 0 <= i < headers@.len() implies (
                        #[trigger] headers@[i].0@,
                        headers@[i].1@,
                    ) == all[i] by {
                        if i < 4 {
                            assert(headers@[i] == before[i]);
                            assert(Seq::new(
                                before.len(),
                                |k: int| (before[k].0@, before[k].1@),
                            )[i] == common[i]);
                        }
                    }
                }
                Some(body_value(b))
            },
            None => None,
        };
        let r = ApiRequest { method, url, headers, body: document };
        assert(r@.headers =~= if body is Some {
            body_headers(self.token())
        } else {
            common_headers(self.token())
        });
        r
    }

    /// The request for the comments on a pull request.
    pub fn list_issue_comments(&self, owner: &str, repo: &str, issue: u64) -> (r: ApiRequest)
        ensures
            r@ == list_request(self.token(), self.base_url(), owner@, repo@, issue),
    {
        self.request(Method::Get, self.issue_url(owner, repo, issue), None)
    }

    /// The request that creates a comment on a pull request.
    pub fn create_issue_comment(&self, owner: &str, repo: &str, issue: u64, body: &str) -> (r:
        ApiRequest)
        ensures
            r@ == create_request(self.token(), self.base_url(), owner@, repo@, issue, body@),
    {
        self.request(Method::Post, self.issue_url(owner, repo, issue), Some(body))
    }

    /// The request that gives a comment another body.
    pub fn update_issue_comment(&self, owner: &str, repo: &str, comment_id: u64, body: &str) -> (r:
        ApiRequest)
        ensures
            r@ == update_request(self.token(), self.base_url(), owner@, repo@, comment_id, body@),
    {
        let mut url: String = self.base_url.clone();
        url.append("/repos/");
        url.append(owner);
        url.append("/");
        url.append(repo);
        url.append("/issues/comments/");
        url.append(text::decimal(comment_id).as_str());
        self.request(Method::Patch, url, Some(body))
    }
}

pub open spec fn list_request(
    token: Seq<char>,
    base: Seq<char>,
    owner: Seq<char>,
    repo: Seq<char>,
    issue: u64,
) -> ApiRequestView {
    ApiRequestView {
        method: Method::Get,
        url: comments_url(base, owner, repo, issue),
        headers: common_headers(token),
        body: None,
    }
}

pub open spec fn create_request(
    token: Seq<char>,
    base: Seq<char>,
    owner: Seq<char>,
    repo: Seq<char>,
    issue: u64,
    body: Seq<char>,
) -> ApiRequestView {
    ApiRequestView {
        method: Method::Post,
        url: comments_url(base, owner, repo, issue),
        headers: body_headers(token),
        body: Some(json::json_compact(comment_json(body))),
    }
}

pub open spec fn update_request(
    token: Seq<char>,
    base: Seq<char>,
    owner: Seq<char>,
    repo: Seq<char>,
    id: u64,
    body: Seq<char>,
) -> ApiRequestView {
    ApiRequestView {
        method: Method::Patch,
        url: comment_url(base, owner, repo, id),
        headers: body_headers(token),
        body: Some(json::json_compact(comment_json(body))),
    }
}

// --- the sticky comment --------------------------------------------------

/// The first comment with the marker.
pub open spec fn sticky_of(comments: Seq<IssueCommentView>) -> Option<IssueCommentView>
    decreases comments.len(),
{
    if comments.len() == 0 {
        None
    } else if text::contains(comments[0].body, STICKY_MARKER@) {
        Some(comments[0])
    } else {
        sticky_of(comments.drop_first())
    }
}

/// The next request on the way to a sticky comment: the comments are listed
/// first; then the one with the marker is updated, and where there is none, one
/// is created.
pub open spec fn upsert_request(
    token: Seq<char>,
    base: Seq<char>,
    owner: Seq<char>,
    repo: Seq<char>,
    issue: u64,
    body: Seq<char>,
    listed: Option<Seq<IssueCommentView>>,
) -> ApiRequestView {
    match listed {
        None => list_request(token, base, owner, repo, issue),
        Some(comments) => match sticky_of(comments) {
            Some(c) => update_request(token, base, owner, repo, c.id, body),
            None => create_request(token, base, owner, repo, issue, body),
        },
    }
}

fn find_sticky(comments: &[IssueComment]) -> (r: Option<u64>)
    ensures
        match r {
            Some(id) => sticky_of(text::views(comments@)) is Some && sticky_of(
                text::views(comments@),
            ).unwrap().id == id,
            None => sticky_of(text::views(comments@)) is None,
        },
{
    let ghost all = text::views(comments@);
    let mut i: usize = 0;
    assert(all.skip(0) == all);
    while i < comments.len()
        invariant
            i <= comments.len(),
            all == text::views(comments@),
            sticky_of(all) == sticky_of(all.skip(i as int)),
        decreases comments.len() - i,
    {
        assert(all.skip(i as int)[0] == comments@[i as int]@);
        if text::has(comments[i].body.as_str(), STICKY_MARKER) {
            return Some(comments[i].id);
        }
        assert(all.skip(i as int).drop_first() == all.skip(i + 1));
        i = i + 1;
    }
    None
}

/// The next request on the way to a sticky comment with this body. `listed`
/// holds the comments on the pull request once they are known. The body must
/// have the marker.
pub fn upsert_sticky_comment(
    client: &GitHubClient,
    owner: &str,
    repo: &str,
    issue: u64,
    body: &str,
    listed: Option<&[IssueComment]>,
) -> (r: Result<ApiRequest, GitHubError>)
    ensures
        match r {
            Ok(q) => text::contains(body@, STICKY_MARKER@) && q@ == upsert_request(
                client.token(),
                client.base_url(),
                owner@,
                repo@,
                issue,
                body@,
                match listed {
                    Some(comments) => Some(text::views(comments@)),
                    None => None,
                },
            ),
            Err(e) => !text::contains(body@, STICKY_MARKER@) && e == GitHubError::NoMarker,
        },
{
    if !text::has(body, STICKY_MARKER) {
        return Err(GitHubError::NoMarker);
    }
    match listed {
        None => Ok(client.list_issue_comments(owner, repo, issue)),
        Some(comments) => match find_sticky(comments) {
            Some(id) => Ok(client.update_issue_comment(owner, repo, id, body)),
            None => Ok(client.create_issue_comment(owner, repo, issue, body)),
        },
    }
}

/// A comment that was created for a body with the marker is the one that is
/// updated the next time.
pub proof fn law_created_comment_is_found(
    comments: Seq<IssueCommentView>,
    created: IssueCommentView,
)
    requires
        sticky_of(comments) is None,
        text::contains(created.body, STICKY_MARKER@),
    ensures
        sticky_of(comments.push(created)) == Some(created),
    decreases comments.len(),
{
    let more = comments.push(created);
    if comments.len() > 0 {
        law_created_comment_is_found(comments.drop_first(), created);
        assert(more.drop_first() =~= comments.drop_first().push(created));
    }
}

/// A comment that was updated to a body with the marker is the one that is
/// updated the next time, too.
pub proof fn law_updated_comment_is_found(
    comments: Seq<IssueCommentView>,
    i: int,
    body: Seq<char>,
)
    requires
        0 <= i < comments.len(),
        text::contains(comments[i].body, STICKY_MARKER@),
        forall|k: int|
            0 <= k < i ==> !text::contains((#[trigger] comments[k]).body, STICKY_MARKER@),
        text::contains(body, STICKY_MARKER@),
    ensures
        sticky_of(comments) == Some(comments[i]),
        sticky_of(comments.update(i, IssueCommentView { id: comments[i].id, body })) == Some(
            IssueCommentView { id: comments[i].id, body },
        ),
    decreases comments.len(),
{
    let updated = IssueCommentView { id: comments[i].id, body };
    let after = comments.update(i, updated);
    if i > 0 {
        assert(!text::contains(comments[0].body, STICKY_MARKER@));
        assert(after[0] == comments[0]);
        let rest = comments.drop_first();
        assert forall|k: int| 0 <= k < i - 1 implies !text::contains(
            (#[trigger] rest[k]).body,
            STICKY_MARKER@,
        ) by {
            assert(rest[k] == comments[k + 1]);
        }
        law_updated_comment_is_found(rest, i - 1, body);
        assert(after.drop_first() =~= rest.update(i - 1, updated));
    }
}

// --- the event -----------------------------------------------------------

/// What is read of the event of a pull request.
#[derive(Debug)]
pub struct PrEvent {
    pub owner: String,
    pub repo: String,
    pub pr_number: u64,
    pub base_sha: String,
    pub head_sha: String,
}

#[verifier::ext_equal]
pub struct PrEventView {
    pub owner: Seq<char>,
    pub repo: Seq<char>,
    pub pr_number: u64,
    pub base_sha: Seq<char>,
    pub head_sha: Seq<char>,
}

impl View for PrEvent {
    type V = PrEventView;

    open spec fn view(&self) -> PrEventView {
        PrEventView {
            owner: self.owner@,
            repo: self.repo@,
            pr_number: self.pr_number,
            base_sha: self.base_sha@,
            head_sha: self.head_sha@,
        }
    }
}

impl Clone for PrEvent {
    fn clone(&self) -> (r: Self)
        ensures
            r@ == self@,
    {
        PrEvent {
            owner: self.owner.clone(),
            repo: self.repo.clone(),
            pr_number: self.pr_number,
            base_sha: self.base_sha.clone(),
            head_sha: self.head_sha.clone(),
        }
    }
}

/// Why a text is not the event of a pull request.
#[derive(Clone, Copy, Debug, PartialEq, Eq, Structural)]
pub enum EventError {
    NotJson,
    NoPullRequest,
    NoNumber,
    NoBaseSha,
    NoHeadSha,
    NoRepository,
    NoOwner,
    NoName,
}

impl EventError {
    /// What the user is told.
    pub fn message(&self) -> (r: &'static str)
        ensures
            r@ == (match self {
                EventError::NotJson => "parsing GitHub event JSON"@,
                EventError::NoPullRequest => "event payload has no `pull_request` field"@,
                EventError::NoNumber => "pull_request.number missing or not a number"@,
                EventError::NoBaseSha => "pull_request.base.sha missing"@,
                EventError::NoHeadSha => "pull_request.head.sha missing"@,
                EventError::NoRepository => "event payload has no `repository` field"@,
                EventError::NoOwner => "repository.owner.login missing"@,
                EventError::NoName => "repository.name missing"@,
            }),
    {
        match self {
            EventError::NotJson => "parsing GitHub event JSON",
            EventError::NoPullRequest => "event payload has no `pull_request` field",
            EventError::NoNumber => "pull_request.number missing or not a number",
            EventError::NoBaseSha => "pull_request.base.sha missing",
            EventError::NoHeadSha => "pull_request.head.sha missing",
            EventError::NoRepository => "event payload has no `repository` field",
            EventError::NoOwner => "repository.owner.login missing",
            EventError::NoName => "repository.name missing",
        }
    }
}

/// The text under a key of a member of a value.
pub open spec fn text_below(v: JsonView, key: Seq<char>, inner: Seq<char>) -> Option<Seq<char>> {
    json::text_of(json::member(json::member(v, key), inner))
}

/// What a payload says of its pull request, or the first thing that it lacks.
pub open spec fn event_of(v: JsonView) -> Result<PrEventView, EventError> {
    let pr = json::member(v, "pull_request"@);
    let repository = json::member(v, "repository"@);
    if !json::has_member(v, "pull_request"@) {
        Err(EventError::NoPullRequest)
    } else {
        match json::natural_of(json::member(pr, "number"@)) {
            None => Err(EventError::NoNumber),
            Some(pr_number) => match text_below(pr, "base"@, "sha"@) {
                None => Err(EventError::NoBaseSha),
                Some(base_sha) => match text_below(pr, "head"@, "sha"@) {
                    None => Err(EventError::NoHeadSha),
                    Some(head_sha) => if !json::has_member(v, "repository"@) {
                        Err(EventError::NoRepository)
                    } else {
                        match text_below(repository, "owner"@, "login"@) {
                            None => Err(EventError::NoOwner),
                            Some(owner) => match json::text_of(
                                json::member(repository, "name"@),
                            ) {
                                None => Err(EventError::NoName),
                                Some(repo) => Ok(
                                    PrEventView { owner, repo, pr_number, base_sha, head_sha },
                                ),
                            },
                        }
                    },
                },
            },
        }
    }
}

/// What a text says of its pull request.
pub open spec fn event_in(s: Seq<char>) -> Result<PrEventView, EventError> {
    match json::json_read(s) {
        None => Err(EventError::NotJson),
        Some(v) => event_of(v),
    }
}

/// The view of the value, or the error.
pub open spec fn event_view(r: Result<PrEvent, EventError>) -> Result<PrEventView, EventError> {
    match r {
        Ok(e) => Ok(e@),
        Err(e) => Err(e),
    }
}

fn text_in(v: &Json, key: &str) -> (r: Option<String>)
    ensures
        text::opt_view(r) == json::text_of(json::member(v@, key@)),
{
    match v.get(key) {
        Some(m) => match m.as_text() {
            Some(s) => Some(s.clone()),
            None => None,
        },
        None => None,
    }
}

fn inner_text(v: &Json, key: &str, inner: &str) -> (r: Option<String>)
    ensures
        text::opt_view(r) == text_below(v@, key@, inner@),
{
    match v.get(key) {
        Some(m) => text_in(m, inner),
        None => None,
    }
}

/// What a payload says of its pull request.
pub fn read_event(v: &Json) -> (r: Result<PrEvent, EventError>)
    ensures
        event_view(r) == event_of(v@),
{
    let pr: &Json = match v.get("pull_request") {
        Some(pr) => pr,
        None => return Err(EventError::NoPullRequest),
    };
    let pr_number: u64 = match json::member_natural(pr, "number") {
        Some(n) => n,
        None => return Err(EventError::NoNumber),
    };
    let base_sha: String = match inner_text(pr, "base", "sha") {
        Some(s) => s,
        None => return Err(EventError::NoBaseSha),
    };
    let head_sha: String = match inner_text(pr, "head", "sha") {
        Some(s) => s,
        None => return Err(EventError::NoHeadSha),
    };
    let repository: &Json = match v.get("repository") {
        Some(m) => m,
        None => return Err(EventError::NoRepository),
    };
    let owner: String = match inner_text(repository, "owner", "login") {
        Some(s) => s,
        None => return Err(EventError::NoOwner),
    };
    let repo: String = match text_in(repository, "name") {
        Some(s) => s,
        None => return Err(EventError::NoName),
    };
    Ok(PrEvent { owner, repo, pr_number, base_sha, head_sha })
}

/// What the payload of an event says of its pull request.
pub fn parse_event_json(s: &str) -> (r: Result<PrEvent, EventError>)
    ensures
        event_view(r) == event_in(s@),
{
    match json::parse(s) {
        Some(v) => read_event(&v),
        None => Err(EventError::NotJson),
    }
}

// --- what is asked of the API, and what an event tells -------------------

/// Every request is under the token. The comments are listed first; then the first
/// with the marker is given the body, and where none has it, one is created on the
/// pull request.
pub proof fn law_sticky_requests(
    token: Seq<char>,
    base: Seq<char>,
    owner: Seq<char>,
    repo: Seq<char>,
    issue: u64,
    body: Seq<char>,
    comments: Seq<IssueCommentView>,
    i: int,
)
    requires
        0 <= i <= comments.len(),
        forall|k: int|
            0 <= k < i ==> !text::contains((#[trigger] comments[k]).body, STICKY_MARKER@),
        i < comments.len() ==> text::contains(comments[i].body, STICKY_MARKER@),
    ensures
        ({
            let repository = base + "/repos/"@ + owner + "/"@ + repo;
            let list = upsert_request(token, base, owner, repo, issue, body, None);
            let send = upsert_request(token, base, owner, repo, issue, body, Some(comments));
            &&& list.method == Method::Get
            &&& list.body is None
            &&& list.url == repository + "/issues/"@ + text::dec(issue as nat) + "/comments"@
            &&& list.headers.contains(("Authorization"@, "Bearer "@ + token))
            &&& send.headers.contains(("Authorization"@, "Bearer "@ + token))
            &&& i < comments.len() ==> send.method == Method::Patch && send.url == repository
                + "/issues/comments/"@ + text::dec(comments[i].id as nat)
            &&& i == comments.len() ==> send.method == Method::Post && send.url == repository
                + "/issues/"@ + text::dec(issue as nat) + "/comments"@
            &&& send.body == Some(
                json::json_compact(JsonView::Object(seq![("body"@, JsonView::Text(body))])),
            )
        }),
{
    assert(common_headers(token)[1] == ("Authorization"@, "Bearer "@ + token));
    assert(body_headers(token)[1] == ("Authorization"@, "Bearer "@ + token));
    lemma_sticky(comments, i);
}

proof fn lemma_sticky(comments: Seq<IssueCommentView>, i: int)
    requires
        0 <= i <= comments.len(),
        forall|k: int|
            0 <= k < i ==> !text::contains((#[trigger] comments[k]).body, STICKY_MARKER@),
        i < comments.len() ==> text::contains(comments[i].body, STICKY_MARKER@),
    ensures
        sticky_of(comments) == if i < comments.len() {
            Some(comments[i])
        } else {
            None
        },
    decreases i,
{
    if i > 0 {
        assert(!text::contains(comments[0].body, STICKY_MARKER@));
        let rest = comments.drop_first();
        assert forall|k: int| 0 <= k < i - 1 implies !text::contains(
            (#[trigger] rest[k]).body,
            STICKY_MARKER@,
        ) by {
            assert(rest[k] == comments[k + 1]);
        }
        lemma_sticky(rest, i - 1);
    }
}

/// The payload tells of a pull request exactly where it has its number, the two
/// commits, the owner and the name of the repository, each in its place.
pub proof fn law_events_are_read(v: JsonView, e: PrEventView)
    ensures
        event_of(v) == Ok::<PrEventView, EventError>(e) <==> {
            let pr = json::member(v, "pull_request"@);
            let repository = json::member(v, "repository"@);
            &&& json::member(pr, "number"@) == JsonView::Natural(e.pr_number)
            &&& json::member(json::member(pr, "base"@), "sha"@) == JsonView::Text(e.base_sha)
            &&& json::member(json::member(pr, "head"@), "sha"@) == JsonView::Text(e.head_sha)
            &&& json::member(json::member(repository, "owner"@), "login"@) == JsonView::Text(
                e.owner,
            )
            &&& json::member(repository, "name"@) == JsonView::Text(e.repo)
        },
{
    lemma_absent(v, "pull_request"@);
    lemma_absent(v, "repository"@);
}

proof fn lemma_absent(v: JsonView, key: Seq<char>)
    ensures
        !json::has_member(v, key) ==> json::member(v, key) == JsonView::Null,
{
    match v {
        JsonView::Object(m) => {
            if !json::has_member(v, key) {
                json::law_member(m, key, m.len() as int);
            }
        },
        _ => {},
    }
}

} // verus!
