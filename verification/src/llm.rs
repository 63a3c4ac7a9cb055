//! Asking a model about the hunks that no rule made a finding on.
//!
//! The library builds the requests and reads the replies; sending them is left
//! to the caller.
use vstd::prelude::*;
use vstd::slice::slice_subrange;

use crate::classify::{
    Category, Classification, Classified, ClassifiedView, FindingView, FocusLines, Level, Side,
    Source, SourceView, Unclassified, UnclassifiedView,
};
use crate::diff::HunkId;
use crate::json;
use crate::json::{Json, JsonView};
use crate::lang;
use crate::text;

verus! {

/// How large the hunks of one request may be, in bytes, about.
pub const BATCH_PAYLOAD_LIMIT: usize = 24576;

/// Whom to ask.
#[derive(Clone, Copy, Debug, PartialEq, Eq, Structural)]
pub enum LlmProvider {
    Anthropic,
    OpenAI,
    Ollama,
}

pub open spec fn provider_name_of(p: LlmProvider) -> Seq<char> {
    match p {
        LlmProvider::Anthropic => "Anthropic"@,
        LlmProvider::OpenAI => "OpenAI"@,
        LlmProvider::Ollama => "Ollama"@,
    }
}

/// The model that goes with a provider. The one for Anthropic is the caller's to
/// say.
pub open spec fn default_model(p: LlmProvider, anthropic_model: Seq<char>) -> Seq<char> {
    match p {
        LlmProvider::Anthropic => anthropic_model,
        LlmProvider::OpenAI => "gpt-4o-mini"@,
        LlmProvider::Ollama => "llama3.2"@,
    }
}

pub open spec fn default_url(p: LlmProvider) -> Seq<char> {
    match p {
        LlmProvider::Anthropic => "https://api.anthropic.com"@,
        LlmProvider::OpenAI => "https://api.openai.com"@,
        LlmProvider::Ollama => "https://api.ollama.ai"@,
    }
}

/// The environment variable that holds the key for a provider.
pub open spec fn key_variable_of(p: LlmProvider) -> Seq<char> {
    match p {
        LlmProvider::Anthropic => "ANTHROPIC_API_KEY"@,
        LlmProvider::OpenAI => "OPENAI_API_KEY"@,
        LlmProvider::Ollama => "OLLAMA_API_KEY"@,
    }
}

/// The provider that a flag names.
pub open spec fn provider_named(s: Seq<char>) -> Option<LlmProvider> {
    if s == "anthropic"@ {
        Some(LlmProvider::Anthropic)
    } else if s == "openai"@ {
        Some(LlmProvider::OpenAI)
    } else if s == "ollama"@ {
        Some(LlmProvider::Ollama)
    } else {
        None
    }
}

impl LlmProvider {
    pub fn name(&self) -> (r: &'static str)
        ensures
            r@ == provider_name_of(*self),
    {
        match self {
            LlmProvider::Anthropic => "Anthropic",
            LlmProvider::OpenAI => "OpenAI",
            LlmProvider::Ollama => "Ollama",
        }
    }

    /// The model, the address and the name of the key's environment variable
    /// that go with the provider.
    fn defaults<'a>(&self, anthropic_model: &'a str) -> (r: (&'a str, &'static str, &'static str))
        ensures
            r.0@ == default_model(*self, anthropic_model@),
            r.1@ == default_url(*self),
            r.2@ == key_variable_of(*self),
    {
        match self {
            LlmProvider::Anthropic => (
                anthropic_model,
                "https://api.anthropic.com",
                "ANTHROPIC_API_KEY",
            ),
            LlmProvider::OpenAI => ("gpt-4o-mini", "https://api.openai.com", "OPENAI_API_KEY"),
            LlmProvider::Ollama => ("llama3.2", "https://api.ollama.ai", "OLLAMA_API_KEY"),
        }
    }

    fn from_name(s: &str) -> (r: Option<LlmProvider>)
        ensures
            r == provider_named(s@),
    {
        if text::str_same(s, "anthropic") {
            Some(LlmProvider::Anthropic)
        } else if text::str_same(s, "openai") {
            Some(LlmProvider::OpenAI)
        } else if text::str_same(s, "ollama") {
            Some(LlmProvider::Ollama)
        } else {
            None
        }
    }
}

/// Whom to ask, and how to reach them.
#[derive(Debug)]
pub struct LlmConfig {
    pub provider: LlmProvider,
    pub model: String,
    pub api_key: String,
    pub base_url: String,
}

impl LlmConfig {
    pub fn provider_name(&self) -> (r: &'static str)
        ensures
            r@ == provider_name_of(self.provider),
    {
        self.provider.name()
    }
}

/// The keys in the environment.
#[derive(Debug)]
pub struct ApiKeys {
    pub anthropic: Option<String>,
    pub openai: Option<String>,
    pub ollama: Option<String>,
}

/// The key for a provider.
pub open spec fn key_of(keys: ApiKeys, p: LlmProvider) -> Option<Seq<char>> {
    match p {
        LlmProvider::Anthropic => text::opt_view(keys.anthropic),
        LlmProvider::OpenAI => text::opt_view(keys.openai),
        LlmProvider::Ollama => text::opt_view(keys.ollama),
    }
}

/// Why no model can be asked.
#[derive(Debug)]
pub enum ProviderError {
    /// The flag names no provider.
    Unknown(String),
    /// No key is in the environment.
    NoKey,
    /// The key for the chosen provider is not in the environment.
    KeyNotSet(LlmProvider),
}

/// The provider to ask: the one that the flag names, or else the first with a
/// key.
pub open spec fn chosen_provider(flag: Option<Seq<char>>, keys: ApiKeys) -> Option<LlmProvider> {
    match flag {
        Some(s) => provider_named(s),
        None => if keys.anthropic is Some {
            Some(LlmProvider::Anthropic)
        } else if keys.openai is Some {
            Some(LlmProvider::OpenAI)
        } else if keys.ollama is Some {
            Some(LlmProvider::Ollama)
        } else {
            None
        },
    }
}

/// The model to ask: the one that is named, or else the one that goes with the
/// provider.
pub open spec fn chosen_model(
    model: Option<Seq<char>>,
    p: LlmProvider,
    anthropic_model: Seq<char>,
) -> Seq<char> {
    match model {
        Some(m) => m,
        None => default_model(p, anthropic_model),
    }
}

/// What comes of working out whom to ask: the provider, its key, and the model
/// and address that are given or else go with the provider.
pub open spec fn provider_detected(
    flag: Option<Seq<char>>,
    model: Option<Seq<char>>,
    url: Option<Seq<char>>,
    keys: ApiKeys,
    anthropic_model: Seq<char>,
    r: Result<LlmConfig, ProviderError>,
) -> bool {
    let chosen = chosen_provider(flag, keys);
    match r {
        Ok(c) => {
            &&& chosen == Some(c.provider)
            &&& key_of(keys, c.provider) == Some(c.api_key@)
            &&& c.model@ == chosen_model(model, c.provider, anthropic_model)
            &&& c.base_url@ == match url {
                Some(u) => u,
                None => default_url(c.provider),
            }
        },
        Err(ProviderError::Unknown(s)) => chosen is None && flag == Some(s@),
        Err(ProviderError::NoKey) => chosen is None && flag is None,
        Err(ProviderError::KeyNotSet(p)) => chosen == Some(p) && key_of(keys, p) is None,
    }
}

/// Works out whom to ask: the provider that the flag names, or else the first
/// whose key is in the environment. `anthropic_model` is the model for Anthropic
/// where none is named.
pub fn detect_provider(
    llm_provider: Option<&str>,
    llm_model: Option<&str>,
    llm_base_url: Option<&str>,
    keys: &ApiKeys,
    anthropic_model: &str,
) -> (r: Result<LlmConfig, ProviderError>)
    ensures
        provider_detected(
            text::opt_view(llm_provider),
            text::opt_view(llm_model),
            text::opt_view(llm_base_url),
            *keys,
            anthropic_model@,
            r,
        ),
{
    let provider: LlmProvider = match llm_provider {
        Some(s) => match LlmProvider::from_name(s) {
            Some(p) => p,
            None => return Err(ProviderError::Unknown(s.to_string())),
        },
        None => if keys.anthropic.is_some() {
            LlmProvider::Anthropic
        } else if keys.openai.is_some() {
            LlmProvider::OpenAI
        } else if keys.ollama.is_some() {
            LlmProvider::Ollama
        } else {
            return Err(ProviderError::NoKey);
        },
    };
    let key: &Option<String> = match provider {
        LlmProvider::Anthropic => &keys.anthropic,
        LlmProvider::OpenAI => &keys.openai,
        LlmProvider::Ollama => &keys.ollama,
    };
    let api_key: String = match key {
        Some(k) => k.clone(),
        None => return Err(ProviderError::KeyNotSet(provider)),
    };
    let (default, url, _): (&str, &'static str, &'static str) = provider.defaults(
        anthropic_model,
    );
    let model: String = match llm_model {
        Some(m) => m.to_string(),
        None => default.to_string(),
    };
    Ok(
        LlmConfig {
            provider,
            model,
            api_key,
            base_url: match llm_base_url {
                Some(u) => u.to_string(),
                None => url.to_string(),
            },
        },
    )
}

/// What the user is told.
pub open spec fn provider_message(e: ProviderError) -> Seq<char> {
    match e {
        ProviderError::Unknown(s) => "unknown --llm-provider '"@ + s@
            + "'; expected: anthropic, openai, ollama"@,
        ProviderError::NoKey => NO_KEY_MESSAGE@,
        ProviderError::KeyNotSet(p) => "garbelour --llm: provider '"@ + provider_name_of(p)
            + "' selected but "@ + key_variable_of(p) + " is not set"@,
    }
}

pub const NO_KEY_MESSAGE: &'static str = "garbelour --llm requires an API key in the environment.\nSet one of:\n  ANTHROPIC_API_KEY  (uses Anthropic)\n  OPENAI_API_KEY    (uses OpenAI)\n  OLLAMA_API_KEY    (uses Ollama cloud)\nor pass --llm-provider to specify a provider.";

impl ProviderError {
    /// What the user is told.
    pub fn message(&self) -> (r: String)
        ensures
            r@ == provider_message(*self),
    {
        match self {
            ProviderError::Unknown(s) => {
                let mut out: String = "unknown --llm-provider '".to_string();
                out.append(s.as_str());
                out.append("'; expected: anthropic, openai, ollama");
                out
            },
            ProviderError::NoKey => NO_KEY_MESSAGE.to_string(),
            ProviderError::KeyNotSet(p) => {
                let mut out: String = "garbelour --llm: provider '".to_string();
                out.append(p.name());
                out.append("' selected but ");
                out.append(p.defaults("").2);
                out.append(" is not set");
                out
            },
        }
    }
}


// --- requests ------------------------------------------------------------

/// A request to be sent by POST, with a JSON document as its body.
#[derive(Debug)]
pub struct HttpRequest {
    pub url: String,
    pub headers: Vec<(String, String)>,
    pub body: String,
}

#[verifier::ext_equal]
pub struct HttpRequestView {
    pub url: Seq<char>,
    pub headers: Seq<(Seq<char>, Seq<char>)>,
    pub body: Seq<char>,
}

pub open spec fn header_views(hs: Seq<(String, String)>) -> Seq<(Seq<char>, Seq<char>)> {
    Seq::new(hs.len(), |i: int| (hs[i].0@, hs[i].1@))
}

impl View for HttpRequest {
    type V = HttpRequestView;

    open spec fn view(&self) -> HttpRequestView {
        HttpRequestView {
            url: self.url@,
            headers: header_views(self.headers@),
            body: self.body@,
        }
    }
}

/// A message in a conversation.
pub open spec fn message_json(role: Seq<char>, content: Seq<char>) -> JsonView {
    JsonView::Object(
        seq![("role"@, JsonView::Text(role)), ("content"@, JsonView::Text(content))],
    )
}

/// The body of a request: the instructions, and what is asked. Only one of the
/// providers wants a bound on the length of the reply.
pub open spec fn body_json(
    provider: LlmProvider,
    model: Seq<char>,
    max_tokens: u64,
    system: Seq<char>,
    user: Seq<char>,
) -> JsonView {
    match provider {
        LlmProvider::Anthropic => JsonView::Object(
            seq![
                ("model"@, JsonView::Text(model)),
                ("max_tokens"@, JsonView::Natural(max_tokens)),
                ("system"@, JsonView::Text(system)),
                ("messages"@, JsonView::Array(seq![message_json("user"@, user)])),
            ],
        ),
        _ => JsonView::Object(
            seq![
                ("model"@, JsonView::Text(model)),
                (
                    "messages"@,
                    JsonView::Array(
                        seq![message_json("system"@, system), message_json("user"@, user)],
                    ),
                ),
            ],
        ),
    }
}

/// The request that asks the model.
pub open spec fn request_of(
    config: LlmConfig,
    max_tokens: u64,
    system: Seq<char>,
    user: Seq<char>,
) -> HttpRequestView {
    HttpRequestView {
        url: config.base_url@ + match config.provider {
            LlmProvider::Anthropic => "/v1/messages"@,
            _ => "/v1/chat/completions"@,
        },
        headers: match config.provider {
            LlmProvider::Anthropic => seq![
                ("x-api-key"@, config.api_key@),
                ("anthropic-version"@, "2023-06-01"@),
                ("content-type"@, "application/json"@),
            ],
            _ => seq![
                ("Authorization"@, "Bearer "@ + config.api_key@),
                ("content-type"@, "application/json"@),
            ],
        },
        body: json::json_compact(
            body_json(config.provider, config.model@, max_tokens, system, user),
        ),
    }
}

fn message(role: &str, content: &str) -> (r: Json)
    ensures
        r@ == message_json(role@, content@),
{
    let m: Vec<(String, Json)> = vec![
        ("role".to_string(), Json::Text(role.to_string())),
        ("content".to_string(), Json::Text(content.to_string())),
    ];
    assert(json::object_view(m@) =~= message_json(role@, content@)->Object_0);
    Json::Object(m)
}

proof fn lemma_message_writable(role: Seq<char>, content: Seq<char>)
    ensures
        json::writable(message_json(role, content)),
{
    reveal_strlit("role");
    reveal_strlit("content");
    let m = message_json(role, content)->Object_0;
    assert(m[0].0.len() != m[1].0.len());
    assert forall|i: int| 0 <= i < m.len() implies json::writable((#[trigger] m[i]).1) by {
        assert(m[i].1 is Text);
    }
}

proof fn lemma_body_writable(
    provider: LlmProvider,
    model: Seq<char>,
    max_tokens: u64,
    system: Seq<char>,
    user: Seq<char>,
)
    ensures
        json::writable(body_json(provider, model, max_tokens, system, user)),
{
    reveal_strlit("model");
    reveal_strlit("max_tokens");
    reveal_strlit("system");
    reveal_strlit("messages");
    lemma_message_writable("user"@, user);
    lemma_message_writable("system"@, system);
    let m = body_json(provider, model, max_tokens, system, user)->Object_0;
    let messages = m.last().1;
    assert(json::writable(messages)) by {
        let a = messages->Array_0;
        assert forall|i: int| 0 <= i < a.len() implies json::writable(#[trigger] a[i]) by {}
    }
    assert forall|i: int| 0 <= i < m.len() implies json::writable((#[trigger] m[i]).1) by {
        if i < m.len() - 1 {
            assert(m[i].1 is Text || m[i].1 is Natural);
        }
    }
    assert forall|i: int, j: int| 0 <= i < j < m.len() implies (#[trigger] m[i]).0 != (
    #[trigger] m[j]).0 by {
        assert(m[i].0.len() != m[j].0.len());
    }
}

/// The request that asks the model to answer `user` under the instructions
/// `system`.
pub(crate) fn request(config: &LlmConfig, max_tokens: u64, system: &str, user: &str) -> (r:
    HttpRequest)
    ensures
        r@ == request_of(*config, max_tokens, system@, user@),
{
    let mut url: String = config.base_url.clone();
    let members: Vec<(String, Json)>;
    let headers: Vec<(String, String)>;
    match config.provider {
        LlmProvider::Anthropic => {
            url.append("/v1/messages");
            let messages: Vec<Json> = vec![message("user", user)];
            proof {
                json::lemma_array_view(messages@);
                assert(text::views(messages@) =~= seq![message_json("user"@, user@)]);
            }
            members =
            vec![
                ("model".to_string(), Json::Text(config.model.clone())),
                ("max_tokens".to_string(), Json::Natural(max_tokens)),
                ("system".to_string(), Json::Text(system.to_string())),
                ("messages".to_string(), Json::Array(messages)),
            ];
            headers =
            vec![
                ("x-api-key".to_string(), config.api_key.clone()),
                ("anthropic-version".to_string(), "2023-06-01".to_string()),
                ("content-type".to_string(), "application/json".to_string()),
            ];
        },
        _ => {
            url.append("/v1/chat/completions");
            let messages: Vec<Json> = vec![message("system", system), message("user", user)];
            proof {
                json::lemma_array_view(messages@);
                assert(text::views(messages@) =~= seq![
                    message_json("system"@, system@),
                    message_json("user"@, user@),
                ]);
            }
            members =
            vec![
                ("model".to_string(), Json::Text(config.model.clone())),
                ("messages".to_string(), Json::Array(messages)),
            ];
            let mut bearer: String = "Bearer ".to_string();
            bearer.append(config.api_key.as_str());
            headers =
            vec![
                ("Authorization".to_string(), bearer),
                ("content-type".to_string(), "application/json".to_string()),
            ];
        },
    }
    let ghost want = body_json(config.provider, config.model@, max_tokens, system@, user@);
    proof {
        assert(json::object_view(members@) =~= want->Object_0);
        lemma_body_writable(config.provider, config.model@, max_tokens, system@, user@);
    }
    let body: Json = Json::Object(members);
    assert(body@ == want);
    let r = HttpRequest { url, headers, body: body.compact() };
    assert(r@.headers =~= request_of(*config, max_tokens, system@, user@).headers);
    r
}

/// The text in a reply of the provider; empty where there is none.
pub open spec fn content_of(provider: LlmProvider, reply: JsonView) -> Seq<char> {
    match provider {
        LlmProvider::Anthropic => json::text_or(
            json::member(json::element(json::member(reply, "content"@), 0), "text"@),
            Seq::empty(),
        ),
        _ => json::text_or(
            json::member(
                json::member(json::element(json::member(reply, "choices"@), 0), "message"@),
                "content"@,
            ),
            Seq::empty(),
        ),
    }
}

fn element_at<'a>(v: Option<&'a Json>, i: usize) -> (r: Option<&'a Json>)
    ensures
        json::or_null(r) == json::element(json::or_null(v), i as int),
{
    match v {
        Some(j) => j.at(i),
        None => None,
    }
}

fn member_of<'a>(v: Option<&'a Json>, key: &str) -> (r: Option<&'a Json>)
    ensures
        json::or_null(r) == json::member(json::or_null(v), key@),
{
    match v {
        Some(j) => j.get(key),
        None => None,
    }
}

/// The text in a reply of the provider.
pub fn content(provider: LlmProvider, reply: &Json) -> (r: String)
    ensures
        r@ == content_of(provider, reply@),
{
    let found: Option<&Json> = match provider {
        LlmProvider::Anthropic => member_of(element_at(reply.get("content"), 0), "text"),
        _ => member_of(
            member_of(element_at(reply.get("choices"), 0), "message"),
            "content",
        ),
    };
    let r: String = match found {
        Some(j) => match j.as_text() {
            Some(s) => s.clone(),
            None => String::new(),
        },
        None => String::new(),
    };
    assert(r@ =~= content_of(provider, reply@));
    r
}

/// The text in the body of a reply, where the body is a JSON document.
pub open spec fn reply_of(provider: LlmProvider, body: Seq<char>) -> Option<Seq<char>> {
    match json::json_read(body) {
        Some(v) => Some(content_of(provider, v)),
        None => None,
    }
}

/// The text in the body of a reply; `None` where the body is no JSON document.
pub fn reply_text(provider: LlmProvider, body: &str) -> (r: Option<String>)
    ensures
        text::opt_view(r) == reply_of(provider, body@),
{
    match json::parse(body) {
        Some(v) => Some(content(provider, &v)),
        None => None,
    }
}


// --- batches -------------------------------------------------------------

/// How much a list of lines adds to the size of a hunk.
pub open spec fn lines_size(ls: Seq<Seq<char>>) -> nat
    decreases ls.len(),
{
    if ls.len() == 0 {
        0
    } else {
        lines_size(ls.drop_last()) + text::bytes_len(ls.last()) + 2
    }
}

/// How large a hunk is in a request, about.
pub open spec fn hunk_size(u: UnclassifiedView) -> nat {
    text::bytes_len(u.file_path) + lines_size(u.old_lines) + lines_size(u.new_lines) + 256
}

/// Where the forming of batches stands: those that are full, and the one at
/// hand with its size.
#[verifier::ext_equal]
pub struct BatchingView {
    pub full: Seq<Seq<UnclassifiedView>>,
    pub open: Seq<UnclassifiedView>,
    pub size: nat,
}

/// One more hunk goes into the batch at hand, unless that would make it too
/// large; then it begins a new one.
pub open spec fn batching(hunks: Seq<UnclassifiedView>) -> BatchingView
    decreases hunks.len(),
{
    if hunks.len() == 0 {
        BatchingView { full: Seq::empty(), open: Seq::empty(), size: 0 }
    } else {
        let b = batching(hunks.drop_last());
        let u = hunks.last();
        if b.open.len() > 0 && b.size + hunk_size(u) > BATCH_PAYLOAD_LIMIT {
            BatchingView { full: b.full.push(b.open), open: seq![u], size: hunk_size(u) }
        } else {
            BatchingView { full: b.full, open: b.open.push(u), size: b.size + hunk_size(u) }
        }
    }
}

/// The batches of these hunks.
pub open spec fn batches_of(hunks: Seq<UnclassifiedView>) -> Seq<Seq<UnclassifiedView>> {
    if hunks.len() == 0 {
        Seq::empty()
    } else {
        batching(hunks).full.push(batching(hunks).open)
    }
}

/// The views of batches.
pub open spec fn batch_views(bs: Seq<&[Unclassified]>) -> Seq<Seq<UnclassifiedView>> {
    Seq::new(bs.len(), |i: int| text::views(bs[i]@))
}

fn lines_total(ls: &Vec<String>) -> (r: usize)
    ensures
        r == (if lines_size(text::views(ls@)) <= usize::MAX {
            lines_size(text::views(ls@)) as usize
        } else {
            usize::MAX
        }),
{
    let ghost all = text::views(ls@);
    let mut total: usize = 0;
    let mut i: usize = 0;
    while i < ls.len()
        invariant
            i <= ls.len(),
            all == text::views(ls@),
            total == (if lines_size(all.take(i as int)) <= usize::MAX {
                lines_size(all.take(i as int)) as usize
            } else {
                usize::MAX
            }),
        decreases ls.len() - i,
    {
        assert(all.take(i + 1).drop_last() == all.take(i as int));
        assert(all.take(i + 1).last() == ls@[i as int]@);
        total = total.saturating_add(text::byte_len(ls[i].as_str())).saturating_add(2);
        i = i + 1;
    }
    assert(all.take(i as int) == all);
    total
}

/// How large a hunk is; the largest number where it is larger than that.
fn estimate_hunk_size(h: &Unclassified) -> (r: usize)
    ensures
        r == (if hunk_size(h@) <= usize::MAX {
            hunk_size(h@) as usize
        } else {
            usize::MAX
        }),
{
    text::byte_len(h.file_path.as_str()).saturating_add(lines_total(&h.old_lines)).saturating_add(
        lines_total(&h.new_lines),
    ).saturating_add(256)
}

/// Groups hunks into batches that are not too large for one request. A hunk
/// that is too large by itself makes a batch of its own.
pub fn build_batches(hunks: &[Unclassified]) -> (r: Vec<&[Unclassified]>)
    ensures
        batch_views(r@) == batches_of(text::views(hunks@)),
{
    let ghost all = text::views(hunks@);
    let mut batches: Vec<&[Unclassified]> = Vec::new();
    if hunks.len() == 0 {
        assert(batch_views(batches@) =~= batches_of(all));
        return batches;
    }
    let mut start: usize = 0;
    let mut size: usize = 0;
    let mut i: usize = 0;
    assert(all.take(0) =~= Seq::<UnclassifiedView>::empty());
    assert(batch_views(batches@) =~= batching(all.take(0)).full);
    assert(all.subrange(0, 0) =~= batching(all.take(0)).open);
    while i < hunks.len()
        invariant
            start <= i <= hunks.len(),
            all == text::views(hunks@),
            batch_views(batches@) == batching(all.take(i as int)).full,
            all.subrange(start as int, i as int) == batching(all.take(i as int)).open,
            size == (if batching(all.take(i as int)).size <= usize::MAX {
                batching(all.take(i as int)).size as usize
            } else {
                usize::MAX
            }),
            start == i ==> i == 0,
        decreases hunks.len() - i,
    {
        let sz: usize = estimate_hunk_size(&hunks[i]);
        let ghost u = all[i as int];
        let ghost b = batching(all.take(i as int));
        assert(all.take(i + 1).drop_last() == all.take(i as int));
        assert(all.take(i + 1).last() == u);
        if i > start && size.saturating_add(sz) > BATCH_PAYLOAD_LIMIT {
            let ghost before = batches@;
            let batch: &[Unclassified] = slice_subrange(hunks, start, i);
            assert(text::views(batch@) =~= all.subrange(start as int, i as int));
            batches.push(batch);
            assert(batch_views(batches@) =~= batch_views(before).push(text::views(batch@)));
            start = i;
            size = 0;
            assert(all.subrange(start as int, i + 1) =~= seq![u]);
        } else {
            assert(all.subrange(start as int, i + 1) =~= all.subrange(start as int, i as int).push(
                u,
            ));
        }
        size = size.saturating_add(sz);
        i = i + 1;
    }
    assert(all.take(i as int) == all);
    let ghost before = batches@;
    let batch: &[Unclassified] = slice_subrange(hunks, start, hunks.len());
    assert(text::views(batch@) =~= all.subrange(start as int, i as int));
    batches.push(batch);
    assert(batch_views(batches@) =~= batch_views(before).push(text::views(batch@)));
    batches
}

// --- the prompt ----------------------------------------------------------

pub const SYSTEM_PROMPT: &'static str = "You are not reviewing code. Your only job is to decide how much attention a human reader should spend on each diff hunk. For each hunk, choose one of three levels: review (reader must read carefully — real logic, behavior, or contract change), skim (reader should glance — substantive but low-risk), or skip (reader can collapse — boilerplate, no semantic effect). Do not suggest changes. Do not flag bugs. Do not write code review comments. For hunks classified as review or skim, identify the specific line range within the hunk that is most important. Output a single line of justification per hunk, no more.";

pub const VERDICT_FORMAT: &'static str = "Respond ONLY with valid JSON:\n{\n  \"verdicts\": [\n    {\n      \"id\": \"<hunk_id>\",\n      \"level\": \"review|skim|skip\",\n      \"focus_start\": <line_number_or_null>,\n      \"focus_end\": <line_number_or_null>,\n      \"rationale\": \"one sentence referencing the focus lines\"\n    }\n  ]\n}\n\nFor review and skim verdicts, set focus_start and focus_end to the post-image (+) line numbers of the most important region. For skip verdicts, set both to null.\n";

/// The lines, each with the mark before it and a line end behind it.
pub open spec fn marked(mark: Seq<char>, ls: Seq<Seq<char>>) -> Seq<char>
    decreases ls.len(),
{
    if ls.len() == 0 {
        Seq::empty()
    } else {
        marked(mark, ls.drop_last()) + mark + ls.last() + "\n"@
    }
}

pub open spec fn language_label(l: Option<lang::Language>) -> Seq<char> {
    match l {
        Some(l) => lang::name_of(l),
        None => "unknown"@,
    }
}

/// What the prompt says of one hunk.
pub open spec fn hunk_prompt(u: UnclassifiedView) -> Seq<char> {
    "Hunk "@ + u.hunk_id + "\n  File: "@ + u.file_path + " ("@ + language_label(u.language)
        + ")\n  --- old\n"@ + marked("  -"@, u.old_lines) + "  +++ new\n"@ + marked(
        "  +"@,
        u.new_lines,
    ) + "\n"@
}

/// What the prompt says of the hunks of a batch.
pub open spec fn hunk_prompts(batch: Seq<UnclassifiedView>) -> Seq<char>
    decreases batch.len(),
{
    if batch.len() == 0 {
        Seq::empty()
    } else {
        hunk_prompts(batch.drop_last()) + hunk_prompt(batch.last())
    }
}

/// The prompt for a batch: its hunks, and how to answer.
pub open spec fn prompt_of(batch: Seq<UnclassifiedView>) -> Seq<char> {
    hunk_prompts(batch) + VERDICT_FORMAT@
}

fn add_marked(out: &mut String, mark: &str, ls: &Vec<String>)
    ensures
        final(out)@ == old(out)@ + marked(mark@, text::views(ls@)),
{
    let ghost all = text::views(ls@);
    let ghost start = out@;
    let mut i: usize = 0;
    assert(start + marked(mark@, all.take(0)) =~= start);
    while i < ls.len()
        invariant
            i <= ls.len(),
            all == text::views(ls@),
            out@ == start + marked(mark@, all.take(i as int)),
        decreases ls.len() - i,
    {
        out.append(mark);
        out.append(ls[i].as_str());
        out.append("\n");
        assert(all.take(i + 1).drop_last() == all.take(i as int));
        assert(all.take(i + 1).last() == ls@[i as int]@);
        i = i + 1;
        assert(out@ =~= start + marked(mark@, all.take(i as int)));
    }
    assert(all.take(i as int) == all);
}

fn one_hunk_prompt(u: &Unclassified) -> (r: String)
    ensures
        r@ == hunk_prompt(u@),
{
    let mut out: String = "Hunk ".to_string();
    out.append(u.hunk_id.0.as_str());
    out.append("\n  File: ");
    out.append(u.file_path.as_str());
    out.append(" (");
    match u.language {
        Some(l) => out.append(l.as_str()),
        None => out.append("unknown"),
    }
    out.append(")\n  --- old\n");
    add_marked(&mut out, "  -", &u.old_lines);
    out.append("  +++ new\n");
    add_marked(&mut out, "  +", &u.new_lines);
    out.append("\n");
    out
}

/// The prompt for a batch of hunks.
pub fn build_prompt(batch: &[Unclassified]) -> (r: String)
    ensures
        r@ == prompt_of(text::views(batch@)),
{
    let ghost all = text::views(batch@);
    let mut out: String = String::new();
    let mut i: usize = 0;
    assert(out@ =~= hunk_prompts(all.take(0)));
    while i < batch.len()
        invariant
            i <= batch.len(),
            all == text::views(batch@),
            out@ == hunk_prompts(all.take(i as int)),
        decreases batch.len() - i,
    {
        out.append(one_hunk_prompt(&batch[i]).as_str());
        assert(all.take(i + 1).drop_last() == all.take(i as int));
        assert(all.take(i + 1).last() == batch@[i as int]@);
        i = i + 1;
    }
    assert(all.take(i as int) == all);
    out.append(VERDICT_FORMAT);
    out
}

/// The requests for these hunks, one for each batch.
pub open spec fn requests_of(config: LlmConfig, hunks: Seq<UnclassifiedView>) -> Seq<
    HttpRequestView,
> {
    batches_of(hunks).map_values(
        |b: Seq<UnclassifiedView>| request_of(config, 8192, SYSTEM_PROMPT@, prompt_of(b)),
    )
}

/// The requests that ask the model about these hunks, one for each batch.
pub fn build_requests(hunks: &[Unclassified], config: &LlmConfig) -> (r: Vec<HttpRequest>)
    ensures
        text::views(r@) == requests_of(*config, text::views(hunks@)),
{
    let batches: Vec<&[Unclassified]> = build_batches(hunks);
    let ghost all = requests_of(*config, text::views(hunks@));
    let mut out: Vec<HttpRequest> = Vec::new();
    let mut i: usize = 0;
    while i < batches.len()
        invariant
            i <= batches.len(),
            batch_views(batches@) == batches_of(text::views(hunks@)),
            all == requests_of(*config, text::views(hunks@)),
            text::views(out@) == all.take(i as int),
        decreases batches.len() - i,
    {
        let q: HttpRequest = request(config, 8192, SYSTEM_PROMPT, build_prompt(batches[i]).as_str());
        assert(batches_of(text::views(hunks@))[i as int] == text::views(batches@[i as int]@));
        let ghost before = out@;
        out.push(q);
        proof {
            text::lemma_views_push(before, q);
            assert(all.take(i + 1) =~= all.take(i as int).push(q@));
        }
        i = i + 1;
    }
    assert(all.take(i as int) =~= all);
    out
}

// --- verdicts ------------------------------------------------------------

/// What stands between the first opening and the last closing brace, both with
/// it; the whole text where there is no such stretch.
pub open spec fn json_part(s: Seq<char>) -> Seq<char> {
    let start: int = text::upto(s, '{') as int;
    let end: int = text::through_last(s, '}') as int;
    if start < end {
        s.subrange(start, end)
    } else {
        s
    }
}

/// Finds the JSON document in a text that may hold more, such as a code fence
/// around it.
pub fn extract_json(s: &str) -> (r: String)
    ensures
        r@ == json_part(s@),
{
    let cs: Vec<char> = text::chars(s);
    let start: usize = text::position(&cs, '{');
    let end: usize = text::end_of_last(&cs, '}');
    if start < end {
        text::string(slice_subrange(&cs, start, end))
    } else {
        text::string(&cs)
    }
}

/// The last hunk of the batch with this identifier.
pub open spec fn hunk_with_id(batch: Seq<UnclassifiedView>, id: Seq<char>) -> Option<
    UnclassifiedView,
>
    decreases batch.len(),
{
    if batch.len() == 0 {
        None
    } else if batch.last().hunk_id == id {
        Some(batch.last())
    } else {
        hunk_with_id(batch.drop_last(), id)
    }
}

/// The level that a verdict names; `Skim` where it names none that is known.
pub open spec fn level_named(s: Seq<char>) -> Level {
    if s == "review"@ {
        Level::Review
    } else if s == "skip"@ {
        Level::Skip
    } else {
        Level::Skim
    }
}

/// The lines that a verdict names: both ends, in the new file.
pub open spec fn focus_of(start: Option<u64>, end: Option<u64>) -> Option<FocusLines> {
    match (start, end) {
        (Some(s), Some(e)) => Some(
            FocusLines { start: s as u32, end: e as u32, side: Side::New },
        ),
        _ => None,
    }
}

/// What one verdict says, if it is of a hunk of the batch.
pub open spec fn verdict_of(
    verdict: JsonView,
    batch: Seq<UnclassifiedView>,
    provider: LlmProvider,
    model: Seq<char>,
) -> Option<ClassifiedView> {
    match json::text_of(json::member(verdict, "id"@)) {
        None => None,
        Some(id) => match hunk_with_id(batch, id) {
            None => None,
            Some(u) => Some(
                ClassifiedView {
                    hunk_id: id,
                    file_path: u.file_path,
                    new_range: u.new_range,
                    classification: FindingView {
                        level: level_named(
                            json::text_or(json::member(verdict, "level"@), "skim"@),
                        ),
                        category: Category::LlmAssessed,
                        rationale: json::text_or(json::member(verdict, "rationale"@), ""@),
                        source: SourceView::Llm { provider: provider_name_of(provider), model },
                        focus_lines: focus_of(
                            json::natural_of(json::member(verdict, "focus_start"@)),
                            json::natural_of(json::member(verdict, "focus_end"@)),
                        ),
                    },
                },
            ),
        },
    }
}

/// What these verdicts say of hunks of the batch, in order.
pub open spec fn verdicts_in(
    verdicts: Seq<JsonView>,
    batch: Seq<UnclassifiedView>,
    provider: LlmProvider,
    model: Seq<char>,
) -> Seq<ClassifiedView>
    decreases verdicts.len(),
{
    if verdicts.len() == 0 {
        Seq::empty()
    } else {
        let before = verdicts_in(verdicts.drop_last(), batch, provider, model);
        match verdict_of(verdicts.last(), batch, provider, model) {
            Some(c) => before.push(c),
            None => before,
        }
    }
}

/// What an answer says of hunks of the batch.
pub open spec fn verdicts_of(
    answer: JsonView,
    batch: Seq<UnclassifiedView>,
    provider: LlmProvider,
    model: Seq<char>,
) -> Seq<ClassifiedView> {
    match json::array_of(json::member(answer, "verdicts"@)) {
        Some(a) => verdicts_in(a, batch, provider, model),
        None => Seq::empty(),
    }
}

/// What a response says of hunks of the batch; nothing where it holds no JSON
/// document.
pub open spec fn response_of(
    raw: Seq<char>,
    batch: Seq<UnclassifiedView>,
    provider: LlmProvider,
    model: Seq<char>,
) -> Seq<ClassifiedView> {
    match json::json_read(json_part(raw)) {
        Some(v) => verdicts_of(v, batch, provider, model),
        None => Seq::empty(),
    }
}

pub(crate) fn find_hunk<'a>(batch: &'a [Unclassified], id: &str) -> (r: Option<&'a Unclassified>)
    ensures
        text::opt_view(r) == hunk_with_id(text::views(batch@), id@),
{
    let ghost all = text::views(batch@);
    let mut i: usize = batch.len();
    assert(all.take(i as int) == all);
    while i > 0
        invariant
            i <= batch.len(),
            all == text::views(batch@),
            hunk_with_id(all, id@) == hunk_with_id(all.take(i as int), id@),
        decreases i,
    {
        assert(all.take(i as int).last() == batch@[i - 1]@);
        assert(all.take(i as int).drop_last() == all.take(i - 1));
        if text::str_same(batch[i - 1].hunk_id.0.as_str(), id) {
            return Some(&batch[i - 1]);
        }
        i = i - 1;
    }
    None
}

fn read_verdict(verdict: &Json, batch: &[Unclassified], config: &LlmConfig) -> (r: Option<
    Classified,
>)
    ensures
        text::opt_view(r) == verdict_of(
            verdict@,
            text::views(batch@),
            config.provider,
            config.model@,
        ),
{
    let id: &String = match verdict.get("id") {
        Some(j) => match j.as_text() {
            Some(s) => s,
            None => return None,
        },
        None => return None,
    };
    let u: &Unclassified = match find_hunk(batch, id.as_str()) {
        Some(u) => u,
        None => return None,
    };
    let name: String = json::member_text(verdict, "level", "skim");
    let level: Level = if text::str_same(name.as_str(), "review") {
        Level::Review
    } else if text::str_same(name.as_str(), "skip") {
        Level::Skip
    } else {
        Level::Skim
    };
    let focus_lines: Option<FocusLines> = match (
        json::member_natural(verdict, "focus_start"),
        json::member_natural(verdict, "focus_end"),
    ) {
        (Some(s), Some(e)) => Some(
            FocusLines {
                start: #[verifier::truncate]
                (s as u32),
                end: #[verifier::truncate]
                (e as u32),
                side: Side::New,
            },
        ),
        _ => None,
    };
    Some(
        Classified {
            hunk_id: HunkId(id.clone()),
            file_path: u.file_path.clone(),
            new_range: u.new_range,
            classification: Classification {
                level,
                category: Category::LlmAssessed,
                rationale: json::member_text(verdict, "rationale", ""),
                source: Source::Llm {
                    provider: config.provider.name().to_string(),
                    model: config.model.clone(),
                },
                focus_lines,
            },
        },
    )
}

/// Reads the verdicts in an answer of the model. Those without an identifier,
/// and those of hunks that the batch does not have, are left out.
pub fn read_verdicts(answer: &Json, batch: &[Unclassified], config: &LlmConfig) -> (r: Vec<
    Classified,
>)
    ensures
        text::views(r@) == verdicts_of(
            answer@,
            text::views(batch@),
            config.provider,
            config.model@,
        ),
{
    let mut out: Vec<Classified> = Vec::new();
    assert(text::views(out@) =~= Seq::<ClassifiedView>::empty());
    let verdicts: &Vec<Json> = match json::member_array(answer, "verdicts") {
        Some(a) => a,
        None => return out,
    };
    let ghost all = text::views(verdicts@);
    let mut i: usize = 0;
    while i < verdicts.len()
        invariant
            i <= verdicts.len(),
            all == text::views(verdicts@),
            text::views(out@) == verdicts_in(
                all.take(i as int),
                text::views(batch@),
                config.provider,
                config.model@,
            ),
        decreases verdicts.len() - i,
    {
        assert(all.take(i + 1).drop_last() == all.take(i as int));
        assert(all.take(i + 1).last() == verdicts@[i as int]@);
        match read_verdict(&verdicts[i], batch, config) {
            Some(c) => {
                let ghost before = out@;
                out.push(c);
                proof {
                    text::lemma_views_push(before, c);
                }
            },
            None => {},
        }
        i = i + 1;
    }
    assert(all.take(i as int) == all);
    out
}

/// Reads a response of the model on a batch of hunks.
pub fn parse_response(raw: &str, batch: &[Unclassified], config: &LlmConfig) -> (r: Vec<Classified>)
    ensures
        text::views(r@) == response_of(
            raw@,
            text::views(batch@),
            config.provider,
            config.model@,
        ),
{
    match json::parse(extract_json(raw).as_str()) {
        Some(v) => read_verdicts(&v, batch, config),
        None => {
            let none: Vec<Classified> = Vec::new();
            assert(text::views(none@) =~= Seq::<ClassifiedView>::empty());
            none
        },
    }
}

/// Why no verdict can be read from an answer.
#[derive(Debug)]
pub enum AnswerFault {
    /// There is no JSON document in it.
    NotJson(serde_json::Error),
    /// The document has no list of verdicts.
    NoVerdicts,
}

/// Why no verdict can be read from an answer of the model, if so.
pub fn answer_fault(raw: &str) -> (r: Option<AnswerFault>)
    ensures
        match json::json_read(json_part(raw@)) {
            None => r matches Some(AnswerFault::NotJson(_)),
            Some(v) => match json::array_of(json::member(v, "verdicts"@)) {
                None => r matches Some(AnswerFault::NoVerdicts),
                Some(_) => r is None,
            },
        },
{
    match json::read(extract_json(raw).as_str()) {
        Err(e) => Some(AnswerFault::NotJson(e)),
        Ok(v) => {
            let list: Option<&Vec<Json>> = match v.get("verdicts") {
                Some(m) => m.as_array(),
                None => None,
            };
            match list {
                None => Some(AnswerFault::NoVerdicts),
                Some(_) => None,
            }
        },
    }
}

/// What the replies to the requests of these batches say; `None` where the
/// body of one is no JSON document.
pub open spec fn replies_of(
    bodies: Seq<Seq<char>>,
    batches: Seq<Seq<UnclassifiedView>>,
    provider: LlmProvider,
    model: Seq<char>,
) -> Option<Seq<ClassifiedView>>
    decreases bodies.len(),
{
    if bodies.len() == 0 {
        Some(Seq::empty())
    } else {
        match (
            replies_of(bodies.drop_last(), batches, provider, model),
            reply_of(provider, bodies.last()),
        ) {
            (Some(before), Some(raw)) => Some(
                before + response_of(raw, batches[bodies.len() - 1], provider, model),
            ),
            _ => None,
        }
    }
}

proof fn lemma_replies_fail(
    bodies: Seq<Seq<char>>,
    n: int,
    batches: Seq<Seq<UnclassifiedView>>,
    provider: LlmProvider,
    model: Seq<char>,
)
    requires
        0 <= n <= bodies.len(),
        replies_of(bodies.take(n), batches, provider, model) is None,
    ensures
        replies_of(bodies, batches, provider, model) is None,
    decreases bodies.len(),
{
    if n < bodies.len() {
        assert(bodies.drop_last().take(n) == bodies.take(n));
        lemma_replies_fail(bodies.drop_last(), n, batches, provider, model);
    } else {
        assert(bodies.take(n) == bodies);
    }
}

/// What the model says of these hunks: `bodies` are the bodies of the replies to
/// the requests for them, in order. Hunks that no verdict is of are left out.
/// `None` where the body of a reply is no JSON document.
pub fn classify_hunks(hunks: &[Unclassified], bodies: &Vec<String>, config: &LlmConfig) -> (r:
    Option<Vec<Classified>>)
    requires
        bodies@.len() == batches_of(text::views(hunks@)).len(),
    ensures
        ({
            let want = replies_of(
                text::views(bodies@),
                batches_of(text::views(hunks@)),
                config.provider,
                config.model@,
            );
            match r {
                Some(cs) => want == Some(text::views(cs@)),
                None => want is None,
            }
        }),
{
    let batches: Vec<&[Unclassified]> = build_batches(hunks);
    let ghost bs = batches_of(text::views(hunks@));
    let ghost all = text::views(bodies@);
    let mut out: Vec<Classified> = Vec::new();
    let mut i: usize = 0;
    assert(text::views(out@) =~= Seq::<ClassifiedView>::empty());
    while i < batches.len()
        invariant
            i <= batches.len(),
            batches.len() == bodies.len(),
            bs == batches_of(text::views(hunks@)),
            bs == batch_views(batches@),
            all == text::views(bodies@),
            replies_of(all.take(i as int), bs, config.provider, config.model@) == Some(
                text::views(out@),
            ),
        decreases batches.len() - i,
    {
        assert(all.take(i + 1).drop_last() == all.take(i as int));
        assert(all.take(i + 1).last() == bodies@[i as int]@);
        assert(bs[i as int] == text::views(batches@[i as int]@));
        match reply_text(config.provider, bodies[i].as_str()) {
            Some(raw) => {
                let mut more: Vec<Classified> = parse_response(raw.as_str(), batches[i], config);
                let ghost before = text::views(out@);
                let ghost added = text::views(more@);
                out.append(&mut more);
                assert(text::views(out@) =~= before + added);
            },
            None => {
                proof {
                    lemma_replies_fail(all, i + 1, bs, config.provider, config.model@);
                }
                return None;
            },
        }
        i = i + 1;
    }
    assert(all.take(i as int) == all);
    Some(out)
}


// --- laws ----------------------------------------------------------------

/// The hunks of all batches, in order.
pub open spec fn joined(batches: Seq<Seq<UnclassifiedView>>) -> Seq<UnclassifiedView>
    decreases batches.len(),
{
    if batches.len() == 0 {
        Seq::empty()
    } else {
        joined(batches.drop_last()) + batches.last()
    }
}

/// The sum of the sizes of these hunks.
pub open spec fn total_size(hunks: Seq<UnclassifiedView>) -> nat
    decreases hunks.len(),
{
    if hunks.len() == 0 {
        0
    } else {
        total_size(hunks.drop_last()) + hunk_size(hunks.last())
    }
}

/// A batch is not empty, and not too large unless it is a single hunk.
pub open spec fn batch_is_sound(batch: Seq<UnclassifiedView>) -> bool {
    batch.len() > 0 && (batch.len() == 1 || total_size(batch) <= BATCH_PAYLOAD_LIMIT)
}

proof fn lemma_batching(hunks: Seq<UnclassifiedView>)
    ensures
        ({
            let b = batching(hunks);
            &&& joined(b.full) + b.open == hunks
            &&& b.size == total_size(b.open)
            &&& forall|i: int| 0 <= i < b.full.len() ==> batch_is_sound(#[trigger] b.full[i])
            &&& hunks.len() > 0 ==> batch_is_sound(b.open)
        }),
    decreases hunks.len(),
{
    let b = batching(hunks);
    if hunks.len() == 0 {
        assert(joined(b.full) + b.open =~= hunks);
    } else {
        let a = batching(hunks.drop_last());
        let u = hunks.last();
        lemma_batching(hunks.drop_last());
        if a.open.len() > 0 && a.size + hunk_size(u) > BATCH_PAYLOAD_LIMIT {
            assert(b.full.drop_last() =~= a.full);
            assert(joined(b.full) =~= hunks.drop_last());
            assert(joined(b.full) + b.open =~= hunks);
            assert(b.open.drop_last() =~= Seq::<UnclassifiedView>::empty());
            assert(total_size(b.open.drop_last()) == 0);
            assert forall|i: int| 0 <= i < b.full.len() implies batch_is_sound(
                #[trigger] b.full[i],
            ) by {
                if i < a.full.len() {
                    assert(b.full[i] == a.full[i]);
                }
            }
        } else {
            assert(joined(a.full) + a.open.push(u) =~= (joined(a.full) + a.open).push(u));
            assert(hunks.drop_last().push(u) =~= hunks);
            assert(b.open.drop_last() =~= a.open);
            if a.open.len() == 0 {
                assert(b.open.len() == 1);
            }
        }
    }
}

/// There is no room in a batch for the first hunk of another.
pub open spec fn is_full(batch: Seq<UnclassifiedView>, next: Seq<UnclassifiedView>) -> bool {
    total_size(batch) + hunk_size(next[0]) > BATCH_PAYLOAD_LIMIT
}

proof fn lemma_batches_are_full(hunks: Seq<UnclassifiedView>)
    ensures
        ({
            let bs = batching(hunks).full.push(batching(hunks).open);
            forall|i: int, j: int| 0 <= i && j == i + 1 && j < bs.len() ==> #[trigger] is_full(bs[i], bs[j])
        }),
    decreases hunks.len(),
{
    if hunks.len() > 0 {
        let a = batching(hunks.drop_last());
        let b = batching(hunks);
        let u = hunks.last();
        lemma_batches_are_full(hunks.drop_last());
        lemma_batching(hunks.drop_last());
        let before = a.full.push(a.open);
        let bs = b.full.push(b.open);
        assert forall|i: int, j: int| 0 <= i && j == i + 1 && j < bs.len() implies #[trigger] is_full(
            bs[i],
            bs[j],
        ) by {
            if a.open.len() > 0 && a.size + hunk_size(u) > BATCH_PAYLOAD_LIMIT {
                assert(bs =~= before.push(seq![u]));
                if j < before.len() {
                    assert(is_full(before[i], before[j]));
                } else {
                    assert(bs[i] == a.open);
                    assert(bs[j][0] == u);
                }
            } else if j < a.full.len() {
                assert(is_full(before[i], before[j]));
                assert(bs[i] == before[i] && bs[j] == before[j]);
            } else {
                assert(is_full(before[i], before[j]));
                assert(bs[i] == before[i]);
                assert(bs[j] == a.open.push(u));
                if hunks.drop_last().len() > 0 {
                    assert(bs[j][0] == before[j][0]);
                }
            }
        }
    }
}

/// Batches hold every hunk, in order, and are sound: none is empty, and none is
/// too large unless it is a single hunk. No more of them are made than needed:
/// there is no room in a batch for the first hunk of the next.
pub proof fn law_batches(hunks: Seq<UnclassifiedView>)
    ensures
        joined(batches_of(hunks)) == hunks,
        forall|i: int|
            0 <= i < batches_of(hunks).len() ==> batch_is_sound(#[trigger] batches_of(hunks)[i]),
        forall|i: int, j: int|
            0 <= i && j == i + 1 && j < batches_of(hunks).len() ==> #[trigger] is_full(
                batches_of(hunks)[i],
                batches_of(hunks)[j],
            ),
{
    lemma_batching(hunks);
    lemma_batches_are_full(hunks);
    let bs = batches_of(hunks);
    if hunks.len() == 0 {
        assert(joined(bs) =~= hunks);
    } else {
        let b = batching(hunks);
        assert(bs.drop_last() =~= b.full);
        assert forall|i: int| 0 <= i < bs.len() implies batch_is_sound(#[trigger] bs[i]) by {
            if i < b.full.len() {
                assert(bs[i] == b.full[i]);
            }
        }
    }
}

/// A verdict of a model: on a hunk of the batch, under the name of the model,
/// about lines of the new file if any.
pub open spec fn verdict_is_sound(
    c: ClassifiedView,
    batch: Seq<UnclassifiedView>,
    provider: LlmProvider,
    model: Seq<char>,
) -> bool {
    &&& hunk_with_id(batch, c.hunk_id) matches Some(u) && c.file_path == u.file_path && c.new_range
        == u.new_range
    &&& c.classification.category == Category::LlmAssessed
    &&& c.classification.source == SourceView::Llm { provider: provider_name_of(provider), model }
    &&& c.classification.focus_lines matches Some(f) ==> f.side == Side::New
}

proof fn lemma_verdicts_sound(
    verdicts: Seq<JsonView>,
    batch: Seq<UnclassifiedView>,
    provider: LlmProvider,
    model: Seq<char>,
)
    ensures
        forall|i: int|
            0 <= i < verdicts_in(verdicts, batch, provider, model).len() ==> verdict_is_sound(
                #[trigger] verdicts_in(verdicts, batch, provider, model)[i],
                batch,
                provider,
                model,
            ),
    decreases verdicts.len(),
{
    if verdicts.len() > 0 {
        lemma_verdicts_sound(verdicts.drop_last(), batch, provider, model);
        lemma_hunk_with_id(batch, json::text_or(json::member(verdicts.last(), "id"@), ""@));
        let before = verdicts_in(verdicts.drop_last(), batch, provider, model);
        let after = verdicts_in(verdicts, batch, provider, model);
        assert forall|i: int| 0 <= i < after.len() implies verdict_is_sound(
            #[trigger] after[i],
            batch,
            provider,
            model,
        ) by {
            if i < before.len() {
                assert(after[i] == before[i]);
            }
        }
    }
}

proof fn lemma_hunk_with_id(batch: Seq<UnclassifiedView>, id: Seq<char>)
    ensures
        hunk_with_id(batch, id) matches Some(u) ==> batch.contains(u) && u.hunk_id == id,
    decreases batch.len(),
{
    if batch.len() > 0 {
        lemma_hunk_with_id(batch.drop_last(), id);
        if batch.last().hunk_id != id && hunk_with_id(batch, id) is Some {
            let u = hunk_with_id(batch, id).unwrap();
            let k = choose|k: int| 0 <= k < batch.drop_last().len() && batch.drop_last()[k] == u;
            assert(batch[k] == u);
        } else if batch.last().hunk_id == id {
            assert(batch[batch.len() - 1] == batch.last());
        }
    }
}

/// Whatever a model answers, only verdicts on hunks of the batch come out, each
/// under the model's name.
pub proof fn law_verdicts_are_sound(
    raw: Seq<char>,
    batch: Seq<UnclassifiedView>,
    provider: LlmProvider,
    model: Seq<char>,
    i: int,
)
    requires
        0 <= i < response_of(raw, batch, provider, model).len(),
    ensures
        verdict_is_sound(response_of(raw, batch, provider, model)[i], batch, provider, model),
        exists|k: int|
            0 <= k < batch.len() && (#[trigger] batch[k]).hunk_id == response_of(
                raw,
                batch,
                provider,
                model,
            )[i].hunk_id,
{
    let v = json::json_read(json_part(raw)).unwrap();
    let a = json::array_of(json::member(v, "verdicts"@)).unwrap();
    lemma_verdicts_sound(a, batch, provider, model);
    let c = response_of(raw, batch, provider, model)[i];
    assert(c == verdicts_in(a, batch, provider, model)[i]);
    lemma_hunk_with_id(batch, c.hunk_id);
    let u = hunk_with_id(batch, c.hunk_id).unwrap();
    let k = choose|k: int| 0 <= k < batch.len() && batch[k] == u;
    assert(batch[k].hunk_id == c.hunk_id);
}

/// A chosen provider is the one that the flag names, or one whose key is there.
pub proof fn law_chosen_provider(flag: Option<Seq<char>>, keys: ApiKeys, p: LlmProvider)
    requires
        chosen_provider(flag, keys) == Some(p),
    ensures
        flag matches Some(s) ==> provider_named(s) == Some(p),
        flag is None ==> key_of(keys, p) is Some,
{
}

// --- no verdict is lost --------------------------------------------------

/// A classification says of a hunk what a verdict says: its level, rationale and
/// lines, under the name of the model. A verdict that names neither `review` nor
/// `skip` means that the hunk is to be skimmed.
pub open spec fn says(c: ClassifiedView, verdict: JsonView, provider: LlmProvider, model: Seq<char>) -> bool {
    &&& json::member(verdict, "id"@) == JsonView::Text(c.hunk_id)
    &&& json::member(verdict, "level"@) == JsonView::Text("review"@)
        <==> c.classification.level == Level::Review
    &&& json::member(verdict, "level"@) == JsonView::Text("skip"@)
        <==> c.classification.level == Level::Skip
    &&& c.classification.rationale == match json::member(verdict, "rationale"@) {
        JsonView::Text(t) => t,
        _ => Seq::empty(),
    }
    &&& c.classification.category == Category::LlmAssessed
    &&& c.classification.source == SourceView::Llm { provider: provider_name_of(provider), model }
    &&& match (json::member(verdict, "focus_start"@), json::member(verdict, "focus_end"@)) {
        (JsonView::Natural(s), JsonView::Natural(e)) => c.classification.focus_lines == Some(
            FocusLines { start: s as u32, end: e as u32, side: Side::New },
        ),
        _ => c.classification.focus_lines is None,
    }
}

/// A hunk of the batch has this identifier, file and range.
pub open spec fn names_one_of(c: ClassifiedView, batch: Seq<UnclassifiedView>) -> bool {
    exists|k: int|
        0 <= k < batch.len() && (#[trigger] batch[k]).hunk_id == c.hunk_id && batch[k].file_path
            == c.file_path && batch[k].new_range == c.new_range
}

proof fn lemma_hunk_is_found(batch: Seq<UnclassifiedView>, id: Seq<char>, k: int)
    requires
        0 <= k < batch.len(),
        batch[k].hunk_id == id,
    ensures
        hunk_with_id(batch, id) is Some,
    decreases batch.len(),
{
    if k < batch.len() - 1 {
        lemma_hunk_is_found(batch.drop_last(), id, k);
    }
}

proof fn lemma_verdict_is_kept(
    verdicts: Seq<JsonView>,
    batch: Seq<UnclassifiedView>,
    provider: LlmProvider,
    model: Seq<char>,
    v: int,
    k: int,
)
    requires
        0 <= v < verdicts.len(),
        0 <= k < batch.len(),
        json::member(verdicts[v], "id"@) == JsonView::Text(batch[k].hunk_id),
    ensures
        exists|c: int|
            0 <= c < verdicts_in(verdicts, batch, provider, model).len() && says(
                #[trigger] verdicts_in(verdicts, batch, provider, model)[c],
                verdicts[v],
                provider,
                model,
            ) && names_one_of(verdicts_in(verdicts, batch, provider, model)[c], batch),
    decreases verdicts.len(),
{
    let shorter = verdicts.drop_last();
    let before = verdicts_in(shorter, batch, provider, model);
    let out = verdicts_in(verdicts, batch, provider, model);
    if v < verdicts.len() - 1 {
        lemma_verdict_is_kept(shorter, batch, provider, model, v, k);
        let c = choose|c: int|
            0 <= c < before.len() && says(#[trigger] before[c], shorter[v], provider, model)
                && names_one_of(before[c], batch);
        assert(out[c] == before[c]);
    } else {
        let id = batch[k].hunk_id;
        lemma_hunk_is_found(batch, id, k);
        lemma_hunk_with_id(batch, id);
        let u = hunk_with_id(batch, id).unwrap();
        let n = choose|n: int| 0 <= n < batch.len() && batch[n] == u;
        assert(batch[n].hunk_id == id);
        reveal_strlit("review");
        reveal_strlit("skip");
        reveal_strlit("skim");
        reveal_strlit("");
        assert("review"@.len() != "skip"@.len());
        assert("skim"@[3] != "skip"@[3]);
        assert("skim"@.len() != "review"@.len());
        assert(""@ =~= Seq::<char>::empty());
        let c = out[before.len() as int];
        assert(says(c, verdicts[v], provider, model));
        assert(names_one_of(c, batch));
    }
}

/// A text between the first `{` and the last `}` of an answer is what is read of
/// it: what stands around a document, such as a code fence, does not matter.
pub proof fn law_what_surrounds_a_document(before: Seq<char>, inner: Seq<char>, behind: Seq<char>)
    requires
        !before.contains('{'),
        !behind.contains('}'),
        inner.len() >= 2,
        inner[0] == '{',
        inner.last() == '}',
    ensures
        json_part(before + inner + behind) == inner,
{
    let s = before + inner + behind;
    let a = before.len() as int;
    let b = (before.len() + inner.len()) as int;
    assert forall|k: int| 0 <= k < a implies s[k] != '{' by {
        assert(s[k] == before[k]);
        assert(before.contains(before[k]));
    }
    assert(s[a] == inner[0]);
    text::lemma_upto(s, '{', a);
    assert(s[b - 1] == inner.last());
    assert forall|k: int| b <= k < s.len() implies s[k] != '}' by {
        assert(s[k] == behind[k - b]);
        assert(behind.contains(behind[k - b]));
    }
    text::lemma_through_last(s, '}', b);
    assert(s.subrange(a, b) =~= inner);
}

proof fn lemma_replies_grow(
    bodies: Seq<Seq<char>>,
    batches: Seq<Seq<UnclassifiedView>>,
    provider: LlmProvider,
    model: Seq<char>,
    k: int,
)
    requires
        0 <= k < bodies.len(),
        replies_of(bodies, batches, provider, model) is Some,
    ensures
        reply_of(provider, bodies[k]) matches Some(raw) && {
            let out = replies_of(bodies, batches, provider, model).unwrap();
            let part = response_of(raw, batches[k], provider, model);
            forall|c: int| 0 <= c < part.len() ==> out.contains(#[trigger] part[c])
        },
    decreases bodies.len(),
{
    let shorter = bodies.drop_last();
    let before = replies_of(shorter, batches, provider, model).unwrap();
    let out = replies_of(bodies, batches, provider, model).unwrap();
    if k < bodies.len() - 1 {
        lemma_replies_grow(shorter, batches, provider, model, k);
        let part = response_of(reply_of(provider, bodies[k]).unwrap(), batches[k], provider, model);
        assert forall|c: int| 0 <= c < part.len() implies out.contains(#[trigger] part[c]) by {
            assert(before.contains(part[c]));
            let n = choose|n: int| 0 <= n < before.len() && before[n] == part[c];
            assert(out[n] == part[c]);
        }
    } else {
        let part = response_of(reply_of(provider, bodies[k]).unwrap(), batches[k], provider, model);
        assert forall|c: int| 0 <= c < part.len() implies out.contains(#[trigger] part[c]) by {
            assert(out[before.len() + c] == part[c]);
        }
    }
}

/// No verdict on a hunk that was asked about is lost: whatever else the replies
/// hold, a verdict in the reply to a request that names a hunk of that request is
/// among the results, as it was given.
pub proof fn law_no_verdict_is_lost(
    hunks: Seq<UnclassifiedView>,
    bodies: Seq<Seq<char>>,
    provider: LlmProvider,
    model: Seq<char>,
    k: int,
    answer: JsonView,
    verdicts: Seq<JsonView>,
    v: int,
    n: int,
)
    requires
        replies_of(bodies, batches_of(hunks), provider, model) is Some,
        0 <= k < bodies.len() == batches_of(hunks).len(),
        reply_of(provider, bodies[k]) matches Some(raw) && json::json_read(json_part(raw)) == Some(
            answer,
        ),
        json::member(answer, "verdicts"@) == JsonView::Array(verdicts),
        0 <= v < verdicts.len(),
        0 <= n < batches_of(hunks)[k].len(),
        json::member(verdicts[v], "id"@) == JsonView::Text(batches_of(hunks)[k][n].hunk_id),
    ensures
        exists|c: int|
            0 <= c < replies_of(bodies, batches_of(hunks), provider, model).unwrap().len() && says(
                #[trigger] replies_of(bodies, batches_of(hunks), provider, model).unwrap()[c],
                verdicts[v],
                provider,
                model,
            ) && names_one_of(
                replies_of(bodies, batches_of(hunks), provider, model).unwrap()[c],
                batches_of(hunks)[k],
            ),
{
    let batches = batches_of(hunks);
    let out = replies_of(bodies, batches, provider, model).unwrap();
    let raw = reply_of(provider, bodies[k]).unwrap();
    let part = response_of(raw, batches[k], provider, model);
    lemma_replies_grow(bodies, batches, provider, model, k);
    lemma_verdict_is_kept(verdicts, batches[k], provider, model, v, n);
    let c = choose|c: int|
        0 <= c < part.len() && says(#[trigger] part[c], verdicts[v], provider, model)
            && names_one_of(part[c], batches[k]);
    assert(out.contains(part[c]));
    let p = choose|p: int| 0 <= p < out.len() && out[p] == part[c];
    assert(says(out[p], verdicts[v], provider, model));
}

/// Where the body of a reply has the shape that a provider documents, the text in
/// it is what is read.
pub proof fn law_replies_are_read(provider: LlmProvider, body: Seq<char>, reply: JsonView, t: Seq<char>)
    requires
        json::json_read(body) == Some(reply),
        match provider {
            LlmProvider::Anthropic => json::member(reply, "content"@) matches JsonView::Array(a)
                && a.len() > 0 && json::member(a[0], "text"@) == JsonView::Text(t),
            _ => json::member(reply, "choices"@) matches JsonView::Array(a) && a.len() > 0
                && json::member(json::member(a[0], "message"@), "content"@) == JsonView::Text(t),
        },
    ensures
        reply_of(provider, body) == Some(t),
{
}

// --- no verdict is made up -----------------------------------------------

/// Some reply holds a verdict that says what this classification says, on a hunk
/// of the request that it answers.
pub open spec fn was_answered(
    c: ClassifiedView,
    bodies: Seq<Seq<char>>,
    batches: Seq<Seq<UnclassifiedView>>,
    provider: LlmProvider,
    model: Seq<char>,
) -> bool {
    exists|k: int, v: JsonView|
        0 <= k < bodies.len() && #[trigger] answers_with(bodies[k], provider, v) && says(
            c,
            v,
            provider,
            model,
        ) && #[trigger] names_one_of(c, batches[k])
}

/// The body of a reply holds this verdict.
pub open spec fn answers_with(body: Seq<char>, provider: LlmProvider, verdict: JsonView) -> bool {
    &&& reply_of(provider, body) matches Some(raw)
    &&& json::json_read(json_part(raw)) matches Some(answer)
    &&& json::member(answer, "verdicts"@) matches JsonView::Array(vs)
    &&& vs.contains(verdict)
}

proof fn lemma_verdicts_say(
    verdicts: Seq<JsonView>,
    batch: Seq<UnclassifiedView>,
    provider: LlmProvider,
    model: Seq<char>,
    c: int,
)
    requires
        0 <= c < verdicts_in(verdicts, batch, provider, model).len(),
    ensures
        exists|v: int|
            0 <= v < verdicts.len() && says(
                verdicts_in(verdicts, batch, provider, model)[c],
                #[trigger] verdicts[v],
                provider,
                model,
            ),
        names_one_of(verdicts_in(verdicts, batch, provider, model)[c], batch),
    decreases verdicts.len(),
{
    let rest = verdicts.drop_last();
    let before = verdicts_in(rest, batch, provider, model);
    let out = verdicts_in(verdicts, batch, provider, model);
    if c < before.len() {
        lemma_verdicts_say(rest, batch, provider, model, c);
        let v = choose|v: int|
            0 <= v < rest.len() && says(before[c], #[trigger] rest[v], provider, model);
        assert(out[c] == before[c]);
        assert(verdicts[v] == rest[v]);
    } else {
        let v = verdicts.last();
        let id = json::text_of(json::member(v, "id"@)).unwrap();
        lemma_hunk_with_id(batch, id);
        let u = hunk_with_id(batch, id).unwrap();
        let n = choose|n: int| 0 <= n < batch.len() && batch[n] == u;
        assert(batch[n].hunk_id == id);
        reveal_strlit("review");
        reveal_strlit("skip");
        reveal_strlit("skim");
        reveal_strlit("");
        assert(""@ =~= Seq::<char>::empty());
        assert("review"@.len() == 6 && "skip"@.len() == 4);
        assert("skim"@.len() == 4 && "skim"@[3] == 'm' && "skip"@[3] == 'p');
        assert(says(out[c], v, provider, model));
        assert(verdicts[verdicts.len() - 1] == v);
    }
}

/// Every result is a verdict that a reply holds, as it was given, on a hunk of the
/// request that the reply answers. There are results exactly where the body of
/// every reply is a JSON document.
pub proof fn law_no_verdict_is_made_up(
    bodies: Seq<Seq<char>>,
    batches: Seq<Seq<UnclassifiedView>>,
    provider: LlmProvider,
    model: Seq<char>,
)
    ensures
        replies_of(bodies, batches, provider, model) is Some <==> forall|k: int|
            0 <= k < bodies.len() ==> json::json_read(#[trigger] bodies[k]) is Some,
        replies_of(bodies, batches, provider, model) matches Some(out) ==> forall|c: int|
            0 <= c < out.len() ==> was_answered(
                #[trigger] out[c],
                bodies,
                batches,
                provider,
                model,
            ),
    decreases bodies.len(),
{
    if bodies.len() > 0 {
        let rest = bodies.drop_last();
        let last = bodies.len() - 1;
        law_no_verdict_is_made_up(rest, batches, provider, model);
        if replies_of(bodies, batches, provider, model) is Some {
            let before = replies_of(rest, batches, provider, model).unwrap();
            let out = replies_of(bodies, batches, provider, model).unwrap();
            assert forall|k: int| 0 <= k < bodies.len() implies json::json_read(
                #[trigger] bodies[k],
            ) is Some by {
                if k < last {
                    assert(json::json_read(rest[k]) is Some);
                }
            }
            let raw = reply_of(provider, bodies[last]).unwrap();
            let part = response_of(raw, batches[last], provider, model);
            assert forall|c: int| 0 <= c < out.len() implies was_answered(
                #[trigger] out[c],
                bodies,
                batches,
                provider,
                model,
            ) by {
                if c < before.len() {
                    assert(was_answered(before[c], rest, batches, provider, model));
                    let (k, v) = choose|k: int, v: JsonView|
                        0 <= k < rest.len() && #[trigger] answers_with(rest[k], provider, v) && says(
                            before[c],
                            v,
                            provider,
                            model,
                        ) && #[trigger] names_one_of(before[c], batches[k]);
                    assert(bodies[k] == rest[k]);
                    assert(out[c] == before[c]);
                    assert(answers_with(bodies[k], provider, v));
                    assert(names_one_of(out[c], batches[k]));
                } else {
                    let d = c - before.len();
                    assert(out[c] == part[d]);
                    let answer = json::json_read(json_part(raw)).unwrap();
                    let vs = json::array_of(json::member(answer, "verdicts"@)).unwrap();
                    lemma_verdicts_say(vs, batches[last], provider, model, d);
                    let v = choose|v: int|
                        0 <= v < vs.len() && says(part[d], #[trigger] vs[v], provider, model);
                    assert(vs.contains(vs[v]));
                    assert(answers_with(bodies[last], provider, vs[v]));
                    assert(names_one_of(out[c], batches[last]));
                }
            }
        } else if forall|k: int|
            0 <= k < bodies.len() ==> json::json_read(#[trigger] bodies[k]) is Some {
            assert(json::json_read(bodies[last]) is Some);
            assert forall|k: int| 0 <= k < rest.len() implies json::json_read(
                #[trigger] rest[k],
            ) is Some by {
                assert(json::json_read(bodies[k]) is Some);
            }
        }
    }
}

// --- what a request says -------------------------------------------------

proof fn lemma_marked_lines(mark: Seq<char>, ls: Seq<Seq<char>>, i: int)
    requires
        0 <= i < ls.len(),
    ensures
        text::contains(marked(mark, ls), mark + ls[i] + "\n"@),
    decreases ls.len(),
{
    let rest = marked(mark, ls.drop_last());
    let last = mark + ls.last() + "\n"@;
    assert(marked(mark, ls) =~= rest + last);
    if i < ls.len() - 1 {
        lemma_marked_lines(mark, ls.drop_last(), i);
    } else {
        text::lemma_contains_itself(last);
    }
    text::lemma_contains_add(rest, last, mark + ls[i] + "\n"@);
}

/// The prompt tells of a hunk: its identifier, its file, and every line of either
/// side with a mark of its own.
pub open spec fn prompt_tells(prompt: Seq<char>, u: UnclassifiedView) -> bool {
    &&& text::contains(prompt, "Hunk "@ + u.hunk_id + "\n  File: "@ + u.file_path)
    &&& forall|i: int|
        0 <= i < u.old_lines.len() ==> text::contains(
            prompt,
            "  -"@ + #[trigger] u.old_lines[i] + "\n"@,
        )
    &&& forall|i: int|
        0 <= i < u.new_lines.len() ==> text::contains(
            prompt,
            "  +"@ + #[trigger] u.new_lines[i] + "\n"@,
        )
}

proof fn lemma_tells_more(a: Seq<char>, b: Seq<char>, u: UnclassifiedView)
    ensures
        prompt_tells(a, u) ==> prompt_tells(a + b, u),
        prompt_tells(b, u) ==> prompt_tells(a + b, u),
{
    text::lemma_contains_add(a, b, "Hunk "@ + u.hunk_id + "\n  File: "@ + u.file_path);
    assert forall|i: int|
        0 <= i < u.old_lines.len() && (prompt_tells(a, u) || prompt_tells(b, u)) implies text::contains(
        a + b,
        "  -"@ + #[trigger] u.old_lines[i] + "\n"@,
    ) by {
        text::lemma_contains_add(a, b, "  -"@ + u.old_lines[i] + "\n"@);
    }
    assert forall|i: int|
        0 <= i < u.new_lines.len() && (prompt_tells(a, u) || prompt_tells(b, u)) implies text::contains(
        a + b,
        "  +"@ + #[trigger] u.new_lines[i] + "\n"@,
    ) by {
        text::lemma_contains_add(a, b, "  +"@ + u.new_lines[i] + "\n"@);
    }
}

proof fn lemma_hunk_prompt(u: UnclassifiedView)
    ensures
        prompt_tells(hunk_prompt(u), u),
{
    let title = "Hunk "@ + u.hunk_id + "\n  File: "@ + u.file_path;
    let kind = " ("@ + language_label(u.language) + ")\n  --- old\n"@;
    let old = marked("  -"@, u.old_lines);
    let new = marked("  +"@, u.new_lines);
    let p = hunk_prompt(u);
    assert(p =~= title + (kind + old + "  +++ new\n"@ + new + "\n"@));
    text::lemma_contains_itself(title);
    text::lemma_contains_add(title, kind + old + "  +++ new\n"@ + new + "\n"@, title);
    assert forall|i: int| 0 <= i < u.old_lines.len() implies text::contains(
        p,
        "  -"@ + #[trigger] u.old_lines[i] + "\n"@,
    ) by {
        let l = "  -"@ + u.old_lines[i] + "\n"@;
        lemma_marked_lines("  -"@, u.old_lines, i);
        text::lemma_contains_add(title + kind, old, l);
        text::lemma_contains_add(title + kind + old, "  +++ new\n"@ + new + "\n"@, l);
        assert(p =~= title + kind + old + ("  +++ new\n"@ + new + "\n"@));
    }
    assert forall|i: int| 0 <= i < u.new_lines.len() implies text::contains(
        p,
        "  +"@ + #[trigger] u.new_lines[i] + "\n"@,
    ) by {
        let l = "  +"@ + u.new_lines[i] + "\n"@;
        lemma_marked_lines("  +"@, u.new_lines, i);
        text::lemma_contains_add(title + kind + old + "  +++ new\n"@, new, l);
        text::lemma_contains_add(title + kind + old + "  +++ new\n"@ + new, "\n"@, l);
        assert(p =~= title + kind + old + "  +++ new\n"@ + new + "\n"@);
    }
}

proof fn lemma_prompts_tell(batch: Seq<UnclassifiedView>, i: int)
    requires
        0 <= i < batch.len(),
    ensures
        prompt_tells(hunk_prompts(batch), batch[i]),
    decreases batch.len(),
{
    if i < batch.len() - 1 {
        lemma_prompts_tell(batch.drop_last(), i);
    } else {
        lemma_hunk_prompt(batch[i]);
    }
    lemma_tells_more(hunk_prompts(batch.drop_last()), hunk_prompt(batch.last()), batch[i]);
}

proof fn lemma_in_a_batch(batches: Seq<Seq<UnclassifiedView>>, i: int)
    requires
        0 <= i < joined(batches).len(),
    ensures
        exists|b: int, k: int|
            0 <= b < batches.len() && 0 <= k < batches[b].len() && #[trigger] batches[b][k]
                == joined(batches)[i],
    decreases batches.len(),
{
    let rest = batches.drop_last();
    if i < joined(rest).len() {
        lemma_in_a_batch(rest, i);
        let (b, k) = choose|b: int, k: int|
            0 <= b < rest.len() && 0 <= k < rest[b].len() && #[trigger] rest[b][k] == joined(
                rest,
            )[i];
        assert(batches[b][k] == joined(batches)[i]);
    } else {
        let k = i - joined(rest).len();
        assert(batches[batches.len() - 1][k] == joined(batches)[i]);
    }
}

/// Every hunk is asked about: some request tells of it.
pub proof fn law_every_hunk_is_asked_about(
    config: LlmConfig,
    hunks: Seq<UnclassifiedView>,
    i: int,
)
    requires
        0 <= i < hunks.len(),
    ensures
        requests_of(config, hunks).len() == batches_of(hunks).len(),
        exists|b: int|
            0 <= b < batches_of(hunks).len() && batches_of(hunks)[b].contains(hunks[i])
                && prompt_tells(prompt_of(#[trigger] batches_of(hunks)[b]), hunks[i])
                && requests_of(config, hunks)[b] == request_of(
                config,
                8192,
                SYSTEM_PROMPT@,
                prompt_of(batches_of(hunks)[b]),
            ),
{
    let batches = batches_of(hunks);
    law_batches(hunks);
    lemma_in_a_batch(batches, i);
    let (b, k) = choose|b: int, k: int|
        0 <= b < batches.len() && 0 <= k < batches[b].len() && #[trigger] batches[b][k] == joined(
            batches,
        )[i];
    assert(batches[b][k] == hunks[i]);
    lemma_prompts_tell(batches[b], k);
    lemma_tells_more(hunk_prompts(batches[b]), VERDICT_FORMAT@, hunks[i]);
}

/// A request goes to the address of its provider, under the key, and its body
/// names the model, gives the instructions, and asks what is to be asked as the
/// last message.
pub proof fn law_requests(
    config: LlmConfig,
    max_tokens: u64,
    system: Seq<char>,
    user: Seq<char>,
)
    ensures
        ({
            let q = request_of(config, max_tokens, system, user);
            let b = body_json(config.provider, config.model@, max_tokens, system, user);
            let ms = json::member(b, "messages"@);
            &&& q.body == json::json_compact(b)
            &&& json::member(b, "model"@) == JsonView::Text(config.model@)
            &&& config.provider == LlmProvider::Anthropic ==> {
                &&& q.url == config.base_url@ + "/v1/messages"@
                &&& q.headers.contains(("x-api-key"@, config.api_key@))
                &&& q.headers.contains(("anthropic-version"@, "2023-06-01"@))
                &&& json::member(b, "system"@) == JsonView::Text(system)
                &&& json::member(b, "max_tokens"@) == JsonView::Natural(max_tokens)
                &&& ms matches JsonView::Array(a)
                &&& a.len() == 1
                &&& json::member(a[0], "role"@) == JsonView::Text("user"@)
                &&& json::member(a[0], "content"@) == JsonView::Text(user)
            }
            &&& config.provider != LlmProvider::Anthropic ==> {
                &&& q.url == config.base_url@ + "/v1/chat/completions"@
                &&& q.headers.contains(("Authorization"@, "Bearer "@ + config.api_key@))
                &&& ms matches JsonView::Array(a)
                &&& a.len() == 2
                &&& json::member(a[0], "role"@) == JsonView::Text("system"@)
                &&& json::member(a[0], "content"@) == JsonView::Text(system)
                &&& json::member(a[1], "role"@) == JsonView::Text("user"@)
                &&& json::member(a[1], "content"@) == JsonView::Text(user)
            }
            &&& q.headers.contains(("content-type"@, "application/json"@))
        }),
{
    reveal_strlit("model");
    reveal_strlit("max_tokens");
    reveal_strlit("system");
    reveal_strlit("messages");
    reveal_strlit("role");
    reveal_strlit("content");
    assert("model"@.len() == 5 && "max_tokens"@.len() == 10 && "system"@.len() == 6
        && "messages"@.len() == 8 && "role"@.len() == 4 && "content"@.len() == 7);
    let q = request_of(config, max_tokens, system, user);
    let b = body_json(config.provider, config.model@, max_tokens, system, user);
    let m = b->Object_0;
    lemma_message("user"@, user);
    lemma_message("system"@, system);
    json::law_member(m, "model"@, 0);
    match config.provider {
        LlmProvider::Anthropic => {
            json::law_member(m, "max_tokens"@, 1);
            json::law_member(m, "system"@, 2);
            json::law_member(m, "messages"@, 3);
            assert(q.headers[0] == ("x-api-key"@, config.api_key@));
            assert(q.headers[1] == ("anthropic-version"@, "2023-06-01"@));
            assert(q.headers[2] == ("content-type"@, "application/json"@));
        },
        _ => {
            json::law_member(m, "messages"@, 1);
            assert(q.headers[0] == ("Authorization"@, "Bearer "@ + config.api_key@));
            assert(q.headers[1] == ("content-type"@, "application/json"@));
        },
    }
}

proof fn lemma_message(role: Seq<char>, content: Seq<char>)
    ensures
        json::member(message_json(role, content), "role"@) == JsonView::Text(role),
        json::member(message_json(role, content), "content"@) == JsonView::Text(content),
{
    reveal_strlit("role");
    reveal_strlit("content");
    assert("role"@.len() == 4 && "content"@.len() == 7);
    let m = message_json(role, content)->Object_0;
    json::law_member(m, "role"@, 0);
    json::law_member(m, "content"@, 1);
}

/// A flag names its provider; without one the first provider with a key is asked,
/// in a fixed order. A model or an address that is given is used, and else the one
/// that goes with the provider; the key is always the provider's own.
pub proof fn law_detected_settings(
    flag: Option<Seq<char>>,
    model: Option<Seq<char>>,
    url: Option<Seq<char>>,
    keys: ApiKeys,
    anthropic_model: Seq<char>,
    c: LlmConfig,
)
    requires
        provider_detected(
            flag,
            model,
            url,
            keys,
            anthropic_model,
            Ok::<LlmConfig, ProviderError>(c),
        ),
    ensures
        flag matches Some(s) ==> {
            &&& c.provider == LlmProvider::Anthropic ==> s == "anthropic"@
            &&& c.provider == LlmProvider::OpenAI ==> s == "openai"@
            &&& c.provider == LlmProvider::Ollama ==> s == "ollama"@
        },
        flag is None ==> {
            &&& c.provider == LlmProvider::Anthropic <==> keys.anthropic is Some
            &&& c.provider == LlmProvider::OpenAI ==> keys.anthropic is None
            &&& c.provider == LlmProvider::Ollama ==> keys.anthropic is None && keys.openai is None
        },
        c.provider == LlmProvider::Anthropic ==> text::opt_view(keys.anthropic) == Some(c.api_key@),
        c.provider == LlmProvider::OpenAI ==> text::opt_view(keys.openai) == Some(c.api_key@),
        c.provider == LlmProvider::Ollama ==> text::opt_view(keys.ollama) == Some(c.api_key@),
        model matches Some(m) ==> c.model@ == m,
        model is None && c.provider == LlmProvider::Anthropic ==> c.model@ == anthropic_model,
        model is None && c.provider == LlmProvider::OpenAI ==> c.model@ == "gpt-4o-mini"@,
        model is None && c.provider == LlmProvider::Ollama ==> c.model@ == "llama3.2"@,
        url matches Some(u) ==> c.base_url@ == u,
        url is None && c.provider == LlmProvider::Anthropic ==> c.base_url@
            == "https://api.anthropic.com"@,
        url is None && c.provider == LlmProvider::OpenAI ==> c.base_url@
            == "https://api.openai.com"@,
        url is None && c.provider == LlmProvider::Ollama ==> c.base_url@ == "https://api.ollama.ai"@,
{
}

/// A hunk counts in a batch by the bytes of its path and its lines, each line
/// with its mark and end, and a fixed amount beside.
pub proof fn law_hunk_size(u: UnclassifiedView, line: Seq<char>)
    ensures
        u.old_lines.len() == 0 && u.new_lines.len() == 0 ==> hunk_size(u) == text::bytes_len(
            u.file_path,
        ) + 256,
        hunk_size(UnclassifiedView { old_lines: u.old_lines.push(line), ..u }) == hunk_size(u)
            + text::bytes_len(line) + 2,
        hunk_size(UnclassifiedView { new_lines: u.new_lines.push(line), ..u }) == hunk_size(u)
            + text::bytes_len(line) + 2,
{
    assert(u.old_lines.push(line).drop_last() =~= u.old_lines);
    assert(u.new_lines.push(line).drop_last() =~= u.new_lines);
}

/// Where the body of a reply is a JSON document but has no text in the place that
/// a provider documents, what is read is empty.
pub proof fn law_replies_without_text(provider: LlmProvider, body: Seq<char>, reply: JsonView)
    requires
        json::json_read(body) == Some(reply),
        match provider {
            LlmProvider::Anthropic => !(json::member(reply, "content"@) matches JsonView::Array(a)
                && a.len() > 0 && json::member(a[0], "text"@) is Text),
            _ => !(json::member(reply, "choices"@) matches JsonView::Array(a) && a.len() > 0
                && json::member(json::member(a[0], "message"@), "content"@) is Text),
        },
    ensures
        reply_of(provider, body) == Some(Seq::<char>::empty()),
{
}

/// The names of the providers, as findings give them.
pub proof fn law_provider_names()
    ensures
        provider_name_of(LlmProvider::Anthropic) == "Anthropic"@,
        provider_name_of(LlmProvider::OpenAI) == "OpenAI"@,
        provider_name_of(LlmProvider::Ollama) == "Ollama"@,
{
}

/// A verdict on a hunk of the batch is one result, behind those before it; any
/// other is none. The results of a reply stand behind those of the replies before
/// it.
pub proof fn law_one_result_per_verdict(
    verdicts: Seq<JsonView>,
    v: JsonView,
    batch: Seq<UnclassifiedView>,
    provider: LlmProvider,
    model: Seq<char>,
    bodies: Seq<Seq<char>>,
    body: Seq<char>,
    batches: Seq<Seq<UnclassifiedView>>,
)
    ensures
        ({
            let before = verdicts_in(verdicts, batch, provider, model);
            let after = verdicts_in(verdicts.push(v), batch, provider, model);
            let named = exists|k: int|
                0 <= k < batch.len() && json::member(v, "id"@) == JsonView::Text(
                    (#[trigger] batch[k]).hunk_id,
                );
            &&& !named ==> after == before
            &&& named ==> after.len() == before.len() + 1 && after.drop_last() == before && says(
                after.last(),
                v,
                provider,
                model,
            )
        }),
        verdicts_in(Seq::empty(), batch, provider, model).len() == 0,
        replies_of(bodies.push(body), batches, provider, model) == match (
            replies_of(bodies, batches, provider, model),
            reply_of(provider, body),
        ) {
            (Some(before), Some(raw)) => match json::json_read(json_part(raw)) {
                Some(answer) => match json::member(answer, "verdicts"@) {
                    JsonView::Array(vs) => Some(
                        before + verdicts_in(vs, batches[bodies.len() as int], provider, model),
                    ),
                    _ => Some(before),
                },
                None => Some(before),
            },
            _ => None,
        },
{
    let before = verdicts_in(verdicts, batch, provider, model);
    let all = verdicts.push(v);
    let after = verdicts_in(all, batch, provider, model);
    assert(all.drop_last() =~= verdicts);
    assert(all.last() == v);
    if exists|k: int|
        0 <= k < batch.len() && json::member(v, "id"@) == JsonView::Text(
            (#[trigger] batch[k]).hunk_id,
        ) {
        let k = choose|k: int|
            0 <= k < batch.len() && json::member(v, "id"@) == JsonView::Text(
                (#[trigger] batch[k]).hunk_id,
            );
        lemma_hunk_is_found(batch, batch[k].hunk_id, k);
        assert(after.drop_last() =~= before);
        reveal_strlit("review");
        reveal_strlit("skip");
        reveal_strlit("skim");
        reveal_strlit("");
        assert(""@ =~= Seq::<char>::empty());
        assert("review"@.len() == 6 && "skip"@.len() == 4);
        assert("skim"@.len() == 4 && "skim"@[3] == 'm' && "skip"@[3] == 'p');
    } else {
        match json::text_of(json::member(v, "id"@)) {
            Some(id) => {
                lemma_hunk_with_id(batch, id);
                match hunk_with_id(batch, id) {
                    Some(u) => {
                        let n = choose|n: int| 0 <= n < batch.len() && batch[n] == u;
                        assert(batch[n].hunk_id == id);
                    },
                    None => {},
                }
            },
            None => {},
        }
    }
    assert(bodies.push(body).drop_last() =~= bodies);
    assert(bodies.push(body).last() == body);
    match replies_of(bodies, batches, provider, model) {
        Some(b) => {
            assert(b + Seq::<ClassifiedView>::empty() =~= b);
        },
        None => {},
    }
}

} // verus!
