use garbelour::json::parse;
use garbelour::llm::{
    answer_fault, build_batches, build_prompt, build_requests, classify_hunks, content, detect_provider,
    extract_json, read_verdicts, reply_text, AnswerFault, ApiKeys, LlmConfig, LlmProvider, ProviderError,
    BATCH_PAYLOAD_LIMIT,
};
use garbelour::{HunkId, Language, Level, LineRange, Unclassified};

fn hunk(id: &str, lines: Vec<String>) -> Unclassified {
    Unclassified {
        hunk_id: HunkId(id.to_string()),
        file_path: "src/x.rs".to_string(),
        language: Some(Language::Rust),
        old_range: LineRange { start: 1, count: 1 },
        new_range: LineRange { start: 2, count: 3 },
        old_lines: vec![],
        new_lines: lines,
    }
}

fn config(provider: LlmProvider) -> LlmConfig {
    LlmConfig {
        provider,
        model: "m".to_string(),
        api_key: "k".to_string(),
        base_url: "http://h".to_string(),
    }
}

fn keys(anthropic: bool, openai: bool, ollama: bool) -> ApiKeys {
    let key = |on: bool, name: &str| if on { Some(name.to_string()) } else { None };
    ApiKeys {
        anthropic: key(anthropic, "ka"),
        openai: key(openai, "ko"),
        ollama: key(ollama, "kl"),
    }
}

#[test]
fn first_key_in_the_environment_decides() {
    let all = detect_provider(None, None, None, &keys(true, true, true), "small").unwrap();
    assert_eq!(all.provider, LlmProvider::Anthropic);
    assert_eq!((all.api_key.as_str(), all.model.as_str()), ("ka", "small"));
    assert_eq!(all.base_url, "https://api.anthropic.com");
    let two = detect_provider(None, None, None, &keys(false, true, true), "small").unwrap();
    assert_eq!(two.provider, LlmProvider::OpenAI);
    assert_eq!(two.model, "gpt-4o-mini");
    let one = detect_provider(None, None, None, &keys(false, false, true), "small").unwrap();
    assert_eq!(one.provider, LlmProvider::Ollama);
    assert_eq!((one.model.as_str(), one.base_url.as_str()), ("llama3.2", "https://api.ollama.ai"));
    assert_eq!(one.provider_name(), "Ollama");
}

#[test]
fn flags_override_defaults() {
    let c = detect_provider(Some("openai"), Some("big"), Some("http://local"), &keys(true, true, false), "small")
        .unwrap();
    assert_eq!(c.provider, LlmProvider::OpenAI);
    assert_eq!((c.model.as_str(), c.base_url.as_str()), ("big", "http://local"));
    assert_eq!(c.api_key, "ko");
}

#[test]
fn missing_keys_and_unknown_names_are_errors() {
    let e = detect_provider(Some("other"), None, None, &keys(true, true, true), "small").unwrap_err();
    assert!(matches!(&e, ProviderError::Unknown(s) if s == "other"));
    assert_eq!(
        e.message(),
        "unknown --llm-provider 'other'; expected: anthropic, openai, ollama"
    );
    let e = detect_provider(None, None, None, &keys(false, false, false), "small").unwrap_err();
    assert!(matches!(e, ProviderError::NoKey));
    assert!(e.message().starts_with("garbelour --llm requires an API key in the environment.\n"));
    let e = detect_provider(Some("ollama"), None, None, &keys(true, true, false), "small").unwrap_err();
    assert!(matches!(e, ProviderError::KeyNotSet(LlmProvider::Ollama)));
    assert_eq!(
        e.message(),
        "garbelour --llm: provider 'Ollama' selected but OLLAMA_API_KEY is not set"
    );
}

#[test]
fn batches_break_where_they_grow_too_large() {
    let large = "x".repeat(BATCH_PAYLOAD_LIMIT / 2);
    let hunks = vec![
        hunk("a", vec![large.clone()]),
        hunk("b", vec![large.clone()]),
        hunk("c", vec![]),
        hunk("d", vec![large.clone(), large]),
    ];
    let batches = build_batches(&hunks);
    let ids: Vec<Vec<&str>> = batches
        .iter()
        .map(|b| b.iter().map(|h| h.hunk_id.0.as_str()).collect())
        .collect();
    assert_eq!(ids, vec![vec!["a"], vec!["b", "c"], vec!["d"]]);
    // A batch takes what there is room for.
    let small: Vec<Unclassified> = (0..50).map(|_| hunk("s", vec!["x".repeat(1000)])).collect();
    let counts: Vec<usize> = build_batches(&small).iter().map(|b| b.len()).collect();
    assert_eq!(counts, vec![19, 19, 12]);
}

#[test]
fn prompt_is_written_hunk_by_hunk() {
    let mut u = hunk("src/x.rs:2", vec!["new".to_string()]);
    u.old_lines = vec!["old".to_string(), "".to_string()];
    u.language = None;
    let prompt = build_prompt(&[u]);
    assert!(prompt.starts_with(
        "Hunk src/x.rs:2\n  File: src/x.rs (unknown)\n  --- old\n  -old\n  -\n  +++ new\n  +new\n\nRespond"
    ));
}

#[test]
fn requests_have_the_form_of_their_provider() {
    let hunks = vec![hunk("a", vec![])];
    let r = &build_requests(&hunks, &config(LlmProvider::Anthropic))[0];
    assert_eq!(r.url, "http://h/v1/messages");
    assert_eq!(r.headers[0], ("x-api-key".to_string(), "k".to_string()));
    assert_eq!(r.headers[1], ("anthropic-version".to_string(), "2023-06-01".to_string()));
    let body: serde_json::Value = serde_json::from_str(&r.body).unwrap();
    assert_eq!(body["max_tokens"], 8192);
    assert_eq!(body["messages"][0]["role"], "user");
    assert_eq!(body["messages"][0]["content"], build_prompt(&hunks).as_str());
    let system = body["system"].as_str().unwrap();
    assert!(system.starts_with("You are not reviewing code. Your only job is to decide how much"));
    assert!(system.contains("a human reader should spend on each diff hunk."));
    assert!(system.ends_with("Output a single line of justification per hunk, no more."));

    let r = &build_requests(&hunks, &config(LlmProvider::Ollama))[0];
    assert_eq!(r.url, "http://h/v1/chat/completions");
    assert_eq!(r.headers[0], ("Authorization".to_string(), "Bearer k".to_string()));
    let body: serde_json::Value = serde_json::from_str(&r.body).unwrap();
    assert!(body.get("max_tokens").is_none());
    assert_eq!(body["messages"][0]["role"], "system");
    assert!(build_requests(&[], &config(LlmProvider::Ollama)).is_empty());
}

#[test]
fn replies_are_read_as_their_provider_writes_them() {
    let a = "{\"content\":[{\"text\":\"hello\"}]}";
    let o = "{\"choices\":[{\"message\":{\"content\":\"hello\"}}]}";
    assert_eq!(reply_text(LlmProvider::Anthropic, a).unwrap(), "hello");
    assert_eq!(reply_text(LlmProvider::OpenAI, o).unwrap(), "hello");
    assert_eq!(reply_text(LlmProvider::OpenAI, a).unwrap(), "");
    assert!(reply_text(LlmProvider::Anthropic, "<html>").is_none());
    assert_eq!(content(LlmProvider::Ollama, &parse(o).unwrap()), "hello");
}

#[test]
fn json_is_cut_from_the_first_to_the_last_brace() {
    assert_eq!(extract_json("a {b} c {d} e"), "{b} c {d}");
    assert_eq!(extract_json("} {"), "} {");
    assert_eq!(extract_json("{"), "{");
}

#[test]
fn verdicts_are_only_of_hunks_that_were_asked_about() {
    let batch = vec![hunk("a", vec![]), hunk("b", vec![])];
    let answer = parse(
        "{\"verdicts\":[{\"id\":\"b\",\"level\":\"skip\",\"focus_start\":1},{\"id\":\"z\"},{\"level\":\"skip\"},\
         {\"id\":\"a\",\"focus_start\":5,\"focus_end\":4294967301,\"rationale\":7}]}",
    )
    .unwrap();
    let out = read_verdicts(&answer, &batch, &config(LlmProvider::OpenAI));
    assert_eq!(out.len(), 2);
    assert_eq!(out[0].hunk_id.0, "b");
    assert_eq!(out[0].classification.level, Level::Skip);
    assert!(out[0].classification.focus_lines.is_none());
    assert_eq!(out[0].new_range, LineRange { start: 2, count: 3 });
    assert_eq!(out[1].classification.level, Level::Skim);
    assert_eq!(out[1].classification.rationale, "");
    let focus = out[1].classification.focus_lines.unwrap();
    assert_eq!((focus.start, focus.end), (5, 5));
    assert!(read_verdicts(&parse("[]").unwrap(), &batch, &config(LlmProvider::OpenAI)).is_empty());
}

#[test]
fn replies_are_read_in_order() {
    let hunks = vec![hunk("a", vec![])];
    let c = config(LlmProvider::Anthropic);
    let good = "{\"content\":[{\"text\":\"{\\\"verdicts\\\":[{\\\"id\\\":\\\"a\\\",\\\"level\\\":\\\"review\\\"}]}\"}]}";
    let out = classify_hunks(&hunks, &vec![good.to_string()], &c).unwrap();
    assert_eq!(out.len(), 1);
    assert_eq!(out[0].classification.level, Level::Review);
    assert!(classify_hunks(&hunks, &vec!["no".to_string()], &c).is_none());
}

#[test]
fn what_is_wrong_with_an_answer_is_told() {
    assert!(matches!(answer_fault("no document"), Some(AnswerFault::NotJson(_))));
    assert!(matches!(answer_fault("{\"verdicts\": 3}"), Some(AnswerFault::NoVerdicts)));
    assert!(matches!(answer_fault("{}"), Some(AnswerFault::NoVerdicts)));
    assert!(answer_fault("```json\n{\"verdicts\": []}\n```").is_none());
    assert!(garbelour::consolidate::answer_fault("no document").is_some());
    assert!(garbelour::consolidate::answer_fault("{}").is_none());
}
