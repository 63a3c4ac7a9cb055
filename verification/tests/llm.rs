use garbelour::llm::{
    build_batches, build_prompt, detect_provider, extract_json, parse_response, ApiKeys, LlmConfig,
    LlmProvider,
};
use garbelour::{HunkId, Language, Level, LineRange, Side, Source, Unclassified};

fn unclassified(id: &str, path: &str, line: u32) -> Unclassified {
    Unclassified {
        hunk_id: HunkId(id.to_string()),
        file_path: path.to_string(),
        language: Some(Language::Rust),
        old_range: LineRange {
            start: line,
            count: 1,
        },
        new_range: LineRange {
            start: line,
            count: 1,
        },
        old_lines: vec!["old".into()],
        new_lines: vec!["new".into()],
    }
}

fn config() -> LlmConfig {
    LlmConfig {
        provider: LlmProvider::Anthropic,
        model: "test-model".into(),
        api_key: "fake".into(),
        base_url: "http://localhost".into(),
    }
}

#[test]
fn extract_json_finds_braces_inside_markdown() {
    let s = "```json\n{\"verdicts\": []}\n```";
    assert_eq!(extract_json(s), "{\"verdicts\": []}");
}

#[test]
fn extract_json_returns_input_when_no_braces() {
    let s = "no json here";
    assert_eq!(extract_json(s), "no json here");
}

#[test]
fn build_prompt_includes_hunk_id_path_and_lines() {
    let batch = vec![unclassified("src/x.rs:5", "src/x.rs", 5)];
    let prompt = build_prompt(&batch);
    assert!(prompt.contains("Hunk src/x.rs:5"));
    assert!(prompt.contains("File: src/x.rs (rust)"));
    assert!(prompt.contains("-old"));
    assert!(prompt.contains("+new"));
    assert!(prompt.contains("Respond ONLY with valid JSON"));
}

#[test]
fn build_batches_groups_under_limit() {
    let hunks = vec![
        unclassified("a:1", "a", 1),
        unclassified("b:1", "b", 1),
        unclassified("c:1", "c", 1),
    ];
    let batches = build_batches(&hunks);
    assert_eq!(batches.len(), 1);
    assert_eq!(batches[0].len(), 3);
}

#[test]
fn build_batches_returns_empty_for_empty_input() {
    let batches = build_batches(&[]);
    assert!(batches.is_empty());
}

#[test]
fn parse_response_assigns_review_level_with_focus() {
    let raw = r#"{"verdicts":[{"id":"a:1","level":"review","focus_start":3,"focus_end":7,"rationale":"new branch"}]}"#;
    let batch = vec![unclassified("a:1", "src/x.rs", 1)];
    let out = parse_response(raw, &batch, &config());
    assert_eq!(out.len(), 1);
    assert_eq!(out[0].classification.level, Level::Review);
    let f = out[0].classification.focus_lines.as_ref().unwrap();
    assert_eq!((f.start, f.end), (3, 7));
    assert_eq!(f.side, Side::New);
    assert_eq!(out[0].classification.rationale, "new branch");
    match &out[0].classification.source {
        Source::Llm { provider, model } => {
            assert_eq!(provider, "Anthropic");
            assert_eq!(model, "test-model");
        }
        _ => panic!("expected Llm source"),
    }
}

#[test]
fn parse_response_handles_skip_with_null_focus() {
    let raw = r#"{"verdicts":[{"id":"a:1","level":"skip","focus_start":null,"focus_end":null,"rationale":"trivial"}]}"#;
    let batch = vec![unclassified("a:1", "src/x.rs", 1)];
    let out = parse_response(raw, &batch, &config());
    assert_eq!(out.len(), 1);
    assert_eq!(out[0].classification.level, Level::Skip);
    assert!(out[0].classification.focus_lines.is_none());
}

#[test]
fn parse_response_defaults_unknown_level_to_skim() {
    let raw = r#"{"verdicts":[{"id":"a:1","level":"???","focus_start":null,"focus_end":null,"rationale":"x"}]}"#;
    let batch = vec![unclassified("a:1", "src/x.rs", 1)];
    let out = parse_response(raw, &batch, &config());
    assert_eq!(out[0].classification.level, Level::Skim);
}

#[test]
fn parse_response_drops_unknown_ids() {
    let raw = r#"{"verdicts":[{"id":"unknown:1","level":"review","focus_start":null,"focus_end":null,"rationale":"x"}]}"#;
    let batch = vec![unclassified("a:1", "src/x.rs", 1)];
    let out = parse_response(raw, &batch, &config());
    assert!(out.is_empty());
}

#[test]
fn parse_response_handles_markdown_wrapped_json() {
    let raw = "```json\n{\"verdicts\":[{\"id\":\"a:1\",\"level\":\"review\",\"focus_start\":1,\"focus_end\":1,\"rationale\":\"r\"}]}\n```";
    let batch = vec![unclassified("a:1", "src/x.rs", 1)];
    let out = parse_response(raw, &batch, &config());
    assert_eq!(out.len(), 1);
}

#[test]
fn detect_provider_errors_when_no_keys_set() {
    let keys = ApiKeys { anthropic: None, openai: None, ollama: None };
    let result = detect_provider(Some("nonexistent"), None, None, &keys, "small");
    assert!(result.is_err());
}
