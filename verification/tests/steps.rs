use garbelour::classify::{Finding, HunkFindings};
use garbelour::cli::{ColorChoice, Format, FormatChoice, ReviewArgs};
use garbelour::config::Config;
use garbelour::consolidate::checked_consolidate;
use garbelour::github::{GitHubError, PrEvent};
use garbelour::llm::{ApiKeys, LlmConfig, LlmProvider, ProviderError};
use garbelour::run::{
    build_pipeline_config, build_repo_ref, choose_model, needs_event, posted_line, present,
    read_verdicts, resolve_color, resolve_format, resolve_revisions, settle, Output, RunError,
};
use garbelour::{
    Category, Classified, Diff, HunkId, Level, LineRange, Source, Unclassified,
};

fn args() -> ReviewArgs {
    ReviewArgs {
        base: None,
        head: "HEAD".to_string(),
        repo: ".".to_string(),
        format: FormatChoice::Auto,
        color: ColorChoice::Auto,
        post_comment: false,
        owner: None,
        repo_name: None,
        pr: None,
        llm: false,
        llm_provider: None,
        llm_model: None,
        llm_base_url: None,
        config: "garbelour.toml".to_string(),
    }
}

fn event() -> PrEvent {
    PrEvent {
        owner: "o".to_string(),
        repo: "r".to_string(),
        pr_number: 7,
        base_sha: "bbb".to_string(),
        head_sha: "hhh".to_string(),
    }
}

fn diff() -> Diff {
    Diff { base_sha: "b".to_string(), head_sha: "h".to_string(), files: vec![] }
}

#[test]
fn event_is_read_unless_the_command_line_says_all() {
    assert!(needs_event(&args()));
    let mut full = args();
    full.base = Some("main".to_string());
    full.owner = Some("o".to_string());
    full.repo_name = Some("r".to_string());
    assert!(needs_event(&full));
    full.pr = Some(1);
    assert!(!needs_event(&full));
}

#[test]
fn revisions_come_from_the_command_line_or_the_event() {
    let e = resolve_revisions(&args(), None).unwrap_err();
    assert_eq!(e, RunError::NoBase);
    assert_eq!(e.message(), "--base is required (and no GITHUB_EVENT_PATH was found)");
    let r = resolve_revisions(&args(), Some(&event())).unwrap();
    assert_eq!((r.base.as_str(), r.head.as_str()), ("bbb", "hhh"));
    let mut a = args();
    a.base = Some("main".to_string());
    let r = resolve_revisions(&a, None).unwrap();
    assert_eq!((r.base.as_str(), r.head.as_str()), ("main", "HEAD"));
    a.head = "topic".to_string();
    let r = resolve_revisions(&a, Some(&event())).unwrap();
    assert_eq!((r.base.as_str(), r.head.as_str()), ("main", "topic"));
}

#[test]
fn pipeline_is_configured_from_file_and_attributes() {
    let mut config = Config::default();
    config.classify.generated_globs = vec!["b/**".into(), "a/**".into(), "b/**".into()];
    config.classify.lockfile_names = vec!["z.lock".into(), "z.lock".into()];
    let p = build_pipeline_config(&config, "gen.rs linguist-generated\n");
    assert_eq!(p.generated_globs, vec!["a/**", "b/**"]);
    assert_eq!(p.lockfile_names, vec!["z.lock"]);
    assert_eq!(p.generated_paths, vec!["gen.rs"]);
    assert_eq!(p.max_findings_per_classifier, 5);
}

#[test]
fn format_follows_the_request_then_the_place() {
    let mut a = args();
    assert_eq!(resolve_format(&a, true), Format::Human);
    assert_eq!(resolve_format(&a, false), Format::Json);
    a.post_comment = true;
    assert_eq!(resolve_format(&a, true), Format::Markdown);
    a.format = FormatChoice::Json;
    assert_eq!(resolve_format(&a, true), Format::Json);
    a.format = FormatChoice::Human;
    assert_eq!(resolve_format(&a, false), Format::Human);
    a.format = FormatChoice::Markdown;
    assert_eq!(resolve_format(&a, true), Format::Markdown);
}

#[test]
fn color_follows_the_request_then_the_terminal() {
    let mut a = args();
    assert!(resolve_color(&a, true, false));
    assert!(!resolve_color(&a, true, true));
    assert!(!resolve_color(&a, false, false));
    a.color = ColorChoice::Always;
    assert!(resolve_color(&a, false, true));
    a.color = ColorChoice::Never;
    assert!(!resolve_color(&a, true, false));
}

#[test]
fn pull_request_is_known_only_as_a_whole() {
    let mut a = args();
    assert!(build_repo_ref(&a, None).is_none());
    let r = build_repo_ref(&a, Some(&event())).unwrap();
    assert_eq!((r.owner.as_str(), r.repo.as_str(), r.pr), ("o", "r", 7));
    assert_eq!(r.host, "https://github.com");
    a.owner = Some("me".to_string());
    a.pr = Some(9);
    assert!(build_repo_ref(&a, None).is_none());
    let r = build_repo_ref(&a, Some(&event())).unwrap();
    assert_eq!((r.owner.as_str(), r.repo.as_str(), r.pr), ("me", "r", 9));
}

#[test]
fn a_model_is_chosen_only_when_asked_for() {
    let keys = ApiKeys { anthropic: None, openai: Some("k".to_string()), ollama: None };
    let mut config = Config::default();
    config.llm.model = Some("configured".to_string());
    let mut a = args();
    assert!(choose_model(&a, &config, &keys, "small").unwrap().is_none());
    a.llm = true;
    let m = choose_model(&a, &config, &keys, "small").unwrap().unwrap();
    assert_eq!(m.provider, LlmProvider::OpenAI);
    assert_eq!(m.model, "configured");
    a.llm_model = Some("given".to_string());
    assert_eq!(choose_model(&a, &config, &keys, "small").unwrap().unwrap().model, "given");
    config.llm.provider = Some("ollama".to_string());
    assert!(matches!(
        choose_model(&a, &config, &keys, "small"),
        Err(ProviderError::KeyNotSet(LlmProvider::Ollama))
    ));
}

fn unclassified(id: &str) -> Unclassified {
    Unclassified {
        hunk_id: HunkId(id.to_string()),
        file_path: format!("{id}.rs"),
        language: None,
        old_range: LineRange { start: 3, count: 1 },
        new_range: LineRange { start: 4, count: 2 },
        old_lines: vec![],
        new_lines: vec![],
    }
}

fn rule_finding(rationale: &str) -> Finding {
    Finding {
        level: Level::Skip,
        category: Category::Generated,
        rationale: rationale.to_string(),
        source: Source::Heuristic { name: "generated".to_string() },
        focus_lines: None,
    }
}

fn verdict(id: &str, rationale: &str) -> Classified {
    Classified {
        hunk_id: HunkId(id.to_string()),
        file_path: format!("{id}.rs"),
        new_range: LineRange { start: 4, count: 2 },
        classification: rule_finding(rationale),
    }
}

fn by_rules() -> Vec<HunkFindings> {
    vec![HunkFindings {
        hunk_id: HunkId("c".to_string()),
        file_path: "c.rs".to_string(),
        old_range: LineRange { start: 1, count: 1 },
        new_range: LineRange { start: 1, count: 1 },
        findings: vec![rule_finding("rule")],
    }]
}

#[test]
fn hunks_that_nobody_speaks_of_are_reviewed() {
    let out = settle(by_rules(), &vec![unclassified("u"), unclassified("v")], None);
    assert_eq!(out.len(), 3);
    assert_eq!(out[0].findings[0].rationale, "rule");
    assert_eq!(out[1].hunk_id.0, "u");
    assert_eq!(out[1].findings.len(), 1);
    assert_eq!(out[1].findings[0].level, Level::Review);
    assert_eq!(out[1].findings[0].category, Category::LlmAssessed);
    assert_eq!(
        out[1].findings[0].rationale,
        "no heuristic match and LLM not run: defaulting to review"
    );
    assert!(matches!(&out[1].findings[0].source, Source::Heuristic { name } if name == "default"));
    assert_eq!(out[2].old_range, LineRange { start: 3, count: 1 });
}

#[test]
fn verdicts_are_added_to_their_hunks() {
    let hunks = vec![unclassified("u"), unclassified("v")];
    let verdicts = vec![verdict("u", "first"), verdict("c", "more"), verdict("u", "second")];
    let out = settle(by_rules(), &hunks, Some(verdicts));
    let shown: Vec<(&str, Vec<&str>)> = out
        .iter()
        .map(|h| {
            let said = h.findings.iter().map(|f| f.rationale.as_str()).collect();
            (h.hunk_id.0.as_str(), said)
        })
        .collect();
    assert_eq!(
        shown,
        vec![
            ("c", vec!["rule", "more"]),
            ("u", vec!["first", "second"]),
            (
                "v",
                vec!["no heuristic match and LLM declined to verdict, defaulting to review"]
            ),
        ]
    );
    assert_eq!(out[1].old_range, LineRange { start: 3, count: 1 });
    assert_eq!(out[1].new_range, LineRange { start: 4, count: 2 });
}

#[test]
fn every_hunk_is_pointed_at_by_an_item() {
    let out = settle(by_rules(), &vec![unclassified("u"), unclassified("v")], None);
    let items = checked_consolidate(out).unwrap();
    for id in ["c", "u", "v"] {
        assert!(items.iter().any(|i| i.locations.iter().any(|l| l.hunk_id.0 == id)));
    }
}

#[test]
fn there_is_one_reply_for_each_question() {
    let config = LlmConfig {
        provider: LlmProvider::OpenAI,
        model: "m".to_string(),
        api_key: "k".to_string(),
        base_url: "http://h".to_string(),
    };
    let hunks = vec![unclassified("u")];
    assert!(read_verdicts(&hunks, &vec![], &config).is_none());
    assert!(read_verdicts(&hunks, &vec!["bad".to_string()], &config).is_none());
    let out = read_verdicts(&hunks, &vec!["{}".to_string()], &config).unwrap();
    assert!(out.is_empty());
    assert!(read_verdicts(&vec![], &vec![], &config).unwrap().is_empty());
}

#[test]
fn report_goes_where_the_format_says() {
    let config = Config::default();
    let mut a = args();
    let shown = |a: &ReviewArgs, tty: bool, token: Option<&str>, event: Option<&PrEvent>| {
        present(a, &config, &diff(), &vec![], event, tty, false, token.map(|t| t.to_string()))
    };
    assert!(matches!(
        shown(&a, true, None, None),
        Ok(Output::Terminal { summary, report })
            if summary.starts_with("garbelour: 0 of 0") && report == "\x1b[1;31m  Review (0)\n\x1b[0m"
    ));
    assert!(matches!(
        shown(&a, false, None, None),
        Ok(Output::Json(s)) if s.contains("\"schema_version\": 2")
    ));
    a.format = FormatChoice::Markdown;
    assert!(matches!(
        shown(&a, true, None, None),
        Ok(Output::Markdown(s)) if s.starts_with("<!-- garbelour:sticky -->\n")
    ));
}

#[test]
fn a_comment_needs_a_token_and_a_target() {
    let mut config = Config::default();
    let mut a = args();
    a.post_comment = true;
    let none = present(&a, &config, &diff(), &vec![], Some(&event()), true, false, None);
    assert!(matches!(none, Err(RunError::GitHub(GitHubError::NoToken))));
    let token = Some("t".to_string());
    let lost = present(&a, &config, &diff(), &vec![], None, true, false, token.clone());
    assert!(matches!(lost, Err(RunError::NoTarget)));
    assert_eq!(
        RunError::NoTarget.message(),
        "--post-comment requires owner/repo/pr (CLI or event payload)"
    );
    let url = |config: &Config| {
        match present(&a, config, &diff(), &vec![], Some(&event()), true, false, token.clone()) {
            Ok(Output::Comment { client, target, body }) => {
                assert!(body.contains("0 of 0 hunks need review."));
                client.list_issue_comments(&target.owner, &target.repo, target.pr).url
            }
            _ => panic!("expected a comment"),
        }
    };
    assert_eq!(url(&config), "https://api.github.com/repos/o/r/issues/7/comments");
    config.github.base_url = Some("https://ghe/api/v3".to_string());
    assert_eq!(url(&config), "https://ghe/api/v3/repos/o/r/issues/7/comments");
    assert_eq!(posted_line(7), "garbelour: posted review map to PR #7");
}
