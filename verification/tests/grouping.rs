use garbelour::classify::{Finding, HunkFindings};
use garbelour::consolidate::{
    apply_groups, checked_consolidate, consolidate_exact, consolidate_llm, consolidation_request,
    parse_consolidation_response, Group, InclusiveLineRange, Item, Location,
};
use garbelour::llm::{LlmConfig, LlmProvider};
use garbelour::{Category, FocusLines, HunkId, Level, LineRange, Side, Source};

fn finding(level: Level, rationale: &str, focus: Option<(u32, u32, Side)>) -> Finding {
    Finding {
        level,
        category: Category::ControlFlow,
        rationale: rationale.to_string(),
        source: Source::Heuristic { name: "test".to_string() },
        focus_lines: focus.map(|(start, end, side)| FocusLines { start, end, side }),
    }
}

fn on_hunk(file: &str, line: u32, count: u32, findings: Vec<Finding>) -> HunkFindings {
    HunkFindings {
        hunk_id: HunkId(format!("{file}:{line}")),
        file_path: file.to_string(),
        old_range: LineRange { start: line, count },
        new_range: LineRange { start: line, count },
        findings,
    }
}

fn item(file: &str, start: u32, end: u32, level: Level, rationale: &str) -> Item {
    Item {
        file_path: file.to_string(),
        side: Side::New,
        range: InclusiveLineRange { start, end },
        locations: vec![Location {
            hunk_id: HunkId(format!("{file}:{start}")),
            new_range: LineRange { start, count: 1 },
            old_range: LineRange { start: start + 1, count: 1 },
        }],
        findings: vec![finding(level, rationale, Some((start, end, Side::New)))],
    }
}

fn config(provider: LlmProvider) -> LlmConfig {
    LlmConfig {
        provider,
        model: "m".to_string(),
        api_key: "k".to_string(),
        base_url: "http://h".to_string(),
    }
}

#[test]
fn overlap_goes_both_ways() {
    let a = InclusiveLineRange { start: 1, end: 5 };
    let b = InclusiveLineRange { start: 5, end: 9 };
    let c = InclusiveLineRange { start: 6, end: 9 };
    assert!(a.overlaps(b) && b.overlaps(a));
    assert!(!a.overlaps(c) && !c.overlaps(a));
    assert!(a.overlaps(a));
}

#[test]
fn items_of_a_file_do_not_overlap_and_lose_no_finding() {
    let input = vec![
        on_hunk("b.rs", 10, 1, vec![finding(Level::Skim, "x", Some((10, 20, Side::New)))]),
        on_hunk("a.rs", 1, 1, vec![finding(Level::Skip, "y", None)]),
        on_hunk("b.rs", 40, 1, vec![finding(Level::Review, "z", Some((15, 30, Side::New)))]),
        on_hunk("b.rs", 50, 2, vec![finding(Level::Skip, "w", None)]),
    ];
    let items = consolidate_exact(input);
    let shown: Vec<(String, u32, u32, usize)> = items
        .iter()
        .map(|i| (i.file_path.clone(), i.range.start, i.range.end, i.findings.len()))
        .collect();
    assert_eq!(
        shown,
        vec![
            ("a.rs".to_string(), 1, 1, 1),
            ("b.rs".to_string(), 10, 30, 2),
            ("b.rs".to_string(), 50, 51, 1),
        ]
    );
    let ids: Vec<&str> = items[1].locations.iter().map(|l| l.hunk_id.0.as_str()).collect();
    assert_eq!(ids, vec!["b.rs:10", "b.rs:40"]);
    assert_eq!(items[1].level(), Level::Review);
    assert_eq!(items[1].headline_finding().unwrap().rationale, "z");
}

#[test]
fn a_focus_that_ends_before_it_begins_is_one_line() {
    let input = vec![on_hunk("a.rs", 1, 1, vec![finding(Level::Skim, "x", Some((9, 3, Side::Old)))])];
    let items = consolidate_exact(input);
    assert_eq!((items[0].range.start, items[0].range.end), (9, 9));
    assert_eq!(items[0].side, Side::Old);
}

#[test]
fn an_item_without_findings_is_skimmed() {
    let mut i = item("a.rs", 1, 1, Level::Review, "x");
    i.findings.clear();
    assert_eq!(i.level(), Level::Skim);
    assert!(i.headline_finding().is_none());
}

#[test]
fn lines_that_cannot_be_numbered_are_refused() {
    let far = |count: u32, focus: Option<(u32, u32, Side)>| {
        let f = finding(Level::Skip, "x", focus);
        checked_consolidate(vec![on_hunk("a.rs", 4294967295, count, vec![f])])
    };
    assert!(far(1, None).is_some());
    assert!(far(2, None).is_none());
    assert_eq!(far(2, Some((1, 2, Side::New))).unwrap()[0].range.end, 2);
}

#[test]
fn there_is_nothing_to_ask_about_one_item() {
    let items = vec![
        item("a.rs", 1, 2, Level::Review, "one"),
        item("a.rs", 9, 9, Level::Skip, "two"),
    ];
    assert!(consolidation_request(&items, &config(LlmProvider::OpenAI)).is_none());
    let kept = consolidate_llm(items, "no document", &config(LlmProvider::OpenAI)).unwrap();
    assert_eq!(kept.len(), 2);
}

#[test]
fn question_lists_what_may_be_merged() {
    let items = vec![
        item("a.rs", 1, 2, Level::Review, "one"),
        item("a.rs", 9, 9, Level::Skip, "two"),
        item("b.rs", 4, 4, Level::Skim, "three"),
    ];
    let request = consolidation_request(&items, &config(LlmProvider::OpenAI)).unwrap();
    assert_eq!(request.url, "http://h/v1/chat/completions");
    let body: serde_json::Value = serde_json::from_str(&request.body).unwrap();
    assert_eq!(body["model"], "m");
    let prompt = body["messages"][1]["content"].as_str().unwrap();
    assert!(prompt.starts_with(
        "Findings:\n[0] a.rs:1-2 [NEW]:\n    - one\n[2] b.rs:4-4 [NEW]:\n    - three\n"
    ));
}

#[test]
fn groups_are_taken_only_where_they_are_sound() {
    let items = vec![
        item("a.rs", 1, 2, Level::Review, "one"),
        item("a.rs", 9, 9, Level::Skim, "two"),
        item("b.rs", 4, 4, Level::Skim, "three"),
    ];
    let read = |raw: &str| {
        let groups = parse_consolidation_response(raw, &[0, 1, 2], &items);
        groups.iter().map(|g| g.ids.clone()).collect::<Vec<Vec<usize>>>()
    };
    assert_eq!(read("{\"groups\":[{\"ids\":[0,1],\"merged_rationale\":\"r\"}]}"), vec![vec![0, 1]]);
    assert!(read("{\"groups\":[{\"ids\":[0],\"merged_rationale\":\"r\"}]}").is_empty());
    assert!(read("{\"groups\":[{\"ids\":[0,7],\"merged_rationale\":\"r\"}]}").is_empty());
    assert!(read("{\"groups\":[]}").is_empty());
    assert!(read("nothing").is_empty());
}

#[test]
fn merging_sums_up_and_keeps_the_rest() {
    let items = vec![
        item("a.rs", 1, 2, Level::Skim, "one"),
        item("a.rs", 9, 9, Level::Review, "two"),
        item("b.rs", 4, 4, Level::Skim, "three"),
    ];
    let reply = "{\"choices\":[{\"message\":{\"content\":\"{\\\"groups\\\":[{\\\"ids\\\":[0,1],\
                 \\\"merged_rationale\\\":\\\"both\\\"}]}\"}}]}";
    let out = consolidate_llm(items, reply, &config(LlmProvider::OpenAI)).unwrap();
    assert_eq!(out.len(), 2);
    let merged = out.iter().find(|i| i.file_path == "a.rs").unwrap();
    assert_eq!((merged.range.start, merged.range.end), (1, 9));
    assert_eq!(merged.locations.len(), 2);
    let rationales: Vec<&str> = merged.findings.iter().map(|f| f.rationale.as_str()).collect();
    assert_eq!(rationales, vec!["both", "one", "two"]);
    assert_eq!(merged.findings[0].level, Level::Review);
    assert!(matches!(
        &merged.findings[0].source,
        Source::Llm { provider, model } if provider == "OpenAI" && model == "m"
    ));
    assert!(out.iter().any(|i| i.file_path == "b.rs" && i.findings.len() == 1));
}

#[test]
fn a_reply_that_is_no_document_is_refused() {
    let items = vec![
        item("a.rs", 1, 2, Level::Skim, "one"),
        item("a.rs", 9, 9, Level::Review, "two"),
    ];
    assert!(consolidate_llm(items, "oops", &config(LlmProvider::Anthropic)).is_none());
}

#[test]
fn without_groups_nothing_changes() {
    let items = vec![
        item("a.rs", 1, 2, Level::Skim, "one"),
        item("a.rs", 9, 9, Level::Review, "two"),
    ];
    let out = apply_groups(items, vec![], &config(LlmProvider::Anthropic));
    let rationales: Vec<&str> = out.iter().map(|i| i.findings[0].rationale.as_str()).collect();
    assert_eq!(rationales, vec!["one", "two"]);
}

#[test]
fn a_group_of_one_agreeing_member_is_not_summed_up() {
    let items = vec![
        item("a.rs", 1, 2, Level::Skim, "one"),
        item("b.rs", 9, 9, Level::Review, "two"),
    ];
    let groups = vec![Group { ids: vec![0, 1], rationale: "r".to_string() }];
    let out = apply_groups(items, groups, &config(LlmProvider::Anthropic));
    assert_eq!(out.len(), 2);
    assert!(out.iter().all(|i| i.findings.len() == 1));
}

#[test]
fn equal_findings_on_two_hunks_become_one() {
    let lock = |line: u32| on_hunk("Cargo.lock", line, 3, vec![finding(Level::Skip, "same", None)]);
    let items = consolidate_exact(vec![lock(1), lock(90)]);
    assert_eq!(items.len(), 1);
    assert_eq!(items[0].findings.len(), 1);
    let ids: Vec<&str> = items[0].locations.iter().map(|l| l.hunk_id.0.as_str()).collect();
    assert_eq!(ids, vec!["Cargo.lock:1", "Cargo.lock:90"]);
    assert_eq!((items[0].range.start, items[0].range.end), (1, 3));
}

#[test]
fn items_come_by_file_side_and_line() {
    let input = vec![
        on_hunk("b.rs", 1, 1, vec![finding(Level::Review, "p", Some((9, 9, Side::New)))]),
        on_hunk("b.rs", 2, 1, vec![finding(Level::Review, "q", Some((40, 41, Side::Old)))]),
        on_hunk("b.rs", 3, 1, vec![finding(Level::Review, "r", Some((2, 3, Side::New)))]),
        on_hunk("a.rs", 4, 1, vec![finding(Level::Review, "s", Some((70, 70, Side::New)))]),
    ];
    let order: Vec<(String, Side, u32)> = consolidate_exact(input)
        .into_iter()
        .map(|i| (i.file_path, i.side, i.range.start))
        .collect();
    assert_eq!(
        order,
        vec![
            ("a.rs".to_string(), Side::New, 70),
            ("b.rs".to_string(), Side::Old, 40),
            ("b.rs".to_string(), Side::New, 2),
            ("b.rs".to_string(), Side::New, 9),
        ]
    );
}

#[test]
fn merging_keeps_every_finding_once_and_leaves_skipped_items() {
    let items = vec![
        item("a.rs", 1, 2, Level::Review, "one"),
        item("a.rs", 5, 5, Level::Skip, "left"),
        item("a.rs", 9, 9, Level::Skim, "two"),
    ];
    let reply = "{\"choices\":[{\"message\":{\"content\":\"{\\\"groups\\\":[{\\\"ids\\\":[0,2],\
                 \\\"merged_rationale\\\":\\\"both\\\"}]}\"}}]}";
    let out = consolidate_llm(items, reply, &config(LlmProvider::OpenAI)).unwrap();
    let mut said: Vec<&str> =
        out.iter().flat_map(|i| i.findings.iter().map(|f| f.rationale.as_str())).collect();
    said.sort();
    assert_eq!(said, vec!["both", "left", "one", "two"]);
    let left = out.iter().find(|i| i.level() == Level::Skip).unwrap();
    assert_eq!((left.range.start, left.range.end, left.findings.len()), (5, 5, 1));
}
