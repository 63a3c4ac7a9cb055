use garbelour::classify::{Finding, HunkFindings};
use garbelour::consolidate::{consolidate_exact, Item};
use garbelour::render::{diff_anchor, human, json, markdown, RepoRef, Summary, STICKY_MARKER};
use garbelour::{Category, Diff, FocusLines, HunkId, Level, LineRange, Side, Source};

fn diff() -> Diff {
    Diff {
        base_sha: "a".repeat(40),
        head_sha: "b".repeat(40),
        files: Vec::new(),
    }
}

fn finding(
    level: Level,
    category: Category,
    rationale: &str,
    focus: Option<(u32, u32, Side)>,
) -> Finding {
    Finding {
        level,
        category,
        rationale: rationale.into(),
        source: Source::Heuristic {
            name: "test".into(),
        },
        focus_lines: focus.map(|(s, e, side)| FocusLines {
            start: s,
            end: e,
            side,
        }),
    }
}

/// Build a single-finding item the way `consolidate_exact` would, so
/// renderer tests exercise the real pipeline shape.
fn single_finding_item(level: Level, category: Category, file: &str, line: u32) -> Item {
    let hf = HunkFindings {
        hunk_id: HunkId(format!("{file}:{line}")),
        file_path: file.to_string(),
        old_range: LineRange {
            start: line,
            count: 1,
        },
        new_range: LineRange {
            start: line,
            count: 1,
        },
        findings: vec![finding(level, category, "test rationale", None)],
    };
    consolidate_exact(vec![hf]).into_iter().next().unwrap()
}

#[test]
fn anchor_uses_sha256_hex_and_side_prefix() {
    let anchor = diff_anchor("src/index.js", 42, Side::New);
    let expected_hash = hex::encode(<sha2::Sha256 as sha2::Digest>::digest("src/index.js".as_bytes()));
    assert_eq!(anchor, format!("diff-{}R42", expected_hash));
    assert!(diff_anchor("src/index.js", 42, Side::Old).contains('L'));
}

#[test]
fn summary_counts_levels() {
    let cs = vec![
        single_finding_item(Level::Review, Category::PublicApiChange, "a", 1),
        single_finding_item(Level::Review, Category::ControlFlow, "b", 1),
        single_finding_item(Level::Skim, Category::LlmAssessed, "c", 1),
        single_finding_item(Level::Skip, Category::Lockfile, "Cargo.lock", 1),
    ];
    let s = Summary::from_items(&cs);
    assert_eq!(s.total, 4);
    assert_eq!(s.review, 2);
    assert_eq!(s.skim, 1);
    assert_eq!(s.skip, 1);
}

#[test]
fn human_renders_review_section() {
    let cs = vec![single_finding_item(
        Level::Review,
        Category::PublicApiChange,
        "src/x.rs",
        42,
    )];
    let out = human(&diff(), &cs, false);
    assert!(out.contains("Review (1)"));
    assert!(out.contains("src/x.rs:42"));
    assert!(out.contains("test rationale"));
    assert!(!out.contains("\x1b["));
}

/// A Skip item carrying both a Generated finding AND a Lockfile finding
/// shows up under both categories — neither is dropped.
#[test]
fn human_skip_summary_counts_each_finding_category() {
    let hf = HunkFindings {
        hunk_id: HunkId("Cargo.lock:1".into()),
        file_path: "Cargo.lock".to_string(),
        old_range: LineRange { start: 1, count: 1 },
        new_range: LineRange { start: 1, count: 1 },
        findings: vec![
            finding(Level::Skip, Category::Generated, "generated", None),
            finding(Level::Skip, Category::Lockfile, "lockfile", None),
        ],
    };
    let items = consolidate_exact(vec![hf]);
    let out = human(&diff(), &items, false);
    assert!(out.contains("generated (1)"));
    assert!(out.contains("lockfile (1)"));
}

#[test]
fn human_groups_skip_by_category() {
    let cs = vec![
        single_finding_item(Level::Skip, Category::Generated, "dist/a.js", 1),
        single_finding_item(Level::Skip, Category::Generated, "dist/b.js", 1),
        single_finding_item(Level::Skip, Category::Lockfile, "Cargo.lock", 1),
    ];
    let out = human(&diff(), &cs, false);
    assert!(out.contains("generated (2)"));
    assert!(out.contains("lockfile (1)"));
}

#[test]
fn markdown_starts_with_sticky_marker() {
    let cs = vec![single_finding_item(
        Level::Review,
        Category::ControlFlow,
        "x",
        1,
    )];
    let out = markdown(&diff(), &cs, None);
    assert!(out.starts_with(STICKY_MARKER));
    assert!(out.contains("## Garbelour"));
}

#[test]
fn markdown_review_items_have_no_link_without_repo_ref() {
    let cs = vec![single_finding_item(
        Level::Review,
        Category::ControlFlow,
        "src/x.rs",
        42,
    )];
    let out = markdown(&diff(), &cs, None);
    assert!(out.contains("`src/x.rs:42`"));
    assert!(!out.contains("https://"));
}

#[test]
fn markdown_review_items_have_link_with_repo_ref() {
    let r = RepoRef {
        host: "https://github.com".into(),
        owner: "acme".into(),
        repo: "widget".into(),
        pr: 42,
    };
    let cs = vec![single_finding_item(
        Level::Review,
        Category::ControlFlow,
        "src/x.rs",
        7,
    )];
    let out = markdown(&diff(), &cs, Some(&r));
    assert!(out.contains("https://github.com/acme/widget/pull/42/files#diff-"));
    assert!(out.contains("R7"));
}

#[test]
fn markdown_multi_finding_item_lists_each_finding_as_nested_bullet() {
    let hf = HunkFindings {
        hunk_id: HunkId("src/x.rs:30".into()),
        file_path: "src/x.rs".to_string(),
        old_range: LineRange {
            start: 30,
            count: 10,
        },
        new_range: LineRange {
            start: 30,
            count: 10,
        },
        findings: vec![
            finding(
                Level::Review,
                Category::PublicApiChange,
                "public enum signature changed",
                Some((30, 40, Side::New)),
            ),
            finding(
                Level::Skim,
                Category::ControlFlow,
                "branch added",
                Some((35, 45, Side::New)),
            ),
        ],
    };
    let items = consolidate_exact(vec![hf]);
    assert_eq!(items.len(), 1);
    let out = markdown(&diff(), &items, None);
    assert!(out.contains("`src/x.rs:30–45`"));
    assert!(out.contains("**REVIEW**"));
    assert!(out.contains("**SKIM**"));
    assert!(out.contains("public enum signature changed"));
    assert!(out.contains("branch added"));
}

#[test]
fn json_renders_findings_and_locations_arrays() {
    let cs = vec![single_finding_item(
        Level::Review,
        Category::PublicApiChange,
        "src/x.rs",
        142,
    )];
    let out = json(&diff(), &cs).unwrap();
    let v: serde_json::Value = serde_json::from_str(&out).unwrap();
    assert_eq!(v["schema_version"], 2);
    assert_eq!(v["base_sha"].as_str().unwrap().len(), 40);
    assert_eq!(v["summary"]["total"], 1);
    assert_eq!(v["items"][0]["file"], "src/x.rs");
    assert_eq!(v["items"][0]["level"], "review");
    assert_eq!(
        v["items"][0]["findings"][0]["category"],
        "public_api_change"
    );
    assert_eq!(v["items"][0]["locations"][0]["hunk_id"], "src/x.rs:142");
    assert_eq!(v["items"][0]["range"]["start"], 142);
}
