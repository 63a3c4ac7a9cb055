use garbelour::classify::Finding;
use garbelour::consolidate::{InclusiveLineRange, Item, Location};
use garbelour::render::{
    diff_anchor, human, json, markdown, summary_line, RepoRef, Summary, STICKY_MARKER,
};
use garbelour::{Category, Diff, FocusLines, HunkId, Level, LineRange, Side, Source};

fn diff() -> Diff {
    Diff {
        base_sha: "base".to_string(),
        head_sha: "head".to_string(),
        files: Vec::new(),
    }
}

fn finding(level: Level, category: Category, rationale: &str, start: Option<u32>) -> Finding {
    Finding {
        level,
        category,
        rationale: rationale.to_string(),
        source: Source::Heuristic { name: "test".to_string() },
        focus_lines: start.map(|s| FocusLines { start: s, end: s, side: Side::New }),
    }
}

fn location(line: u32) -> Location {
    Location {
        hunk_id: HunkId(format!("h:{line}")),
        new_range: LineRange { start: line, count: 1 },
        old_range: LineRange { start: line + 100, count: 1 },
    }
}

fn item(file: &str, start: u32, end: u32, findings: Vec<Finding>) -> Item {
    Item {
        file_path: file.to_string(),
        side: Side::New,
        range: InclusiveLineRange { start, end },
        locations: vec![location(start)],
        findings,
    }
}

fn sample() -> Vec<Item> {
    let mut old = item(
        "src/store.rs",
        88,
        95,
        vec![finding(Level::Review, Category::ErrorHandlingDeleted, "removed try", Some(88))],
    );
    old.side = Side::Old;
    old.locations.push(location(3));
    vec![
        item(
            "a.rs",
            1,
            1,
            vec![
                finding(Level::Skim, Category::ControlFlow, "branch", Some(4)),
                finding(Level::Review, Category::PublicApiChange, "sig", Some(9)),
                finding(Level::Review, Category::NumericalCalc, "sum", Some(2)),
            ],
        ),
        item("b.rs", 5, 5, vec![finding(Level::Skim, Category::LlmAssessed, "glance", None)]),
        old,
        item(
            "Cargo.lock",
            1,
            1,
            vec![
                finding(Level::Skip, Category::Lockfile, "l", None),
                finding(Level::Skip, Category::Generated, "g", None),
            ],
        ),
    ]
}

#[test]
fn counts_add_up() {
    let s = Summary::from_items(&sample());
    assert_eq!((s.total, s.review, s.skim, s.skip), (4, 2, 1, 1));
    assert_eq!(
        summary_line(&sample()),
        "garbelour: 2 of 4 hunks need review, 1 worth skimming, 1 mechanical"
    );
    assert_eq!(
        summary_line(&[]),
        "garbelour: 0 of 0 hunks need review, 0 worth skimming, 0 mechanical"
    );
}

#[test]
fn terminal_report_is_laid_out_in_columns() {
    // The widest place is `src/store.rs:88–95 (old), :103`, 30 characters.
    let expected = "  Review (2)\n\
                    \x20   a.rs:1                            sum\n\
                    \x20                                     ↳ [REVIEW] public-api: sig\n\
                    \x20                                     ↳ [SKIM] control-flow: branch\n\
                    \x20   src/store.rs:88–95 (old), :103    removed try\n\
                    \x20 Skim (1)\n\
                    \x20   b.rs:5    glance\n\
                    \x20 Skip (1)\n\
                    \x20   generated (1)    Cargo.lock\n\
                    \x20   lockfile (1)    Cargo.lock\n";
    assert_eq!(human(&diff(), &sample(), false), expected);
}

#[test]
fn colors_wrap_headings_and_places() {
    let items = vec![item("a", 1, 2, vec![finding(Level::Skim, Category::ControlFlow, "x", None)])];
    assert_eq!(
        human(&diff(), &items, true),
        "\x1b[1;31m  Review (0)\n\x1b[0m\x1b[1;33m  Skim (1)\n\x1b[0m\x1b[33m    a:1–2\x1b[0m    x\n"
    );
    let items = vec![item("a", 1, 1, vec![finding(Level::Skip, Category::Generated, "x", None)])];
    assert_eq!(
        human(&diff(), &items, true),
        "\x1b[1;31m  Review (0)\n\x1b[0m\x1b[1;2m  Skip (1)\n\x1b[0m\x1b[2m    generated (1)    a\n\x1b[0m"
    );
}

#[test]
fn without_color_there_are_no_escape_codes() {
    assert!(!human(&diff(), &sample(), false).contains('\x1b'));
    assert!(human(&diff(), &sample(), true).contains("\x1b[1;31m"));
}

#[test]
fn the_heading_for_review_always_stands() {
    assert_eq!(human(&diff(), &[], false), "  Review (0)\n");
    let empty = item("a", 1, 1, vec![]);
    assert_eq!(human(&diff(), &[empty], false), "  Review (0)\n  Skim (1)\n");
}

#[test]
fn skipped_files_are_counted_by_place_and_named_once() {
    let skip = |file: &str, places: u32| {
        let mut i = item(file, 1, 1, vec![finding(Level::Skip, Category::Generated, "g", None)]);
        i.locations = (1..=places).map(location).collect();
        i
    };
    let items = vec![skip("d", 1), skip("b", 2), skip("c", 1), skip("b", 1), skip("a", 1)];
    assert_eq!(
        human(&diff(), &items, false),
        "  Review (0)\n  Skip (5)\n    generated (6)    a, b, c, ...\n"
    );
    let out = markdown(&diff(), &items[..3], None);
    assert!(out.contains("\n### Skip (3)\n\n<details>\n<summary>Click to expand</summary>\n\n"));
    assert!(out.contains("- **generated** (4): b, c, d\n\n</details>\n"));
}

#[test]
fn markdown_is_written_in_full() {
    let expected = "<!-- garbelour:sticky -->\n## Garbelour\n\n\
                    **2 of 4 hunks need review.** 1 worth skimming. 1 mechanical.\n\
                    \n### Review (2)\n\n\
                    - `a.rs:1`:\n\
                    \x20 - **REVIEW** *(numerical-calc)*: sum\n\
                    \x20 - **REVIEW** *(public-api)*: sig\n\
                    \x20 - **SKIM** *(control-flow)*: branch\n\
                    - `src/store.rs:88–95`, `:103`: removed try\n\
                    \n### Skim (1)\n\n<details>\n<summary>Click to expand</summary>\n\n\
                    - `b.rs:5`: glance\n\
                    \n</details>\n\
                    \n### Skip (1)\n\n<details>\n<summary>Click to expand</summary>\n\n\
                    - **generated** (1): Cargo.lock\n\
                    - **lockfile** (1): Cargo.lock\n\
                    \n</details>\n";
    assert_eq!(markdown(&diff(), &sample(), None), expected);
}

#[test]
fn anchors_are_hexadecimal_digests() {
    assert_eq!(
        diff_anchor("a", 7, Side::Old),
        "diff-ca978112ca1bbdcafac231b39a23dc4da786eff8147c4e72b9807785afee48bbL7"
    );
    assert_eq!(
        diff_anchor("src/index.js", 42, Side::New),
        "diff-bfe9874d239014961b1ae4e89875a6155667db834a410aaaa2ebe3cf89820556R42"
    );
}

#[test]
fn links_lead_to_the_side_of_the_item() {
    let r = RepoRef {
        host: "https://github.com".to_string(),
        owner: "o".to_string(),
        repo: "r".to_string(),
        pr: 8,
    };
    let out = markdown(&diff(), &sample()[2..3], Some(&r));
    let hash = &diff_anchor("src/store.rs", 0, Side::Old)[5..69];
    assert!(out.contains(&format!(
        "- [`src/store.rs:88–95`](https://github.com/o/r/pull/8/files#diff-{hash}L88), \
         [`:103`](https://github.com/o/r/pull/8/files#diff-{hash}L103): removed try\n"
    )));
    assert!(out.starts_with(STICKY_MARKER));
}

#[test]
fn findings_are_shown_by_level_then_line_then_source() {
    let mut model = finding(Level::Review, Category::LlmAssessed, "model", Some(2));
    model.source = Source::Llm { provider: "p".to_string(), model: "m".to_string() };
    let items = vec![item(
        "a",
        1,
        1,
        vec![
            finding(Level::Skip, Category::Generated, "skip", Some(1)),
            finding(Level::Review, Category::ControlFlow, "anywhere", None),
            model,
            finding(Level::Review, Category::ControlFlow, "rule", Some(2)),
        ],
    )];
    let out = markdown(&diff(), &items, None);
    let at = |s: &str| out.find(s).unwrap();
    assert!(at(": rule") < at(": model"));
    assert!(at(": model") < at(": anywhere"));
    assert!(at(": anywhere") < at(": skip"));
}

#[test]
fn report_is_an_indented_document() {
    let items = vec![item(
        "src/x.rs",
        142,
        150,
        vec![finding(Level::Review, Category::PublicApiChange, "sig", Some(142))],
    )];
    let expected = "{\n  \"schema_version\": 2,\n  \"base_sha\": \"base\",\n  \"head_sha\": \"head\",\n  \
        \"items\": [\n    {\n      \"level\": \"review\",\n      \"file\": \"src/x.rs\",\n      \
        \"side\": \"new\",\n      \"range\": {\n        \"start\": 142,\n        \"end\": 150\n      },\n      \
        \"findings\": [\n        {\n          \"level\": \"review\",\n          \
        \"category\": \"public_api_change\",\n          \"rationale\": \"sig\",\n          \
        \"source\": {\n            \"heuristic\": {\n              \"name\": \"test\"\n            }\n          },\n          \
        \"focus_lines\": {\n            \"start\": 142,\n            \"end\": 142,\n            \
        \"side\": \"new\"\n          }\n        }\n      ],\n      \"locations\": [\n        {\n          \
        \"hunk_id\": \"h:142\",\n          \"new_line\": 142,\n          \"old_line\": 242\n        }\n      ]\n    }\n  ],\n  \
        \"summary\": {\n    \"total\": 1,\n    \"review\": 1,\n    \"skim\": 0,\n    \"skip\": 0\n  }\n}";
    assert_eq!(json(&diff(), &items).unwrap(), expected);
}

#[test]
fn rationales_begin_in_one_column() {
    let one = |start: u32, end: u32, rationale: &str| {
        let f = finding(Level::Review, Category::ControlFlow, rationale, Some(start));
        item("a.rs", start, end, vec![f])
    };
    assert_eq!(
        human(&diff(), &[one(1, 2, "r1"), one(5, 5, "r2")], false),
        "  Review (2)\n    a.rs:1–2    r1\n    a.rs:5      r2\n"
    );
}

#[test]
fn without_its_colors_a_report_is_the_plain_one() {
    let mut colored = human(&diff(), &sample(), true);
    for code in ["31", "1;31", "33", "1;33", "2", "1;2", "0"] {
        colored = colored.replace(&format!("\x1b[{code}m"), "");
    }
    assert_eq!(colored, human(&diff(), &sample(), false));
}

#[test]
fn the_heading_for_skip_counts_what_the_summary_counts() {
    let out = markdown(&diff(), &sample()[3..], None);
    assert!(out.contains(" 1 mechanical.\n"));
    assert!(out.contains("\n### Skip (1)\n"));
    assert!(out.contains("- **generated** (1): Cargo.lock\n- **lockfile** (1): Cargo.lock\n"));
}
