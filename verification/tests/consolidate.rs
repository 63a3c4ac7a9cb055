use garbelour::classify::{Finding, HunkFindings};
use garbelour::consolidate::{
    apply_groups, consolidate_exact, parse_consolidation_response, Group, InclusiveLineRange, Item,
    Location,
};
use garbelour::llm::{LlmConfig, LlmProvider};
use garbelour::{Category, FocusLines, HunkId, Level, LineRange, Side, Source};

fn hunk_findings(file: &str, hunk_line: u32, findings: Vec<Finding>) -> HunkFindings {
    HunkFindings {
        hunk_id: HunkId(format!("{file}:{hunk_line}")),
        file_path: file.to_string(),
        old_range: LineRange {
            start: hunk_line,
            count: 1,
        },
        new_range: LineRange {
            start: hunk_line,
            count: 1,
        },
        findings,
    }
}

fn finding(
    level: Level,
    category: Category,
    rationale: &str,
    focus: Option<(u32, u32, Side)>,
) -> Finding {
    Finding {
        level,
        category,
        rationale: rationale.into(),
        source: Source::Heuristic {
            name: "test".into(),
        },
        focus_lines: focus.map(|(s, e, side)| FocusLines {
            start: s,
            end: e,
            side,
        }),
    }
}

#[test]
fn exact_dedup_collapses_findings_with_identical_metadata() {
    // Two hunks each producing a "public enum signature changed" finding
    // at the same focus range collapse into one item with one finding
    // and two locations.
    let h1 = hunk_findings(
        "src/a.rs",
        30,
        vec![finding(
            Level::Review,
            Category::PublicApiChange,
            "public enum signature changed",
            Some((28, 156, Side::New)),
        )],
    );
    let h2 = hunk_findings(
        "src/a.rs",
        90,
        vec![finding(
            Level::Review,
            Category::PublicApiChange,
            "public enum signature changed",
            Some((28, 156, Side::New)),
        )],
    );
    let out = consolidate_exact(vec![h1, h2]);
    assert_eq!(out.len(), 1);
    assert_eq!(out[0].findings.len(), 1);
    assert_eq!(out[0].locations.len(), 2);
}

#[test]
fn exact_dedup_keeps_different_rationale_separate() {
    let h1 = hunk_findings(
        "src/a.rs",
        30,
        vec![finding(
            Level::Review,
            Category::PublicApiChange,
            "a",
            Some((28, 156, Side::New)),
        )],
    );
    let h2 = hunk_findings(
        "src/a.rs",
        31,
        vec![finding(
            Level::Review,
            Category::PublicApiChange,
            "b",
            Some((28, 156, Side::New)),
        )],
    );
    // Same focus range so they group into ONE item, but as TWO findings.
    let out = consolidate_exact(vec![h1, h2]);
    assert_eq!(out.len(), 1);
    assert_eq!(out[0].findings.len(), 2);
}

#[test]
fn range_grouping_merges_overlapping_focus_into_one_item() {
    let h1 = hunk_findings(
        "src/a.rs",
        30,
        vec![finding(
            Level::Review,
            Category::PublicApiChange,
            "sig change",
            Some((30, 40, Side::New)),
        )],
    );
    let h2 = hunk_findings(
        "src/a.rs",
        35,
        vec![finding(
            Level::Review,
            Category::ControlFlow,
            "branch added",
            Some((35, 50, Side::New)),
        )],
    );
    let out = consolidate_exact(vec![h1, h2]);
    assert_eq!(out.len(), 1);
    assert_eq!(out[0].range.start, 30);
    assert_eq!(out[0].range.end, 50);
    assert_eq!(out[0].findings.len(), 2);
    assert_eq!(out[0].locations.len(), 2);
}

#[test]
fn range_grouping_keeps_adjacent_but_non_overlapping_ranges_separate() {
    let h1 = hunk_findings(
        "src/a.rs",
        10,
        vec![finding(
            Level::Review,
            Category::PublicApiChange,
            "a",
            Some((10, 15, Side::New)),
        )],
    );
    let h2 = hunk_findings(
        "src/a.rs",
        16,
        vec![finding(
            Level::Review,
            Category::PublicApiChange,
            "b",
            Some((16, 20, Side::New)),
        )],
    );
    let out = consolidate_exact(vec![h1, h2]);
    assert_eq!(
        out.len(),
        2,
        "ranges 10-15 and 16-20 are adjacent, not overlapping"
    );
}

#[test]
fn range_grouping_keeps_opposite_sides_separate() {
    let h1 = hunk_findings(
        "src/a.rs",
        10,
        vec![finding(
            Level::Review,
            Category::PublicApiChange,
            "new",
            Some((30, 40, Side::New)),
        )],
    );
    let h2 = hunk_findings(
        "src/a.rs",
        10,
        vec![finding(
            Level::Review,
            Category::ErrorHandlingDeleted,
            "old",
            Some((30, 40, Side::Old)),
        )],
    );
    let out = consolidate_exact(vec![h1, h2]);
    assert_eq!(out.len(), 2);
}

#[test]
fn one_hunks_overlapping_findings_collapse_locations() {
    // One hunk emits two findings with overlapping ranges → one item
    // with both findings but only one location (deduped by hunk_id).
    let h = hunk_findings(
        "src/a.rs",
        30,
        vec![
            finding(
                Level::Review,
                Category::PublicApiChange,
                "sig",
                Some((30, 40, Side::New)),
            ),
            finding(
                Level::Skim,
                Category::ControlFlow,
                "branch",
                Some((35, 45, Side::New)),
            ),
        ],
    );
    let out = consolidate_exact(vec![h]);
    assert_eq!(out.len(), 1);
    assert_eq!(out[0].findings.len(), 2);
    assert_eq!(out[0].locations.len(), 1);
}

#[test]
fn item_level_is_max_severity_of_findings() {
    let h = hunk_findings(
        "src/a.rs",
        30,
        vec![
            finding(
                Level::Skim,
                Category::ControlFlow,
                "skim",
                Some((30, 40, Side::New)),
            ),
            finding(
                Level::Review,
                Category::PublicApiChange,
                "review",
                Some((30, 40, Side::New)),
            ),
        ],
    );
    let out = consolidate_exact(vec![h]);
    assert_eq!(out[0].level(), Level::Review);
}

#[test]
fn finding_with_no_focus_falls_back_to_hunk_new_range_on_new_side() {
    let h = hunk_findings(
        "src/a.rs",
        42,
        vec![finding(Level::Skip, Category::Generated, "g", None)],
    );
    let out = consolidate_exact(vec![h]);
    assert_eq!(out.len(), 1);
    assert_eq!(out[0].side, Side::New);
    assert_eq!(out[0].range.start, 42);
}

#[test]
fn parse_consolidation_response_rejects_cross_file_groups() {
    let items = vec![
        Item {
            file_path: "src/a.rs".to_string(),
            side: Side::New,
            range: InclusiveLineRange { start: 1, end: 5 },
            locations: vec![Location {
                hunk_id: HunkId("a:1".into()),
                new_range: LineRange { start: 1, count: 5 },
                old_range: LineRange { start: 1, count: 5 },
            }],
            findings: vec![finding(
                Level::Review,
                Category::PublicApiChange,
                "ra",
                Some((1, 5, Side::New)),
            )],
        },
        Item {
            file_path: "src/b.rs".to_string(),
            side: Side::New,
            range: InclusiveLineRange { start: 1, end: 5 },
            locations: vec![Location {
                hunk_id: HunkId("b:1".into()),
                new_range: LineRange { start: 1, count: 5 },
                old_range: LineRange { start: 1, count: 5 },
            }],
            findings: vec![finding(
                Level::Review,
                Category::PublicApiChange,
                "rb",
                Some((1, 5, Side::New)),
            )],
        },
    ];
    let raw = r#"{"groups":[{"ids":[0,1],"merged_rationale":"both"}]}"#;
    let groups = parse_consolidation_response(raw, &[0, 1], &items);
    assert!(groups.is_empty(), "cross-file group should be rejected");
}

/// Multi-location Stage-B groups expose a merged range that spans
/// every matched member, not just the primary's slice.
#[test]
fn apply_groups_unions_member_ranges_into_merged_range() {
    let cfg = LlmConfig {
        provider: LlmProvider::Anthropic,
        model: "test".into(),
        api_key: "x".into(),
        base_url: "http://localhost".into(),
    };
    let items = vec![
        Item {
            file_path: "src/a.rs".to_string(),
            side: Side::New,
            range: InclusiveLineRange { start: 30, end: 40 },
            locations: vec![Location {
                hunk_id: HunkId("a:30".into()),
                new_range: LineRange {
                    start: 30,
                    count: 10,
                },
                old_range: LineRange {
                    start: 30,
                    count: 10,
                },
            }],
            findings: vec![finding(
                Level::Review,
                Category::PublicApiChange,
                "lowpass",
                Some((30, 40, Side::New)),
            )],
        },
        Item {
            file_path: "src/a.rs".to_string(),
            side: Side::New,
            range: InclusiveLineRange {
                start: 200,
                end: 220,
            },
            locations: vec![Location {
                hunk_id: HunkId("a:200".into()),
                new_range: LineRange {
                    start: 200,
                    count: 21,
                },
                old_range: LineRange {
                    start: 200,
                    count: 21,
                },
            }],
            findings: vec![finding(
                Level::Review,
                Category::PublicApiChange,
                "highpass",
                Some((200, 220, Side::New)),
            )],
        },
    ];
    let groups = vec![Group {
        ids: vec![0, 1],
        rationale: "same change applied to LowPass and HighPass".into(),
    }];
    let out = apply_groups(items, groups, &cfg);
    assert_eq!(out.len(), 1);
    // Union of (30..=40) and (200..=220).
    assert_eq!(out[0].range.start, 30);
    assert_eq!(out[0].range.end, 220);
    assert_eq!(out[0].locations.len(), 2);
    // Summary + 2 member findings.
    assert_eq!(out[0].findings.len(), 3);
}

/// `apply_groups` is defense-in-depth: even if a malformed group with
/// mixed sides slips past `parse_consolidation_response`, the mismatched
/// member is preserved as a standalone item rather than absorbed under
/// the primary's anchor.
#[test]
fn apply_groups_preserves_off_side_members_as_standalone() {
    let cfg = LlmConfig {
        provider: LlmProvider::Anthropic,
        model: "test".into(),
        api_key: "x".into(),
        base_url: "http://localhost".into(),
    };
    let items = vec![
        // primary: new-side
        Item {
            file_path: "src/a.rs".to_string(),
            side: Side::New,
            range: InclusiveLineRange { start: 1, end: 5 },
            locations: vec![Location {
                hunk_id: HunkId("a:1".into()),
                new_range: LineRange { start: 1, count: 5 },
                old_range: LineRange { start: 1, count: 5 },
            }],
            findings: vec![finding(
                Level::Review,
                Category::PublicApiChange,
                "primary",
                Some((1, 5, Side::New)),
            )],
        },
        // off-side member: old-side
        Item {
            file_path: "src/a.rs".to_string(),
            side: Side::Old,
            range: InclusiveLineRange { start: 10, end: 15 },
            locations: vec![Location {
                hunk_id: HunkId("a:10".into()),
                new_range: LineRange {
                    start: 10,
                    count: 5,
                },
                old_range: LineRange {
                    start: 10,
                    count: 5,
                },
            }],
            findings: vec![finding(
                Level::Review,
                Category::PublicApiChange,
                "off-side",
                Some((10, 15, Side::Old)),
            )],
        },
    ];
    let groups = vec![Group {
        ids: vec![0, 1],
        rationale: "should be rejected as mixed-side".into(),
    }];
    let out = apply_groups(items, groups, &cfg);
    assert_eq!(out.len(), 2);
    // The off-side member is preserved with its original side and
    // rationale intact.
    let off = out.iter().find(|i| i.side == Side::Old).unwrap();
    assert_eq!(off.findings.len(), 1);
    assert_eq!(off.findings[0].rationale, "off-side");
    // The primary stayed on the new side, single-member (no synthesized
    // summary finding from the LLM).
    let prim = out.iter().find(|i| i.side == Side::New).unwrap();
    assert_eq!(prim.findings.len(), 1);
    assert_eq!(prim.findings[0].rationale, "primary");
}

#[test]
fn parse_consolidation_response_rejects_cross_side_groups() {
    let items = vec![
        Item {
            file_path: "src/a.rs".to_string(),
            side: Side::New,
            range: InclusiveLineRange { start: 1, end: 5 },
            locations: vec![Location {
                hunk_id: HunkId("a:1".into()),
                new_range: LineRange { start: 1, count: 5 },
                old_range: LineRange { start: 1, count: 5 },
            }],
            findings: vec![finding(
                Level::Review,
                Category::PublicApiChange,
                "new",
                Some((1, 5, Side::New)),
            )],
        },
        Item {
            file_path: "src/a.rs".to_string(),
            side: Side::Old,
            range: InclusiveLineRange { start: 1, end: 5 },
            locations: vec![Location {
                hunk_id: HunkId("a:1".into()),
                new_range: LineRange { start: 1, count: 5 },
                old_range: LineRange { start: 1, count: 5 },
            }],
            findings: vec![finding(
                Level::Review,
                Category::PublicApiChange,
                "old",
                Some((1, 5, Side::Old)),
            )],
        },
    ];
    let raw = r#"{"groups":[{"ids":[0,1],"merged_rationale":"both"}]}"#;
    let groups = parse_consolidation_response(raw, &[0, 1], &items);
    assert!(
        groups.is_empty(),
        "cross-side group (same file) should be rejected"
    );
}
