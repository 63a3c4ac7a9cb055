use garbelour::classify::Finding;
use garbelour::{
    Category, Classifier, Diff, FileDiff, FileStatus, FocusLines, Hunk, HunkId, Level, LineRange,
    Pipeline, PipelineConfig, Side, Source,
};

/// Test classifier: flags any hunk in a file whose path matches a name.
struct AlwaysSkip {
    target: &'static str,
}
impl Classifier for AlwaysSkip {
    fn name(&self) -> &'static str {
        "always_skip"
    }
    fn priority(&self) -> i32 {
        0
    }
    fn classify(&self, file: &mut FileDiff, _hunk: &Hunk) -> Vec<Finding> {
        if file.path.contains(self.target) {
            vec![Finding {
                level: Level::Skip,
                category: Category::Lockfile,
                rationale: "test".into(),
                source: Source::Heuristic {
                    name: self.name().into(),
                },
                focus_lines: None,
            }]
        } else {
            Vec::new()
        }
    }
}

struct Tag {
    name: &'static str,
    priority: i32,
    category: Category,
}
impl Classifier for Tag {
    fn name(&self) -> &'static str {
        self.name
    }
    fn priority(&self) -> i32 {
        self.priority
    }
    fn classify(&self, _f: &mut FileDiff, _h: &Hunk) -> Vec<Finding> {
        vec![Finding {
            level: Level::Skip,
            category: self.category,
            rationale: self.name.into(),
            source: Source::Heuristic {
                name: self.name.into(),
            },
            focus_lines: None,
        }]
    }
}

struct Spammy;
impl Classifier for Spammy {
    fn name(&self) -> &'static str {
        "spammy"
    }
    fn priority(&self) -> i32 {
        0
    }
    fn classify(&self, _f: &mut FileDiff, _h: &Hunk) -> Vec<Finding> {
        (0..20)
            .map(|i| Finding {
                level: Level::Skim,
                category: Category::LlmAssessed,
                rationale: format!("f{i}"),
                source: Source::Heuristic {
                    name: "spammy".into(),
                },
                focus_lines: None,
            })
            .collect()
    }
}

fn fake_hunk(start: u32) -> Hunk {
    Hunk {
        id: HunkId(format!("test:{start}")),
        old_range: LineRange { start, count: 1 },
        new_range: LineRange { start, count: 1 },
        old_lines: vec!["a".into()],
        new_lines: vec!["b".into()],
        added: 1,
        removed: 1,
        added_lines: vec![start],
        removed_lines: vec![start],
    }
}

fn fake_file(path: &str, hunks: Vec<Hunk>) -> FileDiff {
    FileDiff::for_test(path.to_string(), FileStatus::Modified, None, hunks)
}

#[test]
fn pipeline_classifies_matching_hunks_and_defers_others() {
    let pipeline = Pipeline::new(vec![Box::new(AlwaysSkip { target: "match" })]);
    let mut diff = Diff {
        base_sha: "0".repeat(40),
        head_sha: "0".repeat(40),
        files: vec![
            fake_file("src/match.rs", vec![fake_hunk(1), fake_hunk(10)]),
            fake_file("src/other.rs", vec![fake_hunk(5)]),
        ],
    };
    let (classified, unclassified) = pipeline.run(&mut diff);
    assert_eq!(classified.len(), 2);
    assert_eq!(unclassified.len(), 1);
    for c in &classified {
        assert!(c.file_path.contains("match"));
        assert_eq!(c.findings.len(), 1);
    }
    assert!(unclassified[0].file_path.contains("other"));
    // Hunks are restored after the run.
    assert_eq!(diff.files[0].hunks.len(), 2);
    assert_eq!(diff.files[1].hunks.len(), 1);
}

/// When two classifiers both fire on one hunk, both findings are kept
/// (no first-match-wins).
#[test]
fn pipeline_accumulates_findings_from_every_matching_classifier() {
    let pipeline = Pipeline::new(vec![
        Box::new(Tag {
            name: "second",
            priority: 100,
            category: Category::Generated,
        }),
        Box::new(Tag {
            name: "first",
            priority: 0,
            category: Category::Lockfile,
        }),
    ]);
    let mut diff = Diff {
        base_sha: "0".repeat(40),
        head_sha: "0".repeat(40),
        files: vec![fake_file("src/x.rs", vec![fake_hunk(1)])],
    };
    let (classified, _) = pipeline.run(&mut diff);
    assert_eq!(classified.len(), 1);
    // Both classifiers fired; both findings collected, in priority order.
    assert_eq!(classified[0].findings.len(), 2);
    assert_eq!(classified[0].findings[0].category, Category::Lockfile);
    assert_eq!(classified[0].findings[1].category, Category::Generated);
}

#[test]
fn pipeline_caps_findings_per_classifier() {
    let pipeline = Pipeline::new(vec![Box::new(Spammy)]);
    let mut diff = Diff {
        base_sha: "0".repeat(40),
        head_sha: "0".repeat(40),
        files: vec![fake_file("src/x.rs", vec![fake_hunk(1)])],
    };
    let (classified, _) = pipeline.run(&mut diff);
    assert_eq!(classified[0].findings.len(), 5);
}

#[test]
fn standard_pipeline_classifies_lockfile() {
    let config = PipelineConfig::default();
    let pipeline = Pipeline::standard(&config).unwrap();
    let mut diff = Diff {
        base_sha: "0".repeat(40),
        head_sha: "0".repeat(40),
        files: vec![
            fake_file("Cargo.lock", vec![fake_hunk(1)]),
            fake_file("src/main.rs", vec![fake_hunk(1)]),
        ],
    };
    let (classified, unclassified) = pipeline.run(&mut diff);
    // Cargo.lock matches Generated (priority 0) and possibly Lockfile
    // (priority 1) — under the new accumulation rule both fire.
    assert_eq!(classified.len(), 1);
    assert_eq!(classified[0].file_path, "Cargo.lock");
    assert!(classified[0]
        .findings
        .iter()
        .all(|f| f.level == Level::Skip));
    assert_eq!(unclassified.len(), 1);
    assert_eq!(unclassified[0].file_path, "src/main.rs");
}

#[test]
fn finding_round_trips_through_json() {
    let c = Finding {
        level: Level::Review,
        category: Category::PublicApiChange,
        rationale: "pub fn signature changed".into(),
        source: Source::Heuristic {
            name: "public_api".into(),
        },
        focus_lines: Some(FocusLines {
            start: 10,
            end: 14,
            side: Side::New,
        }),
    };
    let json = c.to_text();
    let back: Finding = Finding::from_text(&json).unwrap();
    assert_eq!(back.level, Level::Review);
    assert_eq!(back.category, Category::PublicApiChange);
    let f = back.focus_lines.unwrap();
    assert_eq!(f.start, 10);
    assert_eq!(f.end, 14);
    assert_eq!(f.side, Side::New);
}

#[test]
fn level_max_orders_review_above_skim_above_skip() {
    assert_eq!(Level::Skip.max(Level::Skim), Level::Skim);
    assert_eq!(Level::Skim.max(Level::Skip), Level::Skim);
    assert_eq!(Level::Skim.max(Level::Review), Level::Review);
    assert_eq!(Level::Review.max(Level::Skip), Level::Review);
}
