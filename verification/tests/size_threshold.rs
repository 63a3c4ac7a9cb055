use garbelour::classifiers::SizeThreshold;
use garbelour::{Category, FileDiff, FileStatus, Hunk, HunkId, Level, LineRange};

fn hunk(added: u32, removed: u32) -> Hunk {
    Hunk {
        id: HunkId("test:1".into()),
        old_range: LineRange {
            start: 1,
            count: removed,
        },
        new_range: LineRange {
            start: 1,
            count: added,
        },
        old_lines: (0..removed).map(|i| format!("old{i}")).collect(),
        new_lines: (0..added).map(|i| format!("new{i}")).collect(),
        added,
        removed,
        added_lines: (1..=added).collect(),
        removed_lines: (1..=removed).collect(),
    }
}

fn file() -> FileDiff {
    FileDiff::for_test(
        "src/x.rs".to_string(),
        FileStatus::Modified,
        None,
        vec![],
    )
}

#[test]
fn flags_hunks_exceeding_threshold() {
    let cls = SizeThreshold::new(150);
    let result = cls.classify(&mut file(), &hunk(100, 60)).unwrap();
    assert_eq!(result.level, Level::Review);
    assert_eq!(result.category, Category::LargeChange);
    assert!(result.rationale.contains("160"));
}

#[test]
fn ignores_small_hunks() {
    let cls = SizeThreshold::new(150);
    assert!(cls.classify(&mut file(), &hunk(5, 5)).is_none());
    assert!(cls.classify(&mut file(), &hunk(75, 75)).is_none());
}

#[test]
fn boundary_is_strictly_greater_than() {
    let cls = SizeThreshold::new(150);
    assert!(
        cls.classify(&mut file(), &hunk(75, 75)).is_none(),
        "exactly 150 should not fire"
    );
    assert!(
        cls.classify(&mut file(), &hunk(76, 75)).is_some(),
        "151 should fire"
    );
}

#[test]
fn threshold_is_configurable() {
    let cls = SizeThreshold::new(10);
    assert!(cls.classify(&mut file(), &hunk(6, 5)).is_some());
    assert!(cls.classify(&mut file(), &hunk(5, 5)).is_none());
}
