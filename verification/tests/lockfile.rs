use garbelour::classifiers::lockfile::DEFAULT_NAMES;
use garbelour::classifiers::Lockfile;
use garbelour::{Category, FileDiff, FileStatus, Hunk, HunkId, Level, LineRange};

fn hunk() -> Hunk {
    Hunk {
        id: HunkId("test:1".into()),
        old_range: LineRange { start: 1, count: 1 },
        new_range: LineRange { start: 1, count: 1 },
        old_lines: vec!["x".into()],
        new_lines: vec!["y".into()],
        added: 1,
        removed: 1,
        added_lines: vec![1],
        removed_lines: vec![1],
    }
}

fn file(path: &str) -> FileDiff {
    FileDiff::for_test(path.to_string(), FileStatus::Modified, None, vec![hunk()])
}

#[test]
fn matches_default_lockfile_names() {
    let cls = Lockfile::new(vec![]);
    for name in DEFAULT_NAMES {
        let mut f = file(name);
        let result = cls.classify(&mut f, &hunk()).expect(name);
        assert_eq!(result.level, Level::Skip);
        assert_eq!(result.category, Category::Lockfile);
    }
}

#[test]
fn matches_lockfile_in_subdirectory() {
    let cls = Lockfile::new(vec![]);
    let mut f = file("packages/web/yarn.lock");
    assert!(cls.classify(&mut f, &hunk()).is_some());
}

#[test]
fn does_not_match_arbitrary_files() {
    let cls = Lockfile::new(vec![]);
    let mut f = file("src/main.rs");
    assert!(cls.classify(&mut f, &hunk()).is_none());
}

#[test]
fn matches_extra_names_from_config() {
    let cls = Lockfile::new(vec!["shrinkwrap.json".into()]);
    let mut f = file("shrinkwrap.json");
    assert!(cls.classify(&mut f, &hunk()).is_some());
}

#[test]
fn rationale_includes_basename() {
    let cls = Lockfile::new(vec![]);
    let mut f = file("a/b/Cargo.lock");
    let result = cls.classify(&mut f, &hunk()).unwrap();
    assert!(result.rationale.contains("Cargo.lock"));
}
