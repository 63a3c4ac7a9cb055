use garbelour::classifiers::generated::read_gitattributes_generated;
use garbelour::classifiers::Generated;
use garbelour::{Classifier, FileDiff, FileStatus, Hunk, HunkId, LineRange};

fn hunk() -> Hunk {
    Hunk {
        id: HunkId("test:1".into()),
        old_range: LineRange { start: 1, count: 1 },
        new_range: LineRange { start: 1, count: 1 },
        old_lines: vec!["x".into()],
        new_lines: vec!["y".into()],
        added: 1,
        removed: 1,
        added_lines: vec![1],
        removed_lines: vec![1],
    }
}

fn file(path: &str) -> FileDiff {
    FileDiff::for_test(
        path.to_string(),
        FileStatus::Modified,
        None,
        vec![hunk()],
    )
}

#[test]
fn matches_default_globs() {
    let cls = Generated::new(vec![], vec![]).unwrap();
    for path in [
        "Cargo.lock",
        "package-lock.json",
        "proto/foo_pb2.py",
        "vendor/foo/bar.go",
        "dist/bundle.js",
        "build/index.html",
        "static/main.min.js",
        "static/style.min.css",
        "src/types.generated.ts",
    ] {
        let mut f = file(path);
        assert!(
            !cls.classify(&mut f, &hunk()).is_empty(),
            "should match default glob: {path}"
        );
    }
}

#[test]
fn does_not_match_arbitrary_source() {
    let cls = Generated::new(vec![], vec![]).unwrap();
    let mut f = file("src/main.rs");
    assert!(cls.classify(&mut f, &hunk()).is_empty());
}

#[test]
fn matches_extra_glob_from_config() {
    let cls = Generated::new(vec!["generated/**".into()], vec![]).unwrap();
    let mut f = file("generated/types.ts");
    assert!(!cls.classify(&mut f, &hunk()).is_empty());
}

#[test]
fn matches_path_from_gitattributes_set() {
    let paths = vec!["docs/api.json".to_string()];
    let cls = Generated::new(vec![], paths).unwrap();
    let mut f = file("docs/api.json");
    let result = cls.classify(&mut f, &hunk());
    assert_eq!(result.len(), 1);
    assert!(result[0].rationale.contains("linguist-generated"));
}

#[test]
fn parses_gitattributes_literal_paths_only() {
    let content = "# comment\n\
         docs/api.json linguist-generated\n\
         generated/schema.json linguist-generated=true\n\
         src/* linguist-generated\n\
         vendored/lib.js linguist-generated=false\n";
    let paths = read_gitattributes_generated(content);
    assert!(paths.contains(&"docs/api.json".to_string()));
    assert!(paths.contains(&"generated/schema.json".to_string()));
    assert!(
        !paths.contains(&"src/*".to_string()),
        "globs are skipped"
    );
    assert!(
        !paths.contains(&"vendored/lib.js".to_string()),
        "explicitly negated"
    );
}

#[test]
fn missing_gitattributes_returns_empty_set() {
    // A file that is not there reads as an empty text.
    let paths = read_gitattributes_generated("");
    assert!(paths.is_empty());
}
