use garbelour::diff::{
    checked_parse_unified_diff, extract, parse_hunk_header, parse_raw_entries,
    parse_unified_diff, split_into_file_sections, DiffError,
};
use garbelour::{FileDiff, FileStatus, Language};

#[test]
fn unexpected_token_is_an_error() {
    assert!(matches!(
        parse_raw_entries("src/foo.rs\0"),
        Err(DiffError::UnexpectedToken(t)) if t == "src/foo.rs"
    ));
}

#[test]
fn unknown_status_is_an_error() {
    assert!(matches!(
        parse_raw_entries(":100644 100644 abc def X\0src/foo.rs\0"),
        Err(DiffError::UnknownStatus(s)) if s == "X"
    ));
}

#[test]
fn missing_paths_are_errors() {
    assert!(matches!(
        parse_raw_entries(":100644 100644 abc def M\0"),
        Err(DiffError::MissingPath)
    ));
    assert!(matches!(
        parse_raw_entries(":100644 100644 abc def R100\0src/old.rs\0"),
        Err(DiffError::MissingNewPath)
    ));
}

#[test]
fn type_changes_and_copies_have_a_status() {
    let entries = parse_raw_entries(
        ":120000 100644 abc def T\0link\0:100644 100644 abc def C075\0a.rs\0b.rs\0",
    )
    .unwrap();
    assert_eq!(entries[0].status, FileStatus::Modified);
    assert_eq!(entries[1].status, FileStatus::Renamed { similarity: 75 });
    assert_eq!(entries[1].path, "b.rs");
    assert_eq!(entries[1].old_path.as_deref(), Some("a.rs"));
}

#[test]
fn similarity_that_is_no_small_number_is_zero() {
    let entries = parse_raw_entries(":1 2 a b R999\0a\0b\0").unwrap();
    assert_eq!(entries[0].status, FileStatus::Renamed { similarity: 0 });
}

#[test]
fn line_numbers_beyond_the_limit_are_refused() {
    let s = "diff --git a/x b/x\n--- a/x\n+++ b/x\n@@ -1 +4294967295,2 @@\n+a\n+b\n";
    assert!(checked_parse_unified_diff(s).is_none());
    assert!(matches!(
        extract(".", "b", "h", ":1 2 a b M\0x\0", s),
        Err(DiffError::LineNumbers)
    ));
}

#[test]
fn numbers_in_a_hunk_follow_its_header() {
    let s = "diff --git a/x b/x\n--- a/x\n+++ b/x\n@@ -3,3 +7,4 @@\n a\n-b\n+c\n+d\n e\n";
    let h = &parse_unified_diff(s)[0].hunks[0];
    assert_eq!(h.removed_lines, vec![4]);
    assert_eq!(h.added_lines, vec![8, 9]);
    assert_eq!(h.added, 2);
    assert_eq!(h.removed, 1);
    assert_eq!(h.old_lines.len(), 3);
    assert_eq!(h.new_lines.len(), 4);
}

#[test]
fn sections_cover_the_text_from_the_first_on() {
    let s = "noise\ndiff --git a/x b/x\none\ndiff --git a/y b/y\ntwo";
    let sections = split_into_file_sections(s);
    assert_eq!(sections.concat(), &s[6..]);
}

#[test]
fn headers_that_do_not_parse_are_none() {
    assert_eq!(parse_hunk_header("@@ -a +1 @@"), None);
    assert_eq!(parse_hunk_header("@@ -1 @@"), None);
    assert_eq!(parse_hunk_header("@@ -4294967296 +1 @@"), None);
}

#[test]
fn files_are_joined_with_their_hunks_by_path() {
    let raw = ":1 2 a b M\0src/a.rs\0:1 2 a b R090\0old.py\0new.py\0:1 0 a 0 D\0gone.ts\0";
    let unified = "diff --git a/src/a.rs b/src/a.rs\n--- a/src/a.rs\n+++ b/src/a.rs\n\
                   @@ -1 +1 @@\n-x\n+y\n\
                   diff --git a/gone.ts b/gone.ts\n--- a/gone.ts\n+++ /dev/null\n\
                   @@ -1 +0,0 @@\n-z\n";
    let d = extract("repo", "base", "head", raw, unified).unwrap();
    assert_eq!(d.base_sha, "base");
    assert_eq!(d.head_sha, "head");
    assert_eq!(d.files.len(), 3);
    assert_eq!(d.files[0].language, Some(Language::Rust));
    assert_eq!(d.files[0].hunks[0].id.0, "src/a.rs:1");
    assert_eq!(d.files[1].old_path.as_deref(), Some("old.py"));
    assert!(d.files[1].hunks.is_empty());
    assert_eq!(d.files[2].status, FileStatus::Deleted);
    assert_eq!(d.files[2].hunks[0].removed_lines, vec![1]);
}

#[test]
fn empty_outputs_make_an_empty_diff() {
    let d = extract(".", "b", "h", "", "").unwrap();
    assert!(d.files.is_empty());
}

#[test]
fn contents_are_loaded_once_and_where_they_exist() {
    let raw = ":1 2 a b R090\0old.rs\0new.rs\0:0 2 0 b A\0added.rs\0:1 0 a 0 D\0gone.rs\0";
    let mut d = extract("repo", "base", "head", raw, "").unwrap();
    let (old, new) = d.files[0].wanted_content();
    let old = old.unwrap();
    assert_eq!((old.sha.as_str(), old.path.as_str()), ("base", "old.rs"));
    let new = new.unwrap();
    assert_eq!((new.sha.as_str(), new.path.as_str()), ("head", "new.rs"));
    assert!(d.files[1].wanted_content().0.is_none());
    assert!(d.files[2].wanted_content().1.is_none());
    d.files[0].ensure_content(Some("1".into()), Some("2".into()));
    assert_eq!(d.files[0].old_content.as_deref(), Some("1"));
    d.files[0].ensure_content(Some("3".into()), Some("4".into()));
    assert_eq!(d.files[0].old_content.as_deref(), Some("1"));
    assert_eq!(d.files[0].new_content.as_deref(), Some("2"));
    d.files[1].ensure_content(Some("3".into()), None);
    assert!(d.files[1].old_content.is_none());
}

#[test]
fn files_without_a_repository_lack_no_content() {
    let mut f = FileDiff::for_test("x.rs".into(), FileStatus::Modified, None, vec![]);
    assert!(f.wanted_content().0.is_none());
    f.ensure_content(Some("1".into()), Some("2".into()));
    assert!(f.old_content.is_none());
    assert!(f.new_content.is_none());
}

#[test]
fn every_extension_names_its_language() {
    for language in [
        Language::Rust,
        Language::Python,
        Language::TypeScript,
        Language::JavaScript,
    ] {
        for extension in language.extensions() {
            assert_eq!(Language::detect(&format!("a/b.{extension}")), Some(language));
        }
    }
    assert_eq!(Language::TypeScript.as_str(), "typescript");
}

#[test]
fn a_path_may_have_spaces() {
    let s = "diff --git a/my file.rs b/my file.rs\n--- a/my file.rs\n+++ b/my file.rs\n\
             @@ -1 +1 @@\n-a\n+b\n";
    let files = parse_unified_diff(s);
    assert_eq!(files[0].old_path, "my file.rs");
    assert_eq!(files[0].new_path, "my file.rs");
    assert_eq!(files[0].hunks[0].id.0, "my file.rs:1");
    let tabbed = s.replace("my file.rs\n", "my file.rs\t\n");
    assert_eq!(parse_unified_diff(&tabbed)[0].new_path, "my file.rs");
    let diff = extract(".", "b", "h", ":1 2 a b M\0my file.rs\0", &tabbed).unwrap();
    assert_eq!(diff.files[0].hunks.len(), 1);
}

#[test]
fn both_sides_keep_the_same_context() {
    let s = "diff --git a/x b/x\n--- a/x\n+++ b/x\n@@ -3,3 +7,4 @@\n a\n-b\n+c\n+d\n e\n";
    let h = &parse_unified_diff(s)[0].hunks[0];
    let kept = |lines: &Vec<String>, changed: &Vec<u32>, start: u32| -> Vec<String> {
        (0..lines.len())
            .filter(|i| !changed.contains(&(start + *i as u32)))
            .map(|i| lines[i].clone())
            .collect()
    };
    let old = kept(&h.old_lines, &h.removed_lines, h.old_range.start);
    assert_eq!(old, vec!["a".to_string(), "e".to_string()]);
    assert_eq!(kept(&h.new_lines, &h.added_lines, h.new_range.start), old);
}
