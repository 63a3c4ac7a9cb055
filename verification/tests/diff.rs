use garbelour::diff::{
    parse_hunk_header, parse_raw_entries, parse_unified_diff, split_into_file_sections,
    strip_git_prefix,
};
use garbelour::{FileStatus, HunkId};

#[test]
fn parses_simple_modified_raw_entry() {
    let raw = ":100644 100644 abc def M\0src/foo.rs\0";
    let entries = parse_raw_entries(raw).unwrap();
    assert_eq!(entries.len(), 1);
    assert_eq!(entries[0].status, FileStatus::Modified);
    assert_eq!(entries[0].path, "src/foo.rs".to_string());
    assert!(entries[0].old_path.is_none());
}

#[test]
fn parses_added_and_deleted_raw_entries() {
    let raw = ":100644 100644 abc def A\0src/new.rs\0\
               :100644 000000 abc 000 D\0src/old.rs\0";
    let entries = parse_raw_entries(raw).unwrap();
    assert_eq!(entries.len(), 2);
    assert_eq!(entries[0].status, FileStatus::Added);
    assert_eq!(entries[0].path, "src/new.rs".to_string());
    assert_eq!(entries[1].status, FileStatus::Deleted);
    assert_eq!(entries[1].path, "src/old.rs".to_string());
}

#[test]
fn parses_rename_raw_entry_with_similarity() {
    let raw = ":100644 100644 abc def R092\0src/old.rs\0src/new.rs\0";
    let entries = parse_raw_entries(raw).unwrap();
    assert_eq!(entries.len(), 1);
    assert_eq!(entries[0].status, FileStatus::Renamed { similarity: 92 });
    assert_eq!(entries[0].path, "src/new.rs".to_string());
    assert_eq!(entries[0].old_path, Some("src/old.rs".to_string()));
}

#[test]
fn empty_raw_input_yields_empty_entries() {
    assert!(parse_raw_entries("").unwrap().is_empty());
}

#[test]
fn strips_a_b_prefixes() {
    assert_eq!(strip_git_prefix("a/foo.rs"), "foo.rs");
    assert_eq!(strip_git_prefix("b/foo.rs"), "foo.rs");
    assert_eq!(strip_git_prefix("foo.rs"), "foo.rs");
    assert_eq!(strip_git_prefix("/dev/null"), "/dev/null");
}

#[test]
fn splits_multi_file_diff_into_sections() {
    let s = "diff --git a/x b/x\n--- a/x\n+++ b/x\n@@ -1 +1 @@\n-a\n+b\n\
             diff --git a/y b/y\n--- a/y\n+++ b/y\n@@ -1 +1 @@\n-c\n+d\n";
    let sections = split_into_file_sections(s);
    assert_eq!(sections.len(), 2);
    assert!(sections[0].starts_with("diff --git a/x"));
    assert!(sections[1].starts_with("diff --git a/y"));
}

#[test]
fn parses_simple_modify_section() {
    let s = "diff --git a/foo.rs b/foo.rs\n--- a/foo.rs\n+++ b/foo.rs\n\
             @@ -1,3 +1,3 @@\n ctx\n-old\n+new\n more\n";
    let parsed = parse_unified_diff(s);
    assert_eq!(parsed.len(), 1);
    let p = &parsed[0];
    assert_eq!(p.new_path, "foo.rs");
    assert_eq!(p.hunks.len(), 1);
    let h = &p.hunks[0];
    assert_eq!(h.old_lines, vec!["ctx", "old", "more"]);
    assert_eq!(h.new_lines, vec!["ctx", "new", "more"]);
    assert_eq!(h.added, 1);
    assert_eq!(h.removed, 1);
    // ctx is line 1 (both), -old is old-line 2, +new is new-line 2,
    // more is line 3 (both, context).
    assert_eq!(h.added_lines, vec![2]);
    assert_eq!(h.removed_lines, vec![2]);
    assert_eq!(h.old_range.start, 1);
    assert_eq!(h.new_range.start, 1);
}

#[test]
fn parser_tolerates_no_newline_marker_between_remove_and_add() {
    // This is the exact pattern that crashed the old `patch` crate:
    // a `\ No newline at end of file` marker between the `-` line and
    // the `+` lines.
    let s = "diff --git a/README.md b/README.md\n\
             --- a/README.md\n+++ b/README.md\n\
             @@ -1 +1,3 @@\n-old text\n\\ No newline at end of file\n+new text\n+second\n+third\n";
    let parsed = parse_unified_diff(s);
    assert_eq!(parsed.len(), 1);
    let h = &parsed[0].hunks[0];
    assert_eq!(h.old_lines, vec!["old text"]);
    assert_eq!(h.new_lines, vec!["new text", "second", "third"]);
    assert_eq!(h.added, 3);
    assert_eq!(h.removed, 1);
}

#[test]
fn parser_handles_added_file_with_dev_null_old_side() {
    let s = "diff --git a/new.rs b/new.rs\n--- /dev/null\n+++ b/new.rs\n\
             @@ -0,0 +1,2 @@\n+line one\n+line two\n";
    let parsed = parse_unified_diff(s);
    assert_eq!(parsed.len(), 1);
    let p = &parsed[0];
    assert_eq!(p.old_path, "/dev/null");
    assert_eq!(p.new_path, "new.rs");
    assert_eq!(p.lookup_key(), "new.rs".to_string());
    let h = &p.hunks[0];
    assert_eq!(h.added, 2);
    assert_eq!(h.removed, 0);
    assert_eq!(h.added_lines, vec![1, 2]);
}

#[test]
fn parser_handles_deleted_file_with_dev_null_new_side() {
    let s = "diff --git a/gone.rs b/gone.rs\n--- a/gone.rs\n+++ /dev/null\n\
             @@ -1,2 +0,0 @@\n-line one\n-line two\n";
    let parsed = parse_unified_diff(s);
    assert_eq!(parsed.len(), 1);
    let p = &parsed[0];
    assert_eq!(p.lookup_key(), "gone.rs".to_string());
    let h = &p.hunks[0];
    assert_eq!(h.removed, 2);
    assert_eq!(h.added, 0);
}

#[test]
fn parser_handles_multiple_hunks_in_one_file() {
    let s = "diff --git a/x b/x\n--- a/x\n+++ b/x\n\
             @@ -1,2 +1,2 @@\n-a\n+A\n b\n\
             @@ -10,2 +10,2 @@\n c\n-d\n+D\n";
    let parsed = parse_unified_diff(s);
    assert_eq!(parsed.len(), 1);
    assert_eq!(parsed[0].hunks.len(), 2);
    assert_eq!(parsed[0].hunks[0].new_range.start, 1);
    assert_eq!(parsed[0].hunks[1].new_range.start, 10);
}

#[test]
fn parser_handles_single_line_hunk_header_without_count() {
    // `@@ -5 +5 @@` is shorthand for `@@ -5,1 +5,1 @@`.
    let s = "diff --git a/x b/x\n--- a/x\n+++ b/x\n@@ -5 +5 @@\n-old\n+new\n";
    let parsed = parse_unified_diff(s);
    let h = &parsed[0].hunks[0];
    assert_eq!(h.old_range.start, 5);
    assert_eq!(h.new_range.start, 5);
    assert_eq!(h.added_lines, vec![5]);
    assert_eq!(h.removed_lines, vec![5]);
}

#[test]
fn parser_skips_binary_file_section_gracefully() {
    let s = "diff --git a/img.png b/img.png\n\
             index 1234..5678\n\
             Binary files a/img.png and b/img.png differ\n";
    let parsed = parse_unified_diff(s);
    // No `@@` header → no hunks, but we still emit a ParsedFile so the
    // caller can join against --raw entries (paths still empty since
    // `--- ` / `+++ ` are absent for binaries).
    assert_eq!(parsed.len(), 1);
    assert!(parsed[0].hunks.is_empty());
}

#[test]
fn parses_pure_rename_with_no_content_changes() {
    // `git diff -M` emits no body for an exact rename.
    let s = "diff --git a/old b/new\n\
             similarity index 100%\nrename from old\nrename to new\n";
    let parsed = parse_unified_diff(s);
    assert_eq!(parsed.len(), 1);
    assert!(parsed[0].hunks.is_empty());
}

#[test]
fn hunk_id_format() {
    assert_eq!(
        HunkId::for_hunk("src/foo.rs", 42).0,
        "src/foo.rs:42"
    );
}

#[test]
fn parses_hunk_header_variants() {
    assert_eq!(parse_hunk_header("@@ -1,3 +1,3 @@"), Some((1, 3, 1, 3)));
    assert_eq!(parse_hunk_header("@@ -5 +5 @@"), Some((5, 1, 5, 1)));
    assert_eq!(
        parse_hunk_header("@@ -10,2 +12,4 @@ fn foo()"),
        Some((10, 2, 12, 4))
    );
    assert_eq!(parse_hunk_header("garbage"), None);
}
