use garbelour::classifiers::CommentOnly;
use garbelour::{Category, FileDiff, FileStatus, Hunk, HunkId, Language, Level, LineRange};

/// Build a FileDiff with pre/post content set, and a single hunk
/// describing the change. All line numbers are 1-indexed.
fn fixture(
    language: Language,
    old: &str,
    new: &str,
    added: Vec<u32>,
    removed: Vec<u32>,
) -> (FileDiff, Hunk) {
    let path = (match language {
        Language::Rust => "src/x.rs",
        Language::Python => "src/x.py",
        Language::TypeScript => "src/x.ts",
        Language::JavaScript => "src/x.js",
    })
    .to_string();
    let hunk = Hunk {
        id: HunkId("test:1".into()),
        old_range: LineRange {
            start: 1,
            count: old.lines().count() as u32,
        },
        new_range: LineRange {
            start: 1,
            count: new.lines().count() as u32,
        },
        old_lines: old.lines().map(|s| s.to_string()).collect(),
        new_lines: new.lines().map(|s| s.to_string()).collect(),
        added: added.len() as u32,
        removed: removed.len() as u32,
        added_lines: added,
        removed_lines: removed,
    };
    let mut file = FileDiff::for_test(
        path,
        FileStatus::Modified,
        Some(language),
        vec![hunk.clone()],
    );
    file.old_content = Some(old.to_string());
    file.new_content = Some(new.to_string());
    (file, hunk)
}

#[test]
fn rust_line_comment_only() {
    let old = "// one\nfn a() {}\n";
    let new = "// two\nfn a() {}\n";
    let (mut f, h) = fixture(Language::Rust, old, new, vec![1], vec![1]);
    let result = CommentOnly::new().classify(&mut f, &h).unwrap();
    assert_eq!(result.category, Category::CommentOnly);
    assert_eq!(result.level, Level::Skip);
}

#[test]
fn rust_doc_comment_only() {
    let old = "/// old doc\nfn a() {}\n";
    let new = "/// new doc\nfn a() {}\n";
    let (mut f, h) = fixture(Language::Rust, old, new, vec![1], vec![1]);
    assert!(CommentOnly::new().classify(&mut f, &h).is_some());
}

#[test]
fn rust_block_comment_only() {
    let old = "/* old */\nfn a() {}\n";
    let new = "/* new */\nfn a() {}\n";
    let (mut f, h) = fixture(Language::Rust, old, new, vec![1], vec![1]);
    assert!(CommentOnly::new().classify(&mut f, &h).is_some());
}

#[test]
fn rust_code_change_does_not_match() {
    let old = "fn a() { 1 }\n";
    let new = "fn a() { 2 }\n";
    let (mut f, h) = fixture(Language::Rust, old, new, vec![1], vec![1]);
    assert!(CommentOnly::new().classify(&mut f, &h).is_none());
}

#[test]
fn comment_only_rust_mixed_change_does_not_match() {
    let old = "// note\nfn a() { 1 }\n";
    let new = "// updated\nfn a() { 2 }\n";
    let (mut f, h) = fixture(Language::Rust, old, new, vec![1, 2], vec![1, 2]);
    assert!(CommentOnly::new().classify(&mut f, &h).is_none());
}

#[test]
fn rust_blank_lines_inside_comment_block_are_tolerated() {
    let old = "// one\n// two\nfn a() {}\n";
    let new = "// one\n\n// two\nfn a() {}\n";
    let (mut f, h) = fixture(Language::Rust, old, new, vec![2], vec![]);
    // Line 2 in new is a blank line — it should be tolerated even though
    // it's not inside any comment node.
    assert!(CommentOnly::new().classify(&mut f, &h).is_some());
}

#[test]
fn python_comment_only() {
    let old = "# old\ndef a():\n    return 1\n";
    let new = "# new\ndef a():\n    return 1\n";
    let (mut f, h) = fixture(Language::Python, old, new, vec![1], vec![1]);
    assert!(CommentOnly::new().classify(&mut f, &h).is_some());
}

#[test]
fn python_module_docstring_only() {
    let old = "\"\"\"old docs\"\"\"\ndef a():\n    return 1\n";
    let new = "\"\"\"new docs\"\"\"\ndef a():\n    return 1\n";
    let (mut f, h) = fixture(Language::Python, old, new, vec![1], vec![1]);
    let result = CommentOnly::new().classify(&mut f, &h);
    assert!(
        result.is_some(),
        "module docstring change should classify as comment-only"
    );
}

#[test]
fn python_function_docstring_only() {
    let old = "def a():\n    \"\"\"old\"\"\"\n    return 1\n";
    let new = "def a():\n    \"\"\"new\"\"\"\n    return 1\n";
    let (mut f, h) = fixture(Language::Python, old, new, vec![2], vec![2]);
    assert!(CommentOnly::new().classify(&mut f, &h).is_some());
}

#[test]
fn typescript_comment_only() {
    let old = "// old\nexport const x = 1;\n";
    let new = "// new\nexport const x = 1;\n";
    let (mut f, h) = fixture(Language::TypeScript, old, new, vec![1], vec![1]);
    assert!(CommentOnly::new().classify(&mut f, &h).is_some());
}

#[test]
fn javascript_block_comment_only() {
    let old = "/* old\n * note\n */\nconst x = 1;\n";
    let new = "/* new\n * note\n */\nconst x = 1;\n";
    let (mut f, h) = fixture(Language::JavaScript, old, new, vec![1], vec![1]);
    assert!(CommentOnly::new().classify(&mut f, &h).is_some());
}

#[test]
fn comment_only_skips_files_with_no_language() {
    let old = "anything\n";
    let new = "different\n";
    let (mut f, h) = fixture(Language::Rust, old, new, vec![1], vec![1]);
    f.language = None;
    assert!(CommentOnly::new().classify(&mut f, &h).is_none());
}

#[test]
fn skips_files_with_missing_content() {
    let old = "// one\n";
    let new = "// two\n";
    let (mut f, h) = fixture(Language::Rust, old, new, vec![1], vec![1]);
    f.old_content = None;
    assert!(CommentOnly::new().classify(&mut f, &h).is_none());
}
