use garbelour::classifiers::ImportReorder;
use garbelour::{Category, FileDiff, FileStatus, Hunk, HunkId, Language, Level, LineRange};

fn fixture(
    language: Language,
    old: &str,
    new: &str,
    added: Vec<u32>,
    removed: Vec<u32>,
) -> (FileDiff, Hunk) {
    let path = (match language {
        Language::Rust => "src/x.rs",
        Language::Python => "src/x.py",
        Language::TypeScript => "src/x.ts",
        Language::JavaScript => "src/x.js",
    })
    .to_string();
    let hunk = Hunk {
        id: HunkId("test:1".into()),
        old_range: LineRange {
            start: 1,
            count: old.lines().count() as u32,
        },
        new_range: LineRange {
            start: 1,
            count: new.lines().count() as u32,
        },
        old_lines: old.lines().map(|s| s.to_string()).collect(),
        new_lines: new.lines().map(|s| s.to_string()).collect(),
        added: added.len() as u32,
        removed: removed.len() as u32,
        added_lines: added,
        removed_lines: removed,
    };
    let mut file = FileDiff::for_test(
        path,
        FileStatus::Modified,
        Some(language),
        vec![hunk.clone()],
    );
    file.old_content = Some(old.to_string());
    file.new_content = Some(new.to_string());
    (file, hunk)
}

#[test]
fn rust_use_declarations_reordered() {
    let old = "use foo::bar;\nuse foo::baz;\nfn main() {}\n";
    let new = "use foo::baz;\nuse foo::bar;\nfn main() {}\n";
    let (mut f, h) = fixture(Language::Rust, old, new, vec![1, 2], vec![1, 2]);
    let result = ImportReorder::new().classify(&mut f, &h).unwrap();
    assert_eq!(result.category, Category::ImportReorder);
    assert_eq!(result.level, Level::Skip);
}

#[test]
fn rust_use_added_does_not_match() {
    let old = "use foo::bar;\nfn main() {}\n";
    let new = "use foo::bar;\nuse foo::baz;\nfn main() {}\n";
    let (mut f, h) = fixture(Language::Rust, old, new, vec![2], vec![]);
    assert!(ImportReorder::new().classify(&mut f, &h).is_none());
}

#[test]
fn rust_use_renamed_does_not_match() {
    let old = "use foo::bar;\nuse foo::baz;\nfn main() {}\n";
    let new = "use foo::bar;\nuse foo::qux;\nfn main() {}\n";
    let (mut f, h) = fixture(Language::Rust, old, new, vec![2], vec![2]);
    assert!(ImportReorder::new().classify(&mut f, &h).is_none());
}

#[test]
fn import_reorder_rust_mixed_change_does_not_match() {
    let old = "use foo::a;\nuse foo::b;\nfn main() { 1 }\n";
    let new = "use foo::b;\nuse foo::a;\nfn main() { 2 }\n";
    // Hunk touches both import lines (1, 2) AND the body change at line 3.
    let (mut f, h) = fixture(Language::Rust, old, new, vec![1, 2, 3], vec![1, 2, 3]);
    assert!(ImportReorder::new().classify(&mut f, &h).is_none());
}

#[test]
fn python_imports_reordered() {
    let old = "import os\nimport sys\n\nprint(1)\n";
    let new = "import sys\nimport os\n\nprint(1)\n";
    let (mut f, h) = fixture(Language::Python, old, new, vec![1, 2], vec![1, 2]);
    assert!(ImportReorder::new().classify(&mut f, &h).is_some());
}

#[test]
fn python_from_imports_reordered() {
    let old = "from a import x\nfrom b import y\n\nprint(1)\n";
    let new = "from b import y\nfrom a import x\n\nprint(1)\n";
    let (mut f, h) = fixture(Language::Python, old, new, vec![1, 2], vec![1, 2]);
    assert!(ImportReorder::new().classify(&mut f, &h).is_some());
}

#[test]
fn typescript_imports_reordered() {
    let old = "import { a } from 'a';\nimport { b } from 'b';\n\nexport const x = 1;\n";
    let new = "import { b } from 'b';\nimport { a } from 'a';\n\nexport const x = 1;\n";
    let (mut f, h) = fixture(Language::TypeScript, old, new, vec![1, 2], vec![1, 2]);
    assert!(ImportReorder::new().classify(&mut f, &h).is_some());
}

#[test]
fn javascript_imports_reordered() {
    let old = "import a from 'a';\nimport b from 'b';\n\nconst x = 1;\n";
    let new = "import b from 'b';\nimport a from 'a';\n\nconst x = 1;\n";
    let (mut f, h) = fixture(Language::JavaScript, old, new, vec![1, 2], vec![1, 2]);
    assert!(ImportReorder::new().classify(&mut f, &h).is_some());
}

#[test]
fn import_reorder_skips_files_with_no_language() {
    let old = "use foo;\n";
    let new = "use bar;\n";
    let (mut f, h) = fixture(Language::Rust, old, new, vec![1], vec![1]);
    f.language = None;
    assert!(ImportReorder::new().classify(&mut f, &h).is_none());
}
