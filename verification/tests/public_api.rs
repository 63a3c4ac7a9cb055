use garbelour::classifiers::PublicApi;
use garbelour::{Category, FileDiff, FileStatus, Hunk, HunkId, Language, Level, LineRange, Side};

fn fixture(
    language: Language,
    old: &str,
    new: &str,
    added: Vec<u32>,
    removed: Vec<u32>,
) -> (FileDiff, Hunk) {
    let path = (match language {
        Language::Rust => "src/x.rs",
        Language::Python => "src/x.py",
        Language::TypeScript => "src/x.ts",
        Language::JavaScript => "src/x.js",
    })
    .to_string();
    let hunk = Hunk {
        id: HunkId("test:1".into()),
        old_range: LineRange {
            start: 1,
            count: old.lines().count() as u32,
        },
        new_range: LineRange {
            start: 1,
            count: new.lines().count() as u32,
        },
        old_lines: old.lines().map(|s| s.to_string()).collect(),
        new_lines: new.lines().map(|s| s.to_string()).collect(),
        added: added.len() as u32,
        removed: removed.len() as u32,
        added_lines: added,
        removed_lines: removed,
    };
    let mut file = FileDiff::for_test(
        path,
        FileStatus::Modified,
        Some(language),
        vec![hunk.clone()],
    );
    file.old_content = Some(old.to_string());
    file.new_content = Some(new.to_string());
    (file, hunk)
}

#[test]
fn rust_pub_fn_signature_change() {
    let old = "pub fn apply(x: u32) -> u32 {\n    x + 1\n}\n";
    let new = "pub fn apply(x: u32, y: u32) -> u32 {\n    x + y\n}\n";
    let (mut f, h) = fixture(Language::Rust, old, new, vec![1], vec![1]);
    let result = PublicApi::new().classify(&mut f, &h).unwrap();
    assert_eq!(result.level, Level::Review);
    assert_eq!(result.category, Category::PublicApiChange);
    let focus = result.focus_lines.unwrap();
    assert_eq!(focus.side, Side::New);
    assert!(focus.start <= 1 && focus.end >= 1);
}

#[test]
fn rust_pub_fn_body_change_does_not_fire() {
    let old = "pub fn apply(x: u32) -> u32 {\n    x + 1\n}\n";
    let new = "pub fn apply(x: u32) -> u32 {\n    x + 2\n}\n";
    let (mut f, h) = fixture(Language::Rust, old, new, vec![2], vec![2]);
    // Line 2 is the body. Signature on line 1 is unchanged.
    assert!(PublicApi::new().classify(&mut f, &h).is_none());
}

#[test]
fn rust_private_fn_does_not_fire() {
    let old = "fn helper(x: u32) -> u32 {\n    x + 1\n}\n";
    let new = "fn helper(x: u32, y: u32) -> u32 {\n    x + y\n}\n";
    let (mut f, h) = fixture(Language::Rust, old, new, vec![1], vec![1]);
    assert!(PublicApi::new().classify(&mut f, &h).is_none());
}

#[test]
fn rust_pub_struct_field_change() {
    let old = "pub struct Foo {\n    pub a: u32,\n}\n";
    let new = "pub struct Foo {\n    pub a: u32,\n    pub b: u32,\n}\n";
    let (mut f, h) = fixture(Language::Rust, old, new, vec![3], vec![]);
    // Struct body is part of its public surface — line 3 is added.
    assert!(PublicApi::new().classify(&mut f, &h).is_some());
}

#[test]
fn rust_pub_const_change() {
    let old = "pub const MAX: u32 = 10;\n";
    let new = "pub const MAX: u32 = 20;\n";
    let (mut f, h) = fixture(Language::Rust, old, new, vec![1], vec![1]);
    assert!(PublicApi::new().classify(&mut f, &h).is_some());
}

#[test]
fn rust_pub_crate_visibility_counts_as_public() {
    let old = "pub(crate) fn apply(x: u32) -> u32 { x }\n";
    let new = "pub(crate) fn apply(x: u32, y: u32) -> u32 { x + y }\n";
    let (mut f, h) = fixture(Language::Rust, old, new, vec![1], vec![1]);
    assert!(PublicApi::new().classify(&mut f, &h).is_some());
}

#[test]
fn python_module_level_def_signature_change() {
    let old = "def apply(x):\n    return x + 1\n";
    let new = "def apply(x, y):\n    return x + y\n";
    let (mut f, h) = fixture(Language::Python, old, new, vec![1], vec![1]);
    let result = PublicApi::new().classify(&mut f, &h).unwrap();
    assert_eq!(result.category, Category::PublicApiChange);
}

#[test]
fn python_underscore_def_does_not_fire() {
    let old = "def _helper(x):\n    return x + 1\n";
    let new = "def _helper(x, y):\n    return x + y\n";
    let (mut f, h) = fixture(Language::Python, old, new, vec![1], vec![1]);
    assert!(PublicApi::new().classify(&mut f, &h).is_none());
}

#[test]
fn python_class_signature_change() {
    let old = "class Foo:\n    pass\n";
    let new = "class Foo(Bar):\n    pass\n";
    let (mut f, h) = fixture(Language::Python, old, new, vec![1], vec![1]);
    assert!(PublicApi::new().classify(&mut f, &h).is_some());
}

#[test]
fn python_function_body_only_does_not_fire() {
    let old = "def apply(x):\n    return x + 1\n";
    let new = "def apply(x):\n    return x + 2\n";
    let (mut f, h) = fixture(Language::Python, old, new, vec![2], vec![2]);
    assert!(PublicApi::new().classify(&mut f, &h).is_none());
}

#[test]
fn typescript_export_function_signature_change() {
    let old = "export function apply(x: number): number {\n    return x + 1;\n}\n";
    let new = "export function apply(x: number, y: number): number {\n    return x + y;\n}\n";
    let (mut f, h) = fixture(Language::TypeScript, old, new, vec![1], vec![1]);
    assert!(PublicApi::new().classify(&mut f, &h).is_some());
}

#[test]
fn typescript_non_export_does_not_fire() {
    let old = "function helper(x: number): number {\n    return x + 1;\n}\n";
    let new = "function helper(x: number, y: number): number {\n    return x + y;\n}\n";
    let (mut f, h) = fixture(Language::TypeScript, old, new, vec![1], vec![1]);
    assert!(PublicApi::new().classify(&mut f, &h).is_none());
}

#[test]
fn javascript_export_const_change() {
    let old = "export const VERSION = '1.0';\n";
    let new = "export const VERSION = '2.0';\n";
    let (mut f, h) = fixture(Language::JavaScript, old, new, vec![1], vec![1]);
    assert!(PublicApi::new().classify(&mut f, &h).is_some());
}
