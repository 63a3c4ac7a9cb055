use garbelour::classifiers::ControlFlow;
use garbelour::{Category, FileDiff, FileStatus, Hunk, HunkId, Language, Level, LineRange, Side};

fn fixture(
    language: Language,
    old: &str,
    new: &str,
    added: Vec<u32>,
    removed: Vec<u32>,
) -> (FileDiff, Hunk) {
    let path = (match language {
        Language::Rust => "src/x.rs",
        Language::Python => "src/x.py",
        Language::TypeScript => "src/x.ts",
        Language::JavaScript => "src/x.js",
    })
    .to_string();
    let hunk = Hunk {
        id: HunkId("test:1".into()),
        old_range: LineRange {
            start: 1,
            count: old.lines().count() as u32,
        },
        new_range: LineRange {
            start: 1,
            count: new.lines().count() as u32,
        },
        old_lines: old.lines().map(|s| s.to_string()).collect(),
        new_lines: new.lines().map(|s| s.to_string()).collect(),
        added: added.len() as u32,
        removed: removed.len() as u32,
        added_lines: added,
        removed_lines: removed,
    };
    let mut file = FileDiff::for_test(
        path,
        FileStatus::Modified,
        Some(language),
        vec![hunk.clone()],
    );
    file.old_content = Some(old.to_string());
    file.new_content = Some(new.to_string());
    (file, hunk)
}

#[test]
fn rust_added_if_branch() {
    let old = "fn f() {\n    foo();\n}\n";
    let new = "fn f() {\n    if x {\n        foo();\n    }\n}\n";
    let (mut f, h) = fixture(Language::Rust, old, new, vec![2, 4], vec![]);
    let result = ControlFlow::new().classify(&mut f, &h).unwrap();
    assert_eq!(result.category, Category::ControlFlow);
    assert_eq!(result.level, Level::Review);
    let focus = result.focus_lines.unwrap();
    assert_eq!(focus.side, Side::New);
    assert_eq!(focus.start, 2);
}

#[test]
fn rust_modified_if_condition() {
    let old = "fn f() {\n    if x {\n        foo();\n    }\n}\n";
    let new = "fn f() {\n    if x && y {\n        foo();\n    }\n}\n";
    let (mut f, h) = fixture(Language::Rust, old, new, vec![2], vec![2]);
    assert!(ControlFlow::new().classify(&mut f, &h).is_some());
}

#[test]
fn rust_body_only_change_does_not_fire() {
    let old = "fn f() {\n    if x {\n        foo();\n    }\n}\n";
    let new = "fn f() {\n    if x {\n        bar();\n    }\n}\n";
    let (mut f, h) = fixture(Language::Rust, old, new, vec![3], vec![3]);
    // Line 3 is the body, not the `if` head.
    assert!(ControlFlow::new().classify(&mut f, &h).is_none());
}

#[test]
fn rust_removed_match() {
    let old = "fn f(x: u32) {\n    match x {\n        _ => {}\n    }\n}\n";
    let new = "fn f(_x: u32) {\n}\n";
    let (mut f, h) = fixture(Language::Rust, old, new, vec![1, 2], vec![1, 2, 3, 4]);
    let result = ControlFlow::new().classify(&mut f, &h).unwrap();
    assert_eq!(result.category, Category::ControlFlow);
}

#[test]
fn rust_added_return() {
    let old = "fn f(x: u32) -> u32 {\n    x + 1\n}\n";
    let new = "fn f(x: u32) -> u32 {\n    return x + 1;\n}\n";
    let (mut f, h) = fixture(Language::Rust, old, new, vec![2], vec![2]);
    assert!(ControlFlow::new().classify(&mut f, &h).is_some());
}

#[test]
fn python_added_if_branch() {
    let old = "def f(x):\n    return x\n";
    let new = "def f(x):\n    if x > 0:\n        return x\n    return 0\n";
    let (mut f, h) = fixture(Language::Python, old, new, vec![2, 3, 4], vec![2]);
    assert!(ControlFlow::new().classify(&mut f, &h).is_some());
}

#[test]
fn python_added_for_loop() {
    let old = "def f(xs):\n    return xs\n";
    let new = "def f(xs):\n    for x in xs:\n        print(x)\n    return xs\n";
    let (mut f, h) = fixture(Language::Python, old, new, vec![2, 3], vec![]);
    assert!(ControlFlow::new().classify(&mut f, &h).is_some());
}

#[test]
fn typescript_added_if() {
    let old = "function f(x: number): number {\n    return x;\n}\n";
    let new = "function f(x: number): number {\n    if (x > 0) {\n        return x;\n    }\n    return 0;\n}\n";
    let (mut f, h) = fixture(Language::TypeScript, old, new, vec![2, 3, 4, 5], vec![2]);
    assert!(ControlFlow::new().classify(&mut f, &h).is_some());
}

#[test]
fn javascript_added_switch() {
    let old = "function f(x) { return x; }\n";
    let new = "function f(x) {\n    switch (x) {\n        case 1: return 1;\n    }\n    return x;\n}\n";
    let (mut f, h) = fixture(
        Language::JavaScript,
        old,
        new,
        vec![1, 2, 3, 4, 5, 6],
        vec![1],
    );
    assert!(ControlFlow::new().classify(&mut f, &h).is_some());
}

#[test]
fn no_control_flow_change_does_not_fire() {
    let old = "fn f() {\n    let x = 1;\n}\n";
    let new = "fn f() {\n    let y = 2;\n}\n";
    let (mut f, h) = fixture(Language::Rust, old, new, vec![2], vec![2]);
    assert!(ControlFlow::new().classify(&mut f, &h).is_none());
}
