use garbelour::classifiers::ErrorHandlingDeleted;
use garbelour::{Category, FileDiff, FileStatus, Hunk, HunkId, Language, Level, LineRange, Side};

fn fixture(
    language: Language,
    old: &str,
    new: &str,
    added: Vec<u32>,
    removed: Vec<u32>,
) -> (FileDiff, Hunk) {
    let path = (match language {
        Language::Rust => "src/x.rs",
        Language::Python => "src/x.py",
        Language::TypeScript => "src/x.ts",
        Language::JavaScript => "src/x.js",
    })
    .to_string();
    let hunk = Hunk {
        id: HunkId("test:1".into()),
        old_range: LineRange { start: 1, count: old.lines().count() as u32 },
        new_range: LineRange { start: 1, count: new.lines().count() as u32 },
        old_lines: old.lines().map(|s| s.to_string()).collect(),
        new_lines: new.lines().map(|s| s.to_string()).collect(),
        added: added.len() as u32,
        removed: removed.len() as u32,
        added_lines: added,
        removed_lines: removed,
    };
    let mut file =
        FileDiff::for_test(path, FileStatus::Modified, Some(language), vec![hunk.clone()]);
    file.old_content = Some(old.to_string());
    file.new_content = Some(new.to_string());
    (file, hunk)
}

#[test]
fn rust_removed_question_mark() {
    let old = "fn f() -> Result<u32, ()> {\n    let x = parse()?;\n    Ok(x)\n}\n";
    let new = "fn f() -> u32 {\n    let x = parse();\n    x\n}\n";
    let (mut f, h) = fixture(Language::Rust, old, new, vec![1, 2, 3], vec![1, 2, 3]);
    let result = ErrorHandlingDeleted::new().classify(&mut f, &h).unwrap();
    assert_eq!(result.category, Category::ErrorHandlingDeleted);
    assert_eq!(result.level, Level::Review);
    let focus = result.focus_lines.unwrap();
    assert_eq!(focus.side, Side::Old);
}

#[test]
fn rust_pure_addition_does_not_fire() {
    let old = "fn f() -> u32 { 1 }\n";
    let new = "fn f() -> Result<u32, ()> { Ok(parse()?) }\n";
    let (mut f, h) = fixture(Language::Rust, old, new, vec![1], vec![1]);
    // The `?` is added; we should not fire on additions.
    assert!(ErrorHandlingDeleted::new().classify(&mut f, &h).is_none());
}

#[test]
fn python_removed_try_block() {
    let old = "def f():\n    try:\n        do()\n    except Exception:\n        pass\n";
    let new = "def f():\n    do()\n";
    let (mut f, h) = fixture(
        Language::Python,
        old,
        new,
        vec![2],
        vec![2, 3, 4, 5],
    );
    let result = ErrorHandlingDeleted::new().classify(&mut f, &h).unwrap();
    assert_eq!(result.category, Category::ErrorHandlingDeleted);
}

#[test]
fn python_removed_except_clause() {
    let old = "def f():\n    try:\n        do()\n    except KeyError:\n        pass\n    except ValueError:\n        pass\n";
    let new = "def f():\n    try:\n        do()\n    except KeyError:\n        pass\n";
    let (mut f, h) = fixture(Language::Python, old, new, vec![], vec![6, 7]);
    // The `except ValueError` clause head is on the removed line.
    assert!(ErrorHandlingDeleted::new().classify(&mut f, &h).is_some());
}

#[test]
fn typescript_removed_try_catch() {
    let old = "function f() {\n    try {\n        doIt();\n    } catch (e) {\n        log(e);\n    }\n}\n";
    let new = "function f() {\n    doIt();\n}\n";
    let (mut f, h) = fixture(
        Language::TypeScript,
        old,
        new,
        vec![2],
        vec![2, 3, 4, 5, 6],
    );
    assert!(ErrorHandlingDeleted::new().classify(&mut f, &h).is_some());
}

#[test]
fn javascript_removed_catch_clause() {
    let old = "function f() {\n    try {\n        doIt();\n    } catch (e) {\n        log(e);\n    }\n}\n";
    let new = "function f() {\n    try {\n        doIt();\n    } finally {\n        cleanup();\n    }\n}\n";
    let (mut f, h) = fixture(
        Language::JavaScript,
        old,
        new,
        vec![4, 5],
        vec![4, 5],
    );
    assert!(ErrorHandlingDeleted::new().classify(&mut f, &h).is_some());
}

#[test]
fn no_removed_lines_does_not_fire() {
    let old = "fn f() { foo(); }\n";
    let new = "fn f() { foo(); bar(); }\n";
    let (mut f, h) = fixture(Language::Rust, old, new, vec![1], vec![]);
    assert!(ErrorHandlingDeleted::new().classify(&mut f, &h).is_none());
}

#[test]
fn removed_line_inside_try_body_only_does_not_fire() {
    let old = "def f():\n    try:\n        do_a()\n        do_b()\n    except Exception:\n        pass\n";
    let new = "def f():\n    try:\n        do_a()\n    except Exception:\n        pass\n";
    let (mut f, h) = fixture(Language::Python, old, new, vec![], vec![4]);
    // Removing a line inside the try body shouldn't trigger removal of
    // the construct itself.
    assert!(ErrorHandlingDeleted::new().classify(&mut f, &h).is_none());
}
