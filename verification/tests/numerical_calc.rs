use garbelour::classifiers::NumericalCalc;
use garbelour::{Category, FileDiff, FileStatus, Hunk, HunkId, Language, Level, LineRange, Side};

fn fixture(
    language: Language,
    old: &str,
    new: &str,
    added: Vec<u32>,
    removed: Vec<u32>,
) -> (FileDiff, Hunk) {
    let path = (match language {
        Language::Rust => "src/x.rs",
        Language::Python => "src/x.py",
        Language::TypeScript => "src/x.ts",
        Language::JavaScript => "src/x.js",
    })
    .to_string();
    let hunk = Hunk {
        id: HunkId("test:1".into()),
        old_range: LineRange {
            start: 1,
            count: old.lines().count() as u32,
        },
        new_range: LineRange {
            start: 1,
            count: new.lines().count() as u32,
        },
        old_lines: old.lines().map(|s| s.to_string()).collect(),
        new_lines: new.lines().map(|s| s.to_string()).collect(),
        added: added.len() as u32,
        removed: removed.len() as u32,
        added_lines: added,
        removed_lines: removed,
    };
    let mut file = FileDiff::for_test(
        path,
        FileStatus::Modified,
        Some(language),
        vec![hunk.clone()],
    );
    file.old_content = Some(old.to_string());
    file.new_content = Some(new.to_string());
    (file, hunk)
}

#[test]
fn rust_multi_operator_arithmetic_fires() {
    let old = "fn f(a: f64, b: f64) -> f64 {\n    a\n}\n";
    let new = "fn f(a: f64, b: f64) -> f64 {\n    a * a + b * b\n}\n";
    let (mut f, h) = fixture(Language::Rust, old, new, vec![2], vec![2]);
    let result = NumericalCalc::new().classify(&mut f, &h).unwrap();
    assert_eq!(result.category, Category::NumericalCalc);
    assert_eq!(result.level, Level::Review);
    assert!(result.rationale.contains("arithmetic expression"));
}

#[test]
fn rust_trivial_increment_does_not_fire() {
    let old = "fn f(i: usize) -> usize {\n    i\n}\n";
    let new = "fn f(i: usize) -> usize {\n    i + 1\n}\n";
    let (mut f, h) = fixture(Language::Rust, old, new, vec![2], vec![2]);
    // Single arithmetic operator, no nesting — should not fire.
    assert!(NumericalCalc::new().classify(&mut f, &h).is_none());
}

#[test]
fn rust_f64_namespace_call_fires() {
    let old = "fn f(x: f64) -> f64 {\n    x\n}\n";
    let new = "fn f(x: f64) -> f64 {\n    f64::sin(x)\n}\n";
    let (mut f, h) = fixture(Language::Rust, old, new, vec![2], vec![2]);
    let result = NumericalCalc::new().classify(&mut f, &h).unwrap();
    assert_eq!(result.category, Category::NumericalCalc);
    assert!(result.rationale.contains("f64::"));
}

#[test]
fn python_numpy_call_fires() {
    let old = "def f(x):\n    return x\n";
    let new = "def f(x):\n    return np.dot(x, x)\n";
    let (mut f, h) = fixture(Language::Python, old, new, vec![2], vec![2]);
    let result = NumericalCalc::new().classify(&mut f, &h).unwrap();
    assert_eq!(result.category, Category::NumericalCalc);
    assert!(result.rationale.contains("np."));
}

#[test]
fn python_multi_op_fires() {
    let old = "def f(a, b):\n    return a\n";
    let new = "def f(a, b):\n    return a * a + b * b\n";
    let (mut f, h) = fixture(Language::Python, old, new, vec![2], vec![2]);
    assert!(NumericalCalc::new().classify(&mut f, &h).is_some());
}

#[test]
fn typescript_math_call_fires() {
    let old = "function f(x: number): number { return x; }\n";
    let new = "function f(x: number): number { return Math.sqrt(x); }\n";
    let (mut f, h) = fixture(Language::TypeScript, old, new, vec![1], vec![1]);
    let result = NumericalCalc::new().classify(&mut f, &h).unwrap();
    assert!(result.rationale.contains("Math."));
}

#[test]
fn javascript_multi_op_fires() {
    let old = "function f(a, b) { return a; }\n";
    let new = "function f(a, b) { return a * a + b * b; }\n";
    let (mut f, h) = fixture(Language::JavaScript, old, new, vec![1], vec![1]);
    assert!(NumericalCalc::new().classify(&mut f, &h).is_some());
}

#[test]
fn removed_arithmetic_fires_on_old_side() {
    let old = "fn f(a: f64, b: f64) -> f64 {\n    a * a + b * b\n}\n";
    let new = "fn f(a: f64, _b: f64) -> f64 {\n    a\n}\n";
    let (mut f, h) = fixture(Language::Rust, old, new, vec![1, 2], vec![1, 2]);
    let result = NumericalCalc::new().classify(&mut f, &h).unwrap();
    assert_eq!(result.focus_lines.unwrap().side, Side::Old);
    assert!(result.rationale.contains("removed at old lines"));
}

#[test]
fn no_numerical_change_does_not_fire() {
    let old = "fn f() -> String { String::new() }\n";
    let new = "fn f() -> String { String::from(\"hi\") }\n";
    let (mut f, h) = fixture(Language::Rust, old, new, vec![1], vec![1]);
    assert!(NumericalCalc::new().classify(&mut f, &h).is_none());
}
