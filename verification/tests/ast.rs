use garbelour::ast::{any_line_within, collect_line_ranges, lines_all_within, parse};
use garbelour::Language;

#[test]
fn parses_rust() {
    let tree = parse(Language::Rust, "fn main() { let x = 1; }").unwrap();
    assert_eq!(tree.root_node().kind(), "source_file");
}

#[test]
fn parses_python() {
    let tree = parse(Language::Python, "def f():\n    return 1\n").unwrap();
    assert_eq!(tree.root_node().kind(), "module");
}

#[test]
fn parses_typescript() {
    let tree = parse(Language::TypeScript, "export const x: number = 1;\n").unwrap();
    assert_eq!(tree.root_node().kind(), "program");
}

#[test]
fn parses_javascript() {
    let tree = parse(Language::JavaScript, "const x = 1;\n").unwrap();
    assert_eq!(tree.root_node().kind(), "program");
}

#[test]
fn collects_node_line_ranges() {
    let src = "// one\nfn a() {}\n// two\nfn b() {}\n";
    let tree = parse(Language::Rust, src).unwrap();
    let comments = collect_line_ranges(&tree, |n| n.kind() == "line_comment");
    assert_eq!(comments, vec![(1, 1), (3, 3)]);
}

#[test]
fn lines_all_within_works() {
    let ranges = vec![(1, 3), (5, 7)];
    assert!(lines_all_within(&[1, 2, 3, 5, 6, 7], &ranges));
    assert!(!lines_all_within(&[4], &ranges));
    assert!(!lines_all_within(&[1, 4], &ranges));
    assert!(lines_all_within(&[], &ranges));
}

#[test]
fn any_line_within_works() {
    let ranges = vec![(1, 3), (5, 7)];
    assert!(any_line_within(&[2, 100], &ranges));
    assert!(!any_line_within(&[4, 8], &ranges));
    assert!(!any_line_within(&[], &ranges));
}
