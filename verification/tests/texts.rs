use garbelour::classify::Finding;
use garbelour::order::{sort, sort_distinct};
use garbelour::path;
use garbelour::text;
use garbelour::{Category, Level, Source};

fn words(v: &[&str]) -> Vec<String> {
    v.iter().map(|s| s.to_string()).collect()
}

#[test]
fn decimal_notation_reads_back() {
    for n in [0u64, 7, 10, 99, 4294967295] {
        let written = text::decimal(n);
        assert_eq!(written, n.to_string());
        assert_eq!(text::parse_number(&text::chars(&written), 4294967295), Some(n));
    }
    assert_eq!(text::decimal(18446744073709551615), "18446744073709551615");
}

#[test]
fn numbers_outside_the_bound_are_none() {
    assert_eq!(text::parse_number(&text::chars("256"), 255), None);
    assert_eq!(text::parse_number(&text::chars("255"), 255), Some(255));
    assert_eq!(text::parse_number(&text::chars("+12"), 255), Some(12));
    assert_eq!(text::parse_number(&text::chars("+"), 255), None);
    assert_eq!(text::parse_number(&text::chars(""), 255), None);
    assert_eq!(text::parse_number(&text::chars("1a"), 255), None);
    assert_eq!(text::parse_number(&text::chars("99999999999999999999"), 255), None);
}

#[test]
fn strings_are_put_together_from_characters() {
    let cs = text::chars("a→b");
    assert_eq!(cs, vec!['a', '→', 'b']);
    assert_eq!(text::string(&cs), "a→b");
    assert_eq!(text::byte_len("a→b"), 5);
}

#[test]
fn lines_end_with_or_without_carriage_return() {
    let lines = text::lines(&text::chars("one\r\ntwo\n\nthree"));
    let lines: Vec<String> = lines.iter().map(|l| text::string(l)).collect();
    assert_eq!(lines, vec!["one", "two", "", "three"]);
    assert!(text::lines(&text::chars("")).is_empty());
}

#[test]
fn words_are_separated_by_any_white_space() {
    let ws = text::words(&text::chars("  a\tb\u{3000}c \n"));
    let ws: Vec<String> = ws.iter().map(|w| text::string(w)).collect();
    assert_eq!(ws, vec!["a", "b", "c"]);
    assert_eq!(text::string(text::trim(&text::chars(" \u{a0}x y\r\n"))), "x y");
}

#[test]
fn splitting_keeps_empty_parts() {
    let parts = text::split_at_each(&text::chars("a,,b,"), ',');
    assert_eq!(parts.len(), 4);
    assert_eq!(text::string(&parts[0]), "a");
    assert!(parts[1].is_empty());
    assert!(parts[3].is_empty());
}

#[test]
fn joining_puts_separators_between() {
    let parts = words(&["a", "b", "c"]);
    assert_eq!(text::join(&parts, 0, ", "), "");
    assert_eq!(text::join(&parts, 1, ", "), "a");
    assert_eq!(text::join(&parts, 3, ", "), "a, b, c");
}

#[test]
fn first_and_last_occurrences_are_found() {
    let s = text::chars("abcabc");
    assert_eq!(text::find(&s, "ca"), Some(2));
    assert_eq!(text::find(&s, "cc"), None);
    assert_eq!(text::find(&s, ""), Some(0));
    assert_eq!(text::rposition(&s, 'b'), Some(4));
    assert_eq!(text::rposition(&s, 'x'), None);
    assert!(text::has("needle in hay", "in h"));
    assert!(!text::has("hay", "needle"));
}

fn finding(level: Level, rationale: &str) -> Finding {
    Finding {
        level,
        category: Category::ControlFlow,
        rationale: rationale.to_string(),
        source: Source::Heuristic { name: "test".to_string() },
        focus_lines: None,
    }
}

#[test]
fn sorting_keeps_equal_elements_in_order() {
    let findings = vec![
        finding(Level::Skim, "a"),
        finding(Level::Review, "b"),
        finding(Level::Skim, "c"),
        finding(Level::Review, "d"),
    ];
    let sorted: Vec<String> = sort(findings).into_iter().map(|f| f.rationale).collect();
    assert_eq!(sorted, words(&["b", "d", "a", "c"]));
}

#[test]
fn sorted_lists_stay_as_they_are() {
    let sorted = words(&["a", "b", "b", "c"]);
    assert_eq!(sort(sorted.clone()), sorted);
}

#[test]
fn distinct_texts_come_in_order() {
    let given = words(&["b", "a", "b", "B", "", "a"]);
    assert_eq!(sort_distinct(given), words(&["", "B", "a", "b"]));
    assert!(sort_distinct(vec![]).is_empty());
}

#[test]
fn paths_are_compared_by_their_parts() {
    assert!(path::same("a//b/", "a/b"));
    assert!(path::same("a/./b", "a/b"));
    assert!(!path::same("a/b", "b/a"));
    assert!(!path::same("/a", "a"));
    assert!(path::comes_before("a/b", "a/c"));
    assert!(!path::comes_before("a/c", "a/b"));
}

#[test]
fn file_names_and_extensions() {
    let name = |p: &str| path::file_name(p).map(|n| text::string(&n));
    let extension = |p: &str| path::extension(p).map(|n| text::string(&n));
    assert_eq!(name("a/b/Cargo.lock"), Some("Cargo.lock".to_string()));
    assert_eq!(name("a/b/"), Some("b".to_string()));
    assert_eq!(name(".."), None);
    assert_eq!(extension("a/b.tar.gz"), Some("gz".to_string()));
    assert_eq!(extension(".bashrc"), None);
    assert_eq!(extension("a.b/c"), None);
}
