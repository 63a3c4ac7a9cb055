use garbelour::classify::Finding;
use garbelour::json::{member_array, member_natural, member_text, parse, Json};
use garbelour::wire::{category_name, level_name, side_name};
use garbelour::{Category, FocusLines, Level, Side, Source};

#[test]
fn documents_are_read_kind_by_kind() {
    let v = parse("{\"a\":[null,true,7,-1,1.5,\"s\"],\"b\":{}}").unwrap();
    let a = v.get("a").unwrap();
    assert!(matches!(a.at(0), Some(Json::Null)));
    assert!(matches!(a.at(1), Some(Json::Bool(true))));
    assert_eq!(a.at(2).unwrap().as_natural(), Some(7));
    assert!(matches!(a.at(3), Some(Json::OtherNumber)));
    assert!(matches!(a.at(4), Some(Json::OtherNumber)));
    assert_eq!(a.at(5).unwrap().as_text().unwrap(), "s");
    assert!(a.at(6).is_none());
    assert!(matches!(v.get("b"), Some(Json::Object(m)) if m.is_empty()));
    assert!(v.get("c").is_none());
}

#[test]
fn texts_that_are_no_document_are_none() {
    assert!(parse("").is_none());
    assert!(parse("{\"a\":}").is_none());
    assert!(parse("{} {}").is_none());
}

#[test]
fn members_of_the_wrong_kind_count_as_missing() {
    let v = parse("{\"n\":3,\"t\":\"x\",\"a\":[1]}").unwrap();
    assert_eq!(member_text(&v, "t", "?"), "x");
    assert_eq!(member_text(&v, "n", "?"), "?");
    assert_eq!(member_natural(&v, "n"), Some(3));
    assert_eq!(member_natural(&v, "t"), None);
    assert_eq!(member_array(&v, "a").unwrap().len(), 1);
    assert!(member_array(&v, "n").is_none());
}

fn sample() -> Json {
    Json::Object(vec![
        ("z".to_string(), Json::Natural(18446744073709551615)),
        (
            "a".to_string(),
            Json::Array(vec![Json::Text("q\"\n→".to_string()), Json::Bool(false), Json::Null]),
        ),
    ])
}

#[test]
fn compact_documents_keep_the_order_of_members() {
    assert_eq!(
        sample().compact(),
        "{\"z\":18446744073709551615,\"a\":[\"q\\\"\\n→\",false,null]}"
    );
}

#[test]
fn pretty_documents_are_indented() {
    let v = Json::Object(vec![("a".to_string(), Json::Array(vec![Json::Natural(1)]))]);
    assert_eq!(v.pretty().unwrap(), "{\n  \"a\": [\n    1\n  ]\n}");
}

#[test]
fn what_is_written_reads_back() {
    for written in [sample().compact(), sample().pretty().unwrap()] {
        let back = parse(&written).unwrap();
        assert_eq!(back.get("z").unwrap().as_natural(), Some(18446744073709551615));
        assert_eq!(back.get("a").unwrap().at(0).unwrap().as_text().unwrap(), "q\"\n→");
        assert_eq!(back.compact(), sample().compact());
    }
}

fn model_finding() -> Finding {
    Finding {
        level: Level::Skim,
        category: Category::LlmAssessed,
        rationale: "renamed → local".to_string(),
        source: Source::Llm {
            provider: "OpenAI".to_string(),
            model: "m".to_string(),
        },
        focus_lines: None,
    }
}

#[test]
fn finding_of_a_model_is_written_in_full() {
    assert_eq!(
        model_finding().to_text(),
        "{\"level\":\"skim\",\"category\":\"llm_assessed\",\"rationale\":\"renamed → local\",\
         \"source\":{\"llm\":{\"provider\":\"OpenAI\",\"model\":\"m\"}},\"focus_lines\":null}"
    );
    let back = Finding::from_text(&model_finding().to_text()).unwrap();
    assert_eq!(back.level, Level::Skim);
    assert!(back.focus_lines.is_none());
    assert!(matches!(back.source, Source::Llm { provider, model } if provider == "OpenAI" && model == "m"));
}

#[test]
fn every_category_reads_back() {
    for category in [
        Category::Generated,
        Category::Lockfile,
        Category::FormatterOnly,
        Category::CommentOnly,
        Category::ImportReorder,
        Category::PureRename,
        Category::TestFixture,
        Category::PublicApiChange,
        Category::ControlFlow,
        Category::ErrorHandlingDeleted,
        Category::NumericalCalc,
        Category::LargeChange,
        Category::LlmAssessed,
    ] {
        let mut f = model_finding();
        f.category = category;
        assert_eq!(Finding::from_text(&f.to_text()).unwrap().category, category);
    }
    assert_eq!(category_name(Category::ErrorHandlingDeleted), "error_handling_deleted");
    assert_eq!(level_name(Level::Review), "review");
    assert_eq!(side_name(Side::Old), "old");
}

#[test]
fn incomplete_findings_are_not_read() {
    let good = model_finding().to_text();
    assert!(Finding::from_text(&good).is_some());
    assert!(Finding::from_text(&good.replace("skim", "urgent")).is_none());
    assert!(Finding::from_text(&good.replace("llm_assessed", "other")).is_none());
    assert!(Finding::from_text(&good.replace("rationale", "reason")).is_none());
    assert!(Finding::from_text(&good.replace("{\"llm\"", "{\"oracle\"")).is_none());
    assert!(Finding::from_text("[]").is_none());
    assert!(Finding::from_text("not json").is_none());
    let focused = good.replace(
        "\"focus_lines\":null",
        "\"focus_lines\":{\"start\":4294967296,\"end\":1,\"side\":\"new\"}",
    );
    assert!(Finding::from_text(&focused).is_none());
    let old_side = good.replace(
        "\"focus_lines\":null",
        "\"focus_lines\":{\"start\":4,\"end\":9,\"side\":\"old\"}",
    );
    assert_eq!(
        Finding::from_text(&old_side).unwrap().focus_lines,
        Some(FocusLines { start: 4, end: 9, side: Side::Old })
    );
}
