//! Findings as JSON values, written and read back.
use vstd::prelude::*;

use crate::classify::{
    Category, Finding, FindingView, FocusLines, Level, Side, Source, SourceView,
};
use crate::json;
use crate::json::{Json, JsonView};
use crate::text;

verus! {

// --- names ---------------------------------------------------------------

pub open spec fn level_name_of(level: Level) -> Seq<char> {
    match level {
        Level::Skip => "skip"@,
        Level::Skim => "skim"@,
        Level::Review => "review"@,
    }
}

pub open spec fn side_name_of(side: Side) -> Seq<char> {
    match side {
        Side::Old => "old"@,
        Side::New => "new"@,
    }
}

pub open spec fn category_name_of(c: Category) -> Seq<char> {
    match c {
        Category::Generated => "generated"@,
        Category::Lockfile => "lockfile"@,
        Category::FormatterOnly => "formatter_only"@,
        Category::CommentOnly => "comment_only"@,
        Category::ImportReorder => "import_reorder"@,
        Category::PureRename => "pure_rename"@,
        Category::TestFixture => "test_fixture"@,
        Category::PublicApiChange => "public_api_change"@,
        Category::ControlFlow => "control_flow"@,
        Category::ErrorHandlingDeleted => "error_handling_deleted"@,
        Category::NumericalCalc => "numerical_calc"@,
        Category::LargeChange => "large_change"@,
        Category::LlmAssessed => "llm_assessed"@,
    }
}

/// The name of a level.
pub fn level_name(level: Level) -> (r: &'static str)
    ensures
        r@ == level_name_of(level),
{
    match level {
        Level::Skip => "skip",
        Level::Skim => "skim",
        Level::Review => "review",
    }
}

/// The name of a side.
pub fn side_name(side: Side) -> (r: &'static str)
    ensures
        r@ == side_name_of(side),
{
    match side {
        Side::Old => "old",
        Side::New => "new",
    }
}

/// The name of a category.
pub fn category_name(c: Category) -> (r: &'static str)
    ensures
        r@ == category_name_of(c),
{
    match c {
        Category::Generated => "generated",
        Category::Lockfile => "lockfile",
        Category::FormatterOnly => "formatter_only",
        Category::CommentOnly => "comment_only",
        Category::ImportReorder => "import_reorder",
        Category::PureRename => "pure_rename",
        Category::TestFixture => "test_fixture",
        Category::PublicApiChange => "public_api_change",
        Category::ControlFlow => "control_flow",
        Category::ErrorHandlingDeleted => "error_handling_deleted",
        Category::NumericalCalc => "numerical_calc",
        Category::LargeChange => "large_change",
        Category::LlmAssessed => "llm_assessed",
    }
}

/// The level with this name.
pub open spec fn level_named(s: Seq<char>) -> Option<Level> {
    if s == "skip"@ {
        Some(Level::Skip)
    } else if s == "skim"@ {
        Some(Level::Skim)
    } else if s == "review"@ {
        Some(Level::Review)
    } else {
        None
    }
}

/// The side with this name.
pub open spec fn side_named(s: Seq<char>) -> Option<Side> {
    if s == "old"@ {
        Some(Side::Old)
    } else if s == "new"@ {
        Some(Side::New)
    } else {
        None
    }
}

/// The category with this name.
pub open spec fn category_named(s: Seq<char>) -> Option<Category> {
    if s == "generated"@ {
        Some(Category::Generated)
    } else if s == "lockfile"@ {
        Some(Category::Lockfile)
    } else if s == "formatter_only"@ {
        Some(Category::FormatterOnly)
    } else if s == "comment_only"@ {
        Some(Category::CommentOnly)
    } else if s == "import_reorder"@ {
        Some(Category::ImportReorder)
    } else if s == "pure_rename"@ {
        Some(Category::PureRename)
    } else if s == "test_fixture"@ {
        Some(Category::TestFixture)
    } else if s == "public_api_change"@ {
        Some(Category::PublicApiChange)
    } else if s == "control_flow"@ {
        Some(Category::ControlFlow)
    } else if s == "error_handling_deleted"@ {
        Some(Category::ErrorHandlingDeleted)
    } else if s == "numerical_calc"@ {
        Some(Category::NumericalCalc)
    } else if s == "large_change"@ {
        Some(Category::LargeChange)
    } else if s == "llm_assessed"@ {
        Some(Category::LlmAssessed)
    } else {
        None
    }
}

fn find_level(s: &str) -> (r: Option<Level>)
    ensures
        r == level_named(s@),
{
    if text::str_same(s, "skip") {
        Some(Level::Skip)
    } else if text::str_same(s, "skim") {
        Some(Level::Skim)
    } else if text::str_same(s, "review") {
        Some(Level::Review)
    } else {
        None
    }
}

fn find_side(s: &str) -> (r: Option<Side>)
    ensures
        r == side_named(s@),
{
    if text::str_same(s, "old") {
        Some(Side::Old)
    } else if text::str_same(s, "new") {
        Some(Side::New)
    } else {
        None
    }
}

fn find_category(s: &str) -> (r: Option<Category>)
    ensures
        r == category_named(s@),
{
    if text::str_same(s, "generated") {
        Some(Category::Generated)
    } else if text::str_same(s, "lockfile") {
        Some(Category::Lockfile)
    } else if text::str_same(s, "formatter_only") {
        Some(Category::FormatterOnly)
    } else if text::str_same(s, "comment_only") {
        Some(Category::CommentOnly)
    } else if text::str_same(s, "import_reorder") {
        Some(Category::ImportReorder)
    } else if text::str_same(s, "pure_rename") {
        Some(Category::PureRename)
    } else if text::str_same(s, "test_fixture") {
        Some(Category::TestFixture)
    } else if text::str_same(s, "public_api_change") {
        Some(Category::PublicApiChange)
    } else if text::str_same(s, "control_flow") {
        Some(Category::ControlFlow)
    } else if text::str_same(s, "error_handling_deleted") {
        Some(Category::ErrorHandlingDeleted)
    } else if text::str_same(s, "numerical_calc") {
        Some(Category::NumericalCalc)
    } else if text::str_same(s, "large_change") {
        Some(Category::LargeChange)
    } else if text::str_same(s, "llm_assessed") {
        Some(Category::LlmAssessed)
    } else {
        None
    }
}

/// Each level has a name of its own.
pub proof fn law_level_names(level: Level)
    ensures
        level_named(level_name_of(level)) == Some(level),
{
    reveal_strlit("skip");
    reveal_strlit("skim");
    reveal_strlit("review");
    assert("skip"@[3] != "skim"@[3]);
    assert("skip"@.len() != "review"@.len());
    assert("skim"@.len() != "review"@.len());
}

/// Each side has a name of its own.
pub proof fn law_side_names(side: Side)
    ensures
        side_named(side_name_of(side)) == Some(side),
{
    reveal_strlit("old");
    reveal_strlit("new");
    assert("old"@[0] != "new"@[0]);
}

/// Each category has a name of its own.
pub proof fn law_category_names(c: Category)
    ensures
        category_named(category_name_of(c)) == Some(c),
{
    reveal_strlit("generated");
    reveal_strlit("lockfile");
    reveal_strlit("formatter_only");
    reveal_strlit("comment_only");
    reveal_strlit("import_reorder");
    reveal_strlit("pure_rename");
    reveal_strlit("test_fixture");
    reveal_strlit("public_api_change");
    reveal_strlit("control_flow");
    reveal_strlit("error_handling_deleted");
    reveal_strlit("numerical_calc");
    reveal_strlit("large_change");
    reveal_strlit("llm_assessed");
    // Any two names differ in their length or in one of the first three letters.
    let name = category_name_of(c);
    let sign = (name.len(), name[0], name[1], name[2]);
    assert("comment_only"@[0] == 'c' && "comment_only"@[2] == 'm');
    assert("control_flow"@[0] == 'c' && "control_flow"@[2] == 'n');
    assert("test_fixture"@[0] == 't');
    assert("large_change"@[0] == 'l' && "large_change"@[1] == 'a');
    assert("llm_assessed"@[0] == 'l' && "llm_assessed"@[1] == 'l');
    assert("formatter_only"@[0] == 'f');
    assert("import_reorder"@[0] == 'i');
    assert("numerical_calc"@[0] == 'n');
}

// --- findings ------------------------------------------------------------

pub open spec fn source_json(s: SourceView) -> JsonView {
    match s {
        SourceView::Heuristic { name } => JsonView::Object(
            seq![("heuristic"@, JsonView::Object(seq![("name"@, JsonView::Text(name))]))],
        ),
        SourceView::Llm { provider, model } => JsonView::Object(
            seq![
                (
                    "llm"@,
                    JsonView::Object(
                        seq![
                            ("provider"@, JsonView::Text(provider)),
                            ("model"@, JsonView::Text(model)),
                        ],
                    ),
                ),
            ],
        ),
    }
}

pub open spec fn focus_json(f: Option<FocusLines>) -> JsonView {
    match f {
        Some(x) => JsonView::Object(
            seq![
                ("start"@, JsonView::Natural(x.start as u64)),
                ("end"@, JsonView::Natural(x.end as u64)),
                ("side"@, JsonView::Text(side_name_of(x.side))),
            ],
        ),
        None => JsonView::Null,
    }
}

pub open spec fn finding_json(f: FindingView) -> JsonView {
    JsonView::Object(
        seq![
            ("level"@, JsonView::Text(level_name_of(f.level))),
            ("category"@, JsonView::Text(category_name_of(f.category))),
            ("rationale"@, JsonView::Text(f.rationale)),
            ("source"@, source_json(f.source)),
            ("focus_lines"@, focus_json(f.focus_lines)),
        ],
    )
}

/// A text as a JSON value.
pub(crate) fn string(s: &str) -> (r: Json)
    ensures
        r@ == JsonView::Text(s@),
{
    Json::Text(s.to_string())
}

/// A member of an object.
pub(crate) fn entry(key: &str, value: Json) -> (r: (String, Json))
    ensures
        r.0@ == key@,
        r.1 == value,
{
    (key.to_string(), value)
}

fn source_value(s: &Source) -> (r: Json)
    ensures
        r@ == source_json(s@),
{
    match s {
        Source::Heuristic { name } => {
            let parts: Vec<(String, Json)> = vec![entry("name", string(name.as_str()))];
            assert(json::object_view(parts@) =~= seq![("name"@, JsonView::Text(name@))]);
            let members: Vec<(String, Json)> = vec![entry("heuristic", Json::Object(parts))];
            assert(json::object_view(members@) =~= source_json(s@)->Object_0);
            Json::Object(members)
        },
        Source::Llm { provider, model } => {
            let parts: Vec<(String, Json)> = vec![
                entry("provider", string(provider.as_str())),
                entry("model", string(model.as_str())),
            ];
            assert(json::object_view(parts@) =~= seq![
                ("provider"@, JsonView::Text(provider@)),
                ("model"@, JsonView::Text(model@)),
            ]);
            let members: Vec<(String, Json)> = vec![entry("llm", Json::Object(parts))];
            assert(json::object_view(members@) =~= source_json(s@)->Object_0);
            Json::Object(members)
        },
    }
}

fn focus_value(f: Option<FocusLines>) -> (r: Json)
    ensures
        r@ == focus_json(f),
{
    match f {
        Some(x) => {
            let members: Vec<(String, Json)> = vec![
                entry("start", Json::Natural(x.start as u64)),
                entry("end", Json::Natural(x.end as u64)),
                entry("side", string(side_name(x.side))),
            ];
            assert(json::object_view(members@) =~= focus_json(f)->Object_0);
            Json::Object(members)
        },
        None => Json::Null,
    }
}

// --- reading back --------------------------------------------------------

pub open spec fn level_read(v: JsonView) -> Option<Level> {
    match v {
        JsonView::Text(s) => level_named(s),
        _ => None,
    }
}

pub open spec fn side_read(v: JsonView) -> Option<Side> {
    match v {
        JsonView::Text(s) => side_named(s),
        _ => None,
    }
}

pub open spec fn category_read(v: JsonView) -> Option<Category> {
    match v {
        JsonView::Text(s) => category_named(s),
        _ => None,
    }
}

/// The line number that a value is.
pub open spec fn line_read(v: JsonView) -> Option<u32> {
    match v {
        JsonView::Natural(n) => if n <= u32::MAX {
            Some(n as u32)
        } else {
            None
        },
        _ => None,
    }
}

/// The source that an object with one member names.
pub open spec fn source_read(v: JsonView) -> Option<SourceView> {
    match v {
        JsonView::Object(m) => if m.len() != 1 {
            None
        } else if m[0].0 == "heuristic"@ {
            match json::text_of(json::member(m[0].1, "name"@)) {
                Some(name) => Some(SourceView::Heuristic { name }),
                None => None,
            }
        } else if m[0].0 == "llm"@ {
            match (
                json::text_of(json::member(m[0].1, "provider"@)),
                json::text_of(json::member(m[0].1, "model"@)),
            ) {
                (Some(provider), Some(model)) => Some(SourceView::Llm { provider, model }),
                _ => None,
            }
        } else {
            None
        },
        _ => None,
    }
}

/// The lines, or that there are none.
pub open spec fn focus_read(v: JsonView) -> Option<Option<FocusLines>> {
    match v {
        JsonView::Null => Some(None),
        _ => match (
            line_read(json::member(v, "start"@)),
            line_read(json::member(v, "end"@)),
            side_read(json::member(v, "side"@)),
        ) {
            (Some(start), Some(end), Some(side)) => Some(Some(FocusLines { start, end, side })),
            _ => None,
        },
    }
}

/// The finding that a value holds.
pub open spec fn finding_read(v: JsonView) -> Option<FindingView> {
    match (
        level_read(json::member(v, "level"@)),
        category_read(json::member(v, "category"@)),
        json::text_of(json::member(v, "rationale"@)),
        source_read(json::member(v, "source"@)),
        focus_read(json::member(v, "focus_lines"@)),
    ) {
        (Some(level), Some(category), Some(rationale), Some(source), Some(focus_lines)) => Some(
            FindingView { level, category, rationale, source, focus_lines },
        ),
        _ => None,
    }
}

/// The finding that a text holds as a JSON document.
pub open spec fn finding_in(s: Seq<char>) -> Option<FindingView> {
    match json::json_read(s) {
        Some(v) => finding_read(v),
        None => None,
    }
}

fn read_line(v: Option<u64>) -> (r: Option<u32>)
    ensures
        r == (match v {
            Some(n) => line_read(JsonView::Natural(n)),
            None => None,
        }),
{
    match v {
        Some(n) => if n <= u32::MAX as u64 {
            Some(n as u32)
        } else {
            None
        },
        None => None,
    }
}

/// The text under a key.
fn text_at<'a>(v: &'a Json, key: &str) -> (r: Option<&'a String>)
    ensures
        text::opt_view(r) == json::text_of(json::member(v@, key@)),
{
    match v.get(key) {
        Some(m) => m.as_text(),
        None => None,
    }
}

fn read_source(v: &Json) -> (r: Option<Source>)
    ensures
        text::opt_view(r) == source_read(v@),
{
    match v {
        Json::Object(m) => {
            if m.len() != 1 {
                return None;
            }
            let inner: &Json = &m[0].1;
            assert(v@->Object_0[0] == (m@[0].0@, m@[0].1@));
            if text::str_same(m[0].0.as_str(), "heuristic") {
                match text_at(inner, "name") {
                    Some(name) => Some(Source::Heuristic { name: name.clone() }),
                    None => None,
                }
            } else if text::str_same(m[0].0.as_str(), "llm") {
                match (text_at(inner, "provider"), text_at(inner, "model")) {
                    (Some(provider), Some(model)) => Some(
                        Source::Llm { provider: provider.clone(), model: model.clone() },
                    ),
                    _ => None,
                }
            } else {
                None
            }
        },
        _ => None,
    }
}

fn read_focus(v: &Json) -> (r: Option<Option<FocusLines>>)
    ensures
        r == focus_read(v@),
{
    match v {
        Json::Null => return Some(None),
        _ => {},
    }
    let start: Option<u32> = read_line(json::member_natural(v, "start"));
    let end: Option<u32> = read_line(json::member_natural(v, "end"));
    let side: Option<Side> = match text_at(v, "side") {
        Some(s) => find_side(s.as_str()),
        None => None,
    };
    match (start, end, side) {
        (Some(start), Some(end), Some(side)) => Some(Some(FocusLines { start, end, side })),
        _ => None,
    }
}

impl Finding {
    /// The finding as a JSON value.
    pub fn to_json(&self) -> (r: Json)
        ensures
            r@ == finding_json(self@),
    {
        let members: Vec<(String, Json)> = vec![
            entry("level", string(level_name(self.level))),
            entry("category", string(category_name(self.category))),
            entry("rationale", string(self.rationale.as_str())),
            entry("source", source_value(&self.source)),
            entry("focus_lines", focus_value(self.focus_lines)),
        ];
        assert(json::object_view(members@) =~= finding_json(self@)->Object_0);
        Json::Object(members)
    }

    /// The finding that a JSON value holds.
    pub fn from_json(v: &Json) -> (r: Option<Finding>)
        ensures
            text::opt_view(r) == finding_read(v@),
    {
        let level: Level = match text_at(v, "level") {
            Some(s) => match find_level(s.as_str()) {
                Some(x) => x,
                None => return None,
            },
            None => return None,
        };
        let category: Category = match text_at(v, "category") {
            Some(s) => match find_category(s.as_str()) {
                Some(x) => x,
                None => return None,
            },
            None => return None,
        };
        let rationale: String = match text_at(v, "rationale") {
            Some(s) => s.clone(),
            None => return None,
        };
        let source: Source = match v.get("source") {
            Some(s) => match read_source(s) {
                Some(x) => x,
                None => return None,
            },
            None => return None,
        };
        let focus_lines: Option<FocusLines> = match v.get("focus_lines") {
            Some(f) => match read_focus(f) {
                Some(x) => x,
                None => return None,
            },
            None => None,
        };
        Some(Finding { level, category, rationale, source, focus_lines })
    }

    /// The finding as a JSON document, which reads back as the same finding.
    pub fn to_text(&self) -> (r: String)
        ensures
            r@ == json::json_compact(finding_json(self@)),
            finding_in(r@) == Some(self@),
    {
        proof {
            lemma_finding_writable(self@);
            law_finding_round_trips(self@);
        }
        self.to_json().compact()
    }

    /// The finding that a text holds as a JSON document.
    pub fn from_text(s: &str) -> (r: Option<Finding>)
        ensures
            text::opt_view(r) == finding_in(s@),
    {
        match json::parse(s) {
            Some(v) => Finding::from_json(&v),
            None => None,
        }
    }
}

proof fn lemma_source_writable(s: SourceView)
    ensures
        json::writable(source_json(s)),
        json::nested_at_most(source_json(s), 2),
{
    let m = source_json(s)->Object_0;
    let inner = m[0].1;
    let parts = inner->Object_0;
    reveal_strlit("provider");
    reveal_strlit("model");
    assert(json::writable(inner)) by {
        assert forall|i: int| 0 <= i < parts.len() implies json::writable(
            (#[trigger] parts[i]).1,
        ) by {
            assert(parts[i].1 is Text);
        }
        assert forall|i: int, j: int| 0 <= i < j < parts.len() implies (#[trigger] parts[i]).0 != (
        #[trigger] parts[j]).0 by {
            assert(parts[i].0.len() != parts[j].0.len());
        }
    }
    assert(json::nested_at_most(inner, 1)) by {
        assert forall|i: int| 0 <= i < parts.len() implies json::nested_at_most(
            (#[trigger] parts[i]).1,
            0,
        ) by {
            assert(parts[i].1 is Text);
        }
    }
    assert forall|i: int| 0 <= i < m.len() implies json::writable((#[trigger] m[i]).1)
        && json::nested_at_most(m[i].1, 1) by {
        assert(m[i].1 == inner);
    }
}

proof fn lemma_focus_writable(f: Option<FocusLines>)
    ensures
        json::writable(focus_json(f)),
        json::nested_at_most(focus_json(f), 1),
{
    if f is Some {
        let m = focus_json(f)->Object_0;
        reveal_strlit("start");
        reveal_strlit("end");
        reveal_strlit("side");
        assert forall|i: int| 0 <= i < m.len() implies json::writable((#[trigger] m[i]).1)
            && json::nested_at_most(m[i].1, 0) by {
            assert(m[i].1 is Text || m[i].1 is Natural);
        }
        assert forall|i: int, j: int| 0 <= i < j < m.len() implies (#[trigger] m[i]).0 != (
        #[trigger] m[j]).0 by {
            assert(m[i].0.len() != m[j].0.len());
        }
    }
}

/// A finding can be written.
pub proof fn lemma_finding_writable(f: FindingView)
    ensures
        json::writable(finding_json(f)),
        json::nested_at_most(finding_json(f), 3),
        json::nested_at_most(finding_json(f), 100),
{
    let m = finding_json(f)->Object_0;
    lemma_source_writable(f.source);
    lemma_focus_writable(f.focus_lines);
    json::lemma_nested_more(source_json(f.source), 2, 2);
    json::lemma_nested_more(focus_json(f.focus_lines), 1, 2);
    reveal_strlit("level");
    reveal_strlit("category");
    reveal_strlit("rationale");
    reveal_strlit("source");
    reveal_strlit("focus_lines");
    assert forall|i: int| 0 <= i < m.len() implies json::writable((#[trigger] m[i]).1)
        && json::nested_at_most(m[i].1, 2) by {
        if i < 3 {
            assert(m[i].1 is Text);
        }
    }
    assert forall|i: int, j: int| 0 <= i < j < m.len() implies (#[trigger] m[i]).0 != (
    #[trigger] m[j]).0 by {
        assert(m[i].0.len() != m[j].0.len());
    }
    json::lemma_nested_more(finding_json(f), 3, 100);
}

/// A finding that is written as a JSON value is read back as it was.
pub proof fn law_finding_round_trips(f: FindingView)
    ensures
        finding_read(finding_json(f)) == Some(f),
{
    law_level_names(f.level);
    law_category_names(f.category);
    reveal_strlit("level");
    reveal_strlit("category");
    reveal_strlit("rationale");
    reveal_strlit("source");
    reveal_strlit("focus_lines");
    let m = finding_json(f)->Object_0;
    assert forall|i: int, j: int| 0 <= i < j < m.len() implies (#[trigger] m[i]).0 != (
    #[trigger] m[j]).0 by {
        assert(m[i].0.len() != m[j].0.len());
    }
    json::lemma_member(m, 0);
    json::lemma_member(m, 1);
    json::lemma_member(m, 2);
    json::lemma_member(m, 3);
    json::lemma_member(m, 4);
    assert(source_read(source_json(f.source)) == Some(f.source)) by {
        let s = source_json(f.source)->Object_0;
        let parts = s[0].1->Object_0;
        reveal_strlit("heuristic");
        reveal_strlit("llm");
        reveal_strlit("provider");
        reveal_strlit("model");
        assert("heuristic"@.len() != "llm"@.len());
        assert forall|i: int, j: int| 0 <= i < j < parts.len() implies (#[trigger] parts[i]).0 != (
        #[trigger] parts[j]).0 by {
            assert(parts[i].0.len() != parts[j].0.len());
        }
        json::lemma_member(parts, 0);
        if f.source is Llm {
            json::lemma_member(parts, 1);
        }
    }
    assert(focus_read(focus_json(f.focus_lines)) == Some(f.focus_lines)) by {
        if f.focus_lines is Some {
            let x = f.focus_lines.unwrap();
            law_side_names(x.side);
            let parts = focus_json(f.focus_lines)->Object_0;
            reveal_strlit("start");
            reveal_strlit("end");
            reveal_strlit("side");
            assert forall|i: int, j: int| 0 <= i < j < parts.len() implies (#[trigger] parts[i]).0
                != (#[trigger] parts[j]).0 by {
                assert(parts[i].0.len() != parts[j].0.len());
            }
            json::lemma_member(parts, 0);
            json::lemma_member(parts, 1);
            json::lemma_member(parts, 2);
        }
    }
}

// --- only what is written is read ----------------------------------------

/// A level, a side and a category are read under their own names alone; levels and
/// sides have these names.
pub proof fn law_names(s: Seq<char>, level: Level, side: Side, c: Category)
    ensures
        level_named(s) == Some(level) ==> s == level_name_of(level),
        side_named(s) == Some(side) ==> s == side_name_of(side),
        category_named(s) == Some(c) ==> s == category_name_of(c),
        level_name_of(Level::Review) == "review"@,
        level_name_of(Level::Skim) == "skim"@,
        level_name_of(Level::Skip) == "skip"@,
        side_name_of(Side::New) == "new"@,
        side_name_of(Side::Old) == "old"@,
{
}

/// Where a finding is read, its level, category and rationale are given by their
/// names, its source is a rule or a model as it is named, and its lines are given
/// in full or not at all.
pub proof fn law_findings_are_read(v: JsonView, f: FindingView)
    requires
        finding_read(v) == Some(f),
    ensures
        json::member(v, "level"@) == JsonView::Text(level_name_of(f.level)),
        json::member(v, "category"@) == JsonView::Text(category_name_of(f.category)),
        json::member(v, "rationale"@) == JsonView::Text(f.rationale),
        json::member(v, "source"@) matches JsonView::Object(m) && m.len() == 1 && match f.source {
            SourceView::Heuristic { name } => m[0].0 == "heuristic"@ && json::member(
                m[0].1,
                "name"@,
            ) == JsonView::Text(name),
            SourceView::Llm { provider, model } => m[0].0 == "llm"@ && json::member(
                m[0].1,
                "provider"@,
            ) == JsonView::Text(provider) && json::member(m[0].1, "model"@) == JsonView::Text(model),
        },
        f.focus_lines is None <==> json::member(v, "focus_lines"@) == JsonView::Null,
        f.focus_lines matches Some(x) ==> {
            let l = json::member(v, "focus_lines"@);
            &&& json::member(l, "start"@) == JsonView::Natural(x.start as u64)
            &&& json::member(l, "end"@) == JsonView::Natural(x.end as u64)
            &&& json::member(l, "side"@) == JsonView::Text(side_name_of(x.side))
        },
{
    let level = json::member(v, "level"@);
    let category = json::member(v, "category"@);
    law_names(level->Text_0, f.level, Side::New, f.category);
    law_names(category->Text_0, f.level, Side::New, f.category);
    match f.focus_lines {
        Some(x) => {
            let l = json::member(v, "focus_lines"@);
            law_names(json::member(l, "side"@)->Text_0, f.level, x.side, f.category);
        },
        None => {},
    }
}

} // verus!
