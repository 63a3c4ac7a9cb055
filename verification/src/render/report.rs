//! The report as JSON.
use vstd::prelude::*;

use crate::classify::{Finding, FindingView, Level};
use crate::consolidate::{InclusiveLineRange, Item, ItemView, Location, LocationView};
use crate::diff::{Diff, DiffView};
use crate::json;
use crate::json::{Json, JsonView};
use crate::render;
use crate::render::Summary;
use crate::text;
use crate::wire;

verus! {

pub open spec fn location_json(l: LocationView) -> JsonView {
    JsonView::Object(
        seq![
            ("hunk_id"@, JsonView::Text(l.hunk_id)),
            ("new_line"@, JsonView::Natural(l.new_range.start as u64)),
            ("old_line"@, JsonView::Natural(l.old_range.start as u64)),
        ],
    )
}

pub open spec fn range_json(r: InclusiveLineRange) -> JsonView {
    JsonView::Object(
        seq![
            ("start"@, JsonView::Natural(r.start as u64)),
            ("end"@, JsonView::Natural(r.end as u64)),
        ],
    )
}

pub open spec fn findings_json(fs: Seq<FindingView>) -> JsonView {
    JsonView::Array(fs.map_values(|f: FindingView| wire::finding_json(f)))
}

pub open spec fn locations_json(ls: Seq<LocationView>) -> JsonView {
    JsonView::Array(ls.map_values(|l: LocationView| location_json(l)))
}

pub open spec fn item_json(item: ItemView) -> JsonView {
    JsonView::Object(
        seq![
            ("level"@, JsonView::Text(wire::level_name_of(render::level_of(item)))),
            ("file"@, JsonView::Text(item.file_path)),
            ("side"@, JsonView::Text(wire::side_name_of(item.side))),
            ("range"@, range_json(item.range)),
            ("findings"@, findings_json(item.findings)),
            ("locations"@, locations_json(item.locations)),
        ],
    )
}

pub open spec fn items_json(items: Seq<ItemView>) -> JsonView {
    JsonView::Array(items.map_values(|i: ItemView| item_json(i)))
}

pub open spec fn summary_json(items: Seq<ItemView>) -> JsonView {
    JsonView::Object(
        seq![
            ("total"@, JsonView::Natural(items.len() as u64)),
            ("review"@, JsonView::Natural(render::at_level(items, Level::Review).len() as u64)),
            ("skim"@, JsonView::Natural(render::at_level(items, Level::Skim).len() as u64)),
            ("skip"@, JsonView::Natural(render::at_level(items, Level::Skip).len() as u64)),
        ],
    )
}

/// The version of the report's form.
pub const SCHEMA_VERSION: u64 = 2;

/// The report: what was compared, the items and their counts.
pub open spec fn report_json(diff: DiffView, items: Seq<ItemView>) -> JsonView {
    JsonView::Object(
        seq![
            ("schema_version"@, JsonView::Natural(SCHEMA_VERSION)),
            ("base_sha"@, JsonView::Text(diff.base_sha)),
            ("head_sha"@, JsonView::Text(diff.head_sha)),
            ("items"@, items_json(items)),
            ("summary"@, summary_json(items)),
        ],
    )
}

fn location_value(l: &Location) -> (r: Json)
    ensures
        r@ == location_json(l@),
{
    let members: Vec<(String, Json)> = vec![
        wire::entry("hunk_id", wire::string(l.hunk_id.0.as_str())),
        wire::entry("new_line", Json::Natural(l.new_range.start as u64)),
        wire::entry("old_line", Json::Natural(l.old_range.start as u64)),
    ];
    assert(json::object_view(members@) =~= location_json(l@)->Object_0);
    Json::Object(members)
}

fn range_value(range: InclusiveLineRange) -> (r: Json)
    ensures
        r@ == range_json(range),
{
    let members: Vec<(String, Json)> = vec![
        wire::entry("start", Json::Natural(range.start as u64)),
        wire::entry("end", Json::Natural(range.end as u64)),
    ];
    assert(json::object_view(members@) =~= range_json(range)->Object_0);
    Json::Object(members)
}

fn findings_value(fs: &Vec<Finding>) -> (r: Json)
    ensures
        r@ == findings_json(text::views(fs@)),
{
    let ghost want = findings_json(text::views(fs@))->Array_0;
    let mut out: Vec<Json> = Vec::new();
    let mut i: usize = 0;
    while i < fs.len()
        invariant
            i <= fs.len(),
            want == findings_json(text::views(fs@))->Array_0,
            json::array_view(out@) == want.take(i as int),
        decreases fs.len() - i,
    {
        let ghost before = out@;
        let x: Json = fs[i].to_json();
        out.push(x);
        proof {
            assert(want[i as int] == x@);
            assert(json::array_view(out@) =~= json::array_view(before).push(x@));
            assert(want.take(i + 1) =~= want.take(i as int).push(x@));
        }
        i = i + 1;
    }
    assert(want.take(i as int) =~= want);
    Json::Array(out)
}

fn locations_value(ls: &Vec<Location>) -> (r: Json)
    ensures
        r@ == locations_json(text::views(ls@)),
{
    let ghost want = locations_json(text::views(ls@))->Array_0;
    let mut out: Vec<Json> = Vec::new();
    let mut i: usize = 0;
    while i < ls.len()
        invariant
            i <= ls.len(),
            want == locations_json(text::views(ls@))->Array_0,
            json::array_view(out@) == want.take(i as int),
        decreases ls.len() - i,
    {
        let ghost before = out@;
        let x: Json = location_value(&ls[i]);
        out.push(x);
        proof {
            assert(want[i as int] == x@);
            assert(json::array_view(out@) =~= json::array_view(before).push(x@));
            assert(want.take(i + 1) =~= want.take(i as int).push(x@));
        }
        i = i + 1;
    }
    assert(want.take(i as int) =~= want);
    Json::Array(out)
}

fn item_value(item: &Item) -> (r: Json)
    ensures
        r@ == item_json(item@),
{
    let members: Vec<(String, Json)> = vec![
        wire::entry("level", wire::string(wire::level_name(item.level()))),
        wire::entry("file", wire::string(item.file_path.as_str())),
        wire::entry("side", wire::string(wire::side_name(item.side))),
        wire::entry("range", range_value(item.range)),
        wire::entry("findings", findings_value(&item.findings)),
        wire::entry("locations", locations_value(&item.locations)),
    ];
    assert(json::object_view(members@) =~= item_json(item@)->Object_0);
    Json::Object(members)
}

fn items_value(items: &[Item]) -> (r: Json)
    ensures
        r@ == items_json(text::views(items@)),
{
    let ghost want = items_json(text::views(items@))->Array_0;
    let mut out: Vec<Json> = Vec::new();
    let mut i: usize = 0;
    while i < items.len()
        invariant
            i <= items.len(),
            want == items_json(text::views(items@))->Array_0,
            json::array_view(out@) == want.take(i as int),
        decreases items.len() - i,
    {
        let ghost before = out@;
        let x: Json = item_value(&items[i]);
        out.push(x);
        proof {
            assert(want[i as int] == x@);
            assert(json::array_view(out@) =~= json::array_view(before).push(x@));
            assert(want.take(i + 1) =~= want.take(i as int).push(x@));
        }
        i = i + 1;
    }
    assert(want.take(i as int) =~= want);
    Json::Array(out)
}

fn summary_value(items: &[Item]) -> (r: Json)
    ensures
        r@ == summary_json(text::views(items@)),
{
    let s: Summary = Summary::from_items(items);
    let members: Vec<(String, Json)> = vec![
        wire::entry("total", Json::Natural(s.total as u64)),
        wire::entry("review", Json::Natural(s.review as u64)),
        wire::entry("skim", Json::Natural(s.skim as u64)),
        wire::entry("skip", Json::Natural(s.skip as u64)),
    ];
    assert(json::object_view(members@) =~= summary_json(text::views(items@))->Object_0);
    Json::Object(members)
}

proof fn lemma_location_writable(l: LocationView)
    ensures
        json::writable(location_json(l)),
        json::nested_at_most(location_json(l), 1),
{
    let m = location_json(l)->Object_0;
    reveal_strlit("hunk_id");
    reveal_strlit("new_line");
    reveal_strlit("old_line");
    assert("new_line"@[0] != "old_line"@[0]);
    assert forall|i: int| 0 <= i < m.len() implies json::writable((#[trigger] m[i]).1)
        && json::nested_at_most(m[i].1, 0) by {
        assert(m[i].1 is Text || m[i].1 is Natural);
    }
    assert forall|i: int, j: int| 0 <= i < j < m.len() implies (#[trigger] m[i]).0 != (
    #[trigger] m[j]).0 by {
        assert(m[i].0.len() != m[j].0.len() || m[i].0[0] != m[j].0[0]);
    }
}

proof fn lemma_range_writable(r: InclusiveLineRange)
    ensures
        json::writable(range_json(r)),
        json::nested_at_most(range_json(r), 1),
{
    let m = range_json(r)->Object_0;
    reveal_strlit("start");
    reveal_strlit("end");
    assert forall|i: int| 0 <= i < m.len() implies json::writable((#[trigger] m[i]).1)
        && json::nested_at_most(m[i].1, 0) by {
        assert(m[i].1 is Natural);
    }
    assert forall|i: int, j: int| 0 <= i < j < m.len() implies (#[trigger] m[i]).0 != (
    #[trigger] m[j]).0 by {
        assert(m[i].0.len() != m[j].0.len());
    }
}

proof fn lemma_item_writable(item: ItemView)
    ensures
        json::writable(item_json(item)),
        json::nested_at_most(item_json(item), 5),
{
    let m = item_json(item)->Object_0;
    let fs = findings_json(item.findings);
    let ls = locations_json(item.locations);
    assert(json::writable(fs) && json::nested_at_most(fs, 4)) by {
        let a = fs->Array_0;
        assert forall|i: int| 0 <= i < a.len() implies json::writable(#[trigger] a[i])
            && json::nested_at_most(a[i], 3) by {
            wire::lemma_finding_writable(item.findings[i]);
        }
    }
    assert(json::writable(ls) && json::nested_at_most(ls, 4)) by {
        let a = ls->Array_0;
        assert forall|i: int| 0 <= i < a.len() implies json::writable(#[trigger] a[i])
            && json::nested_at_most(a[i], 3) by {
            lemma_location_writable(item.locations[i]);
            json::lemma_nested_more(a[i], 1, 3);
        }
    }
    lemma_range_writable(item.range);
    json::lemma_nested_more(range_json(item.range), 1, 4);
    reveal_strlit("level");
    reveal_strlit("file");
    reveal_strlit("side");
    reveal_strlit("range");
    reveal_strlit("findings");
    reveal_strlit("locations");
    assert forall|i: int| 0 <= i < m.len() implies json::writable((#[trigger] m[i]).1)
        && json::nested_at_most(m[i].1, 4) by {
        if i < 3 {
            assert(m[i].1 is Text);
        }
    }
    assert forall|i: int, j: int| 0 <= i < j < m.len() implies (#[trigger] m[i]).0 != (
    #[trigger] m[j]).0 by {
        assert(m[i].0.len() != m[j].0.len() || m[i].0[0] != m[j].0[0]);
    }
}

proof fn lemma_report_writable(diff: DiffView, items: Seq<ItemView>)
    ensures
        json::writable(report_json(diff, items)),
        json::nested_at_most(report_json(diff, items), 100),
{
    let m = report_json(diff, items)->Object_0;
    let list = items_json(items);
    let counts = summary_json(items);
    assert(json::writable(list) && json::nested_at_most(list, 6)) by {
        let a = list->Array_0;
        assert forall|i: int| 0 <= i < a.len() implies json::writable(#[trigger] a[i])
            && json::nested_at_most(a[i], 5) by {
            lemma_item_writable(items[i]);
        }
    }
    assert(json::writable(counts) && json::nested_at_most(counts, 6)) by {
        let c = counts->Object_0;
        reveal_strlit("total");
        reveal_strlit("review");
        reveal_strlit("skim");
        reveal_strlit("skip");
        assert forall|i: int| 0 <= i < c.len() implies json::writable((#[trigger] c[i]).1)
            && json::nested_at_most(c[i].1, 5) by {
            assert(c[i].1 is Natural);
        }
        assert forall|i: int, j: int| 0 <= i < j < c.len() implies (#[trigger] c[i]).0 != (
        #[trigger] c[j]).0 by {
            assert(c[i].0.len() != c[j].0.len() || c[i].0[3] != c[j].0[3]);
        }
    }
    reveal_strlit("schema_version");
    reveal_strlit("base_sha");
    reveal_strlit("head_sha");
    reveal_strlit("items");
    reveal_strlit("summary");
    assert forall|i: int| 0 <= i < m.len() implies json::writable((#[trigger] m[i]).1)
        && json::nested_at_most(m[i].1, 6) by {
        if i < 3 {
            assert(m[i].1 is Text || m[i].1 is Natural);
        }
    }
    assert forall|i: int, j: int| 0 <= i < j < m.len() implies (#[trigger] m[i]).0 != (
    #[trigger] m[j]).0 by {
        assert(m[i].0.len() != m[j].0.len() || m[i].0[0] != m[j].0[0]);
    }
    json::lemma_nested_more(report_json(diff, items), 7, 100);
}

/// The report as an indented JSON document, which reads back as the report.
pub fn json(diff: &Diff, items: &[Item]) -> (r: Result<String, serde_json::Error>)
    ensures
        r is Ok,
        r.unwrap()@ == json::json_pretty(report_json(diff@, text::views(items@))),
        json::json_read(r.unwrap()@) == Some(report_json(diff@, text::views(items@))),
{
    let ghost want = report_json(diff@, text::views(items@));
    let members: Vec<(String, Json)> = vec![
        wire::entry("schema_version", Json::Natural(SCHEMA_VERSION)),
        wire::entry("base_sha", wire::string(diff.base_sha.as_str())),
        wire::entry("head_sha", wire::string(diff.head_sha.as_str())),
        wire::entry("items", items_value(items)),
        wire::entry("summary", summary_value(items)),
    ];
    assert(json::object_view(members@) =~= want->Object_0);
    proof {
        lemma_report_writable(diff@, text::views(items@));
    }
    Json::Object(members).pretty()
}

// --- what the report says ------------------------------------------------

proof fn lemma_keys()
    ensures
        "schema_version"@.len() == 14,
        "base_sha"@.len() == 8 && "base_sha"@[0] == 'b',
        "head_sha"@.len() == 8 && "head_sha"@[0] == 'h',
        "items"@.len() == 5 && "items"@[0] == 'i',
        "summary"@.len() == 7,
        "level"@.len() == 5 && "level"@[0] == 'l',
        "file"@.len() == 4 && "file"@[0] == 'f',
        "side"@.len() == 4 && "side"@[0] == 's',
        "range"@.len() == 5 && "range"@[0] == 'r',
        "findings"@.len() == 8,
        "locations"@.len() == 9,
        "start"@.len() == 5,
        "end"@.len() == 3,
        "hunk_id"@.len() == 7,
        "new_line"@.len() == 8 && "new_line"@[0] == 'n',
        "old_line"@.len() == 8 && "old_line"@[0] == 'o',
        "total"@.len() == 5,
        "review"@.len() == 6,
        "skim"@.len() == 4 && "skim"@[3] == 'm',
        "skip"@.len() == 4 && "skip"@[3] == 'p',
{
    reveal_strlit("schema_version");
    reveal_strlit("base_sha");
    reveal_strlit("head_sha");
    reveal_strlit("items");
    reveal_strlit("summary");
    reveal_strlit("level");
    reveal_strlit("file");
    reveal_strlit("side");
    reveal_strlit("range");
    reveal_strlit("findings");
    reveal_strlit("locations");
    reveal_strlit("start");
    reveal_strlit("end");
    reveal_strlit("hunk_id");
    reveal_strlit("new_line");
    reveal_strlit("old_line");
    reveal_strlit("total");
    reveal_strlit("review");
    reveal_strlit("skim");
    reveal_strlit("skip");
}

/// The report names the two commits and the version of its form, and lists every
/// item, in order, with how many there are and how many of each level.
pub proof fn law_report(diff: DiffView, items: Seq<ItemView>)
    requires
        items.len() <= u64::MAX,
    ensures
        ({
            let r = report_json(diff, items);
            let s = json::member(r, "summary"@);
            &&& json::member(r, "schema_version"@) == JsonView::Natural(2)
            &&& json::member(r, "base_sha"@) == JsonView::Text(diff.base_sha)
            &&& json::member(r, "head_sha"@) == JsonView::Text(diff.head_sha)
            &&& json::member(s, "total"@) == JsonView::Natural(items.len() as u64)
            &&& json::member(s, "review"@) == JsonView::Natural(
                render::at_level(items, Level::Review).len() as u64,
            )
            &&& json::member(s, "skim"@) == JsonView::Natural(
                render::at_level(items, Level::Skim).len() as u64,
            )
            &&& json::member(s, "skip"@) == JsonView::Natural(
                render::at_level(items, Level::Skip).len() as u64,
            )
            &&& json::member(r, "items"@) matches JsonView::Array(a)
            &&& a.len() == items.len()
            &&& forall|i: int| 0 <= i < items.len() ==> #[trigger] a[i] == item_json(items[i])
        }),
{
    lemma_keys();
    let m = report_json(diff, items)->Object_0;
    json::law_member(m, "schema_version"@, 0);
    json::law_member(m, "base_sha"@, 1);
    json::law_member(m, "head_sha"@, 2);
    json::law_member(m, "items"@, 3);
    json::law_member(m, "summary"@, 4);
    let n = summary_json(items)->Object_0;
    json::law_member(n, "total"@, 0);
    json::law_member(n, "review"@, 1);
    json::law_member(n, "skim"@, 2);
    json::law_member(n, "skip"@, 3);
}

/// The report tells of an item its level, file, side and lines, every finding, and
/// every hunk with the lines that it begins on.
pub proof fn law_reported_item(item: ItemView)
    ensures
        ({
            let o = item_json(item);
            let range = json::member(o, "range"@);
            &&& json::member(o, "level"@) == JsonView::Text(
                wire::level_name_of(crate::consolidate::top_level(item.findings)),
            )
            &&& json::member(o, "file"@) == JsonView::Text(item.file_path)
            &&& json::member(o, "side"@) == JsonView::Text(wire::side_name_of(item.side))
            &&& json::member(range, "start"@) == JsonView::Natural(item.range.start as u64)
            &&& json::member(range, "end"@) == JsonView::Natural(item.range.end as u64)
            &&& json::member(o, "findings"@) matches JsonView::Array(fs)
            &&& fs.len() == item.findings.len()
            &&& forall|k: int|
                0 <= k < fs.len() ==> #[trigger] fs[k] == wire::finding_json(item.findings[k])
            &&& json::member(o, "locations"@) matches JsonView::Array(ls)
            &&& ls.len() == item.locations.len()
            &&& forall|k: int|
                0 <= k < ls.len() ==> json::member(#[trigger] ls[k], "hunk_id"@) == JsonView::Text(
                    item.locations[k].hunk_id,
                ) && json::member(ls[k], "new_line"@) == JsonView::Natural(
                    item.locations[k].new_range.start as u64,
                ) && json::member(ls[k], "old_line"@) == JsonView::Natural(
                    item.locations[k].old_range.start as u64,
                )
        }),
{
    lemma_keys();
    let m = item_json(item)->Object_0;
    json::law_member(m, "level"@, 0);
    json::law_member(m, "file"@, 1);
    json::law_member(m, "side"@, 2);
    json::law_member(m, "range"@, 3);
    json::law_member(m, "findings"@, 4);
    json::law_member(m, "locations"@, 5);
    let r = range_json(item.range)->Object_0;
    json::law_member(r, "start"@, 0);
    json::law_member(r, "end"@, 1);
    let ls = locations_json(item.locations)->Array_0;
    assert forall|k: int| 0 <= k < ls.len() implies json::member(#[trigger] ls[k], "hunk_id"@)
        == JsonView::Text(item.locations[k].hunk_id) && json::member(ls[k], "new_line"@)
        == JsonView::Natural(item.locations[k].new_range.start as u64) && json::member(
        ls[k],
        "old_line"@,
    ) == JsonView::Natural(item.locations[k].old_range.start as u64) by {
        let l = location_json(item.locations[k])->Object_0;
        assert(ls[k] == location_json(item.locations[k]));
        json::law_member(l, "hunk_id"@, 0);
        json::law_member(l, "new_line"@, 1);
        json::law_member(l, "old_line"@, 2);
    }
}

} // verus!
