//! Output: for a terminal, as markdown for a sticky comment, and as JSON.
//!
//! Each is made from the items. An item is shown with one anchor and, where it
//! holds more than one finding, a list of them.
use vstd::prelude::*;

use crate::classify;
use crate::classify::{Category, Finding, FindingView, Level, Side, Source, SourceView};
use crate::consolidate;
use crate::consolidate::{Item, ItemView, Location, LocationView};
use crate::order;
use crate::text;

pub mod comment;
pub mod report;
pub mod terminal;

pub use comment::{diff_anchor, markdown, RepoRef, STICKY_MARKER};
pub use report::json;
pub use terminal::human;

verus! {

/// How many items there are, and how many at each level.
#[derive(Clone, Copy, Debug, Default)]
pub struct Summary {
    pub total: usize,
    pub review: usize,
    pub skim: usize,
    pub skip: usize,
}

/// The level that an item is shown at: the highest of its findings.
pub open spec fn level_of(item: ItemView) -> Level {
    consolidate::top_level(item.findings)
}

/// The items that are shown at a level, as they stand.
pub open spec fn at_level(items: Seq<ItemView>, level: Level) -> Seq<ItemView>
    decreases items.len(),
{
    if items.len() == 0 {
        Seq::empty()
    } else {
        let before = at_level(items.drop_last(), level);
        if level_of(items.last()) == level {
            before.push(items.last())
        } else {
            before
        }
    }
}

impl Summary {
    /// Counts the items.
    pub fn from_items(items: &[Item]) -> (s: Self)
        ensures
            s.total == items@.len(),
            s.review == at_level(text::views(items@), Level::Review).len(),
            s.skim == at_level(text::views(items@), Level::Skim).len(),
            s.skip == at_level(text::views(items@), Level::Skip).len(),
            s.total == s.review + s.skim + s.skip,
    {
        let ghost all = text::views(items@);
        let mut s: Summary = Summary { total: 0, review: 0, skim: 0, skip: 0 };
        let mut i: usize = 0;
        while i < items.len()
            invariant
                i <= items.len(),
                all == text::views(items@),
                s.total == i,
                s.total == s.review + s.skim + s.skip,
                s.review == at_level(all.take(i as int), Level::Review).len(),
                s.skim == at_level(all.take(i as int), Level::Skim).len(),
                s.skip == at_level(all.take(i as int), Level::Skip).len(),
            decreases items.len() - i,
        {
            proof {
                assert(all.take(i + 1).drop_last() == all.take(i as int));
                assert(all.take(i + 1).last() == items@[i as int]@);
            }
            s.total = s.total + 1;
            match items[i].level() {
                Level::Review => {
                    s.review = s.review + 1;
                },
                Level::Skim => {
                    s.skim = s.skim + 1;
                },
                Level::Skip => {
                    s.skip = s.skip + 1;
                },
            }
            i = i + 1;
        }
        assert(all.take(i as int) == all);
        s
    }
}

/// The counts in one line.
pub open spec fn summary_text(items: Seq<ItemView>) -> Seq<char> {
    "garbelour: "@ + text::dec(at_level(items, Level::Review).len()) + " of "@ + text::dec(
        items.len(),
    ) + " hunks need review, "@ + text::dec(at_level(items, Level::Skim).len())
        + " worth skimming, "@ + text::dec(at_level(items, Level::Skip).len()) + " mechanical"@
}

/// The counts in one line.
pub fn summary_line(items: &[Item]) -> (r: String)
    ensures
        r@ == summary_text(text::views(items@)),
{
    let s: Summary = Summary::from_items(items);
    let mut out: String = "garbelour: ".to_string();
    out.append(text::decimal(s.review as u64).as_str());
    out.append(" of ");
    out.append(text::decimal(s.total as u64).as_str());
    out.append(" hunks need review, ");
    out.append(text::decimal(s.skim as u64).as_str());
    out.append(" worth skimming, ");
    out.append(text::decimal(s.skip as u64).as_str());
    out.append(" mechanical");
    out
}

// --- what the formats share ----------------------------------------------

/// Where the lines that a finding is about begin; behind all others where it
/// is not about certain lines.
pub open spec fn focus_start_of(f: FindingView) -> u32 {
    match f.focus_lines {
        Some(x) => x.start,
        None => u32::MAX,
    }
}

/// Rules come before models.
pub open spec fn source_rank_of(s: SourceView) -> int {
    match s {
        SourceView::Heuristic { .. } => 0,
        SourceView::Llm { .. } => 1,
    }
}

/// `a` may be shown in front of `b`: the higher level comes first, then the
/// lower line, then the rule before the model.
pub open spec fn shown_before(a: FindingView, b: FindingView) -> bool {
    if a.level != b.level {
        classify::rank(a.level) > classify::rank(b.level)
    } else if focus_start_of(a) != focus_start_of(b) {
        focus_start_of(a) < focus_start_of(b)
    } else {
        source_rank_of(a.source) <= source_rank_of(b.source)
    }
}

pub open spec fn display_order() -> spec_fn(FindingView, FindingView) -> bool {
    |a: FindingView, b: FindingView| shown_before(a, b)
}

/// The findings in the order in which they are shown.
pub open spec fn shown(fs: Seq<FindingView>) -> Seq<FindingView> {
    order::stable_sort(fs, display_order())
}

fn level_rank(level: Level) -> (r: u8)
    ensures
        r == classify::rank(level),
{
    match level {
        Level::Skip => 0,
        Level::Skim => 1,
        Level::Review => 2,
    }
}

fn focus_start(f: &Finding) -> (r: u32)
    ensures
        r == focus_start_of(f@),
{
    match f.focus_lines {
        Some(x) => x.start,
        None => u32::MAX,
    }
}

fn source_rank(s: &Source) -> (r: u8)
    ensures
        r == source_rank_of(s@),
{
    match s {
        Source::Heuristic { .. } => 0,
        Source::Llm { .. } => 1,
    }
}

/// Findings are ordered as they are shown.
impl order::Sortable for Finding {
    open spec fn le(&self, other: &Self) -> bool {
        shown_before(self@, other@)
    }

    fn at_most(&self, other: &Self) -> (r: bool) {
        let a: u8 = level_rank(self.level);
        let b: u8 = level_rank(other.level);
        if a != b {
            a > b
        } else if focus_start(self) != focus_start(other) {
            focus_start(self) < focus_start(other)
        } else {
            source_rank(&self.source) <= source_rank(&other.source)
        }
    }
}

fn sorted_findings(item: &Item) -> (r: Vec<Finding>)
    ensures
        text::views(r@) == shown(item@.findings),
{
    let copy: Vec<Finding> = consolidate::clone_findings(&item.findings);
    let ghost given = copy@;
    let sorted: Vec<Finding> = order::sort(copy);
    proof {
        let f = |x: Finding| x@;
        order::lemma_sort_map(given, f, order::natural::<Finding>(), display_order());
        assert(given.map_values(f) =~= text::views(given));
        assert(sorted@.map_values(f) =~= text::views(sorted@));
    }
    sorted
}

pub open spec fn level_chip_of(level: Level) -> Seq<char> {
    match level {
        Level::Review => "REVIEW"@,
        Level::Skim => "SKIM"@,
        Level::Skip => "SKIP"@,
    }
}

fn level_chip(level: Level) -> (r: &'static str)
    ensures
        r@ == level_chip_of(level),
{
    match level {
        Level::Review => "REVIEW",
        Level::Skim => "SKIM",
        Level::Skip => "SKIP",
    }
}

pub open spec fn category_label_of(c: Category) -> Seq<char> {
    match c {
        Category::Generated => "generated"@,
        Category::Lockfile => "lockfile"@,
        Category::FormatterOnly => "formatter-only"@,
        Category::CommentOnly => "comment-only"@,
        Category::ImportReorder => "import-reorder"@,
        Category::PureRename => "rename"@,
        Category::TestFixture => "test-fixture"@,
        Category::PublicApiChange => "public-api"@,
        Category::ControlFlow => "control-flow"@,
        Category::ErrorHandlingDeleted => "error-handling-deleted"@,
        Category::NumericalCalc => "numerical-calc"@,
        Category::LargeChange => "large-change"@,
        Category::LlmAssessed => "llm"@,
    }
}

fn category_label(c: Category) -> (r: &'static str)
    ensures
        r@ == category_label_of(c),
{
    match c {
        Category::Generated => "generated",
        Category::Lockfile => "lockfile",
        Category::FormatterOnly => "formatter-only",
        Category::CommentOnly => "comment-only",
        Category::ImportReorder => "import-reorder",
        Category::PureRename => "rename",
        Category::TestFixture => "test-fixture",
        Category::PublicApiChange => "public-api",
        Category::ControlFlow => "control-flow",
        Category::ErrorHandlingDeleted => "error-handling-deleted",
        Category::NumericalCalc => "numerical-calc",
        Category::LargeChange => "large-change",
        Category::LlmAssessed => "llm",
    }
}

/// The line at which a location begins, on a side.
pub open spec fn line_of(loc: LocationView, side: Side) -> u32 {
    match side {
        Side::New => loc.new_range.start,
        Side::Old => loc.old_range.start,
    }
}

fn location_line(loc: &Location, side: Side) -> (r: u32)
    ensures
        r == line_of(loc@, side),
{
    match side {
        Side::New => loc.new_range.start,
        Side::Old => loc.old_range.start,
    }
}

/// One line, or a range of lines.
pub open spec fn span(start: u32, end: u32) -> Seq<char> {
    if start == end {
        text::dec(start as nat)
    } else {
        text::dec(start as nat) + "–"@ + text::dec(end as nat)
    }
}

fn line_span(start: u32, end: u32) -> (r: String)
    ensures
        r@ == span(start, end),
{
    let mut out: String = text::decimal(start as u64);
    if start != end {
        out.append("–");
        out.append(text::decimal(end as u64).as_str());
    }
    out
}

/// The items that are shown at a level.
fn with_level<'a>(items: &'a [Item], level: Level) -> (r: Vec<&'a Item>)
    ensures
        text::views(r@) == at_level(text::views(items@), level),
{
    let ghost all = text::views(items@);
    let mut out: Vec<&'a Item> = Vec::new();
    let mut i: usize = 0;
    while i < items.len()
        invariant
            i <= items.len(),
            all == text::views(items@),
            text::views(out@) == at_level(all.take(i as int), level),
        decreases items.len() - i,
    {
        proof {
            assert(all.take(i + 1).drop_last() == all.take(i as int));
            assert(all.take(i + 1).last() == items@[i as int]@);
        }
        let ghost before = out@;
        if items[i].level() == level {
            out.push(&items[i]);
            proof {
                text::lemma_views_push(before, &items@[i as int]);
            }
        }
        i = i + 1;
    }
    assert(all.take(i as int) == all);
    out
}

// --- what may be skipped -------------------------------------------------

/// A place that may be skipped: the file, and why.
struct Skipped {
    category: Category,
    path: String,
}

#[verifier::ext_equal]
pub struct SkippedView {
    pub category: Category,
    pub path: Seq<char>,
}

impl View for Skipped {
    type V = SkippedView;

    closed spec fn view(&self) -> SkippedView {
        SkippedView { category: self.category, path: self.path@ }
    }
}

/// For each of these findings of an item, one place for each location of the
/// item.
pub open spec fn item_places(item: ItemView, fs: Seq<FindingView>) -> Seq<SkippedView>
    decreases fs.len(),
{
    if fs.len() == 0 {
        Seq::empty()
    } else {
        item_places(item, fs.drop_last()) + Seq::new(
            item.locations.len(),
            |i: int| SkippedView { category: fs.last().category, path: item.file_path },
        )
    }
}

/// The places of these items, one item after the other.
pub open spec fn places(items: Seq<ItemView>) -> Seq<SkippedView>
    decreases items.len(),
{
    if items.len() == 0 {
        Seq::empty()
    } else {
        places(items.drop_last()) + item_places(items.last(), items.last().findings)
    }
}

/// The files of the places of a category, as often as they occur.
pub open spec fn paths_under(ps: Seq<SkippedView>, c: Category) -> Seq<Seq<char>>
    decreases ps.len(),
{
    if ps.len() == 0 {
        Seq::empty()
    } else {
        let before = paths_under(ps.drop_last(), c);
        if ps.last().category == c {
            before.push(ps.last().path)
        } else {
            before
        }
    }
}

/// An item has a finding of a category.
pub open spec fn mentions(item: ItemView, c: Category) -> bool {
    exists|j: int| 0 <= j < item.findings.len() && (#[trigger] item.findings[j]).category == c
}

/// One of the items has a finding of a category.
pub open spec fn mentioned(items: Seq<ItemView>, c: Category) -> bool {
    exists|i: int| 0 <= i < items.len() && mentions(#[trigger] items[i], c)
}

/// All categories, in their order.
pub open spec fn categories() -> Seq<Category> {
    seq![
        Category::Generated,
        Category::Lockfile,
        Category::FormatterOnly,
        Category::CommentOnly,
        Category::ImportReorder,
        Category::PureRename,
        Category::TestFixture,
        Category::PublicApiChange,
        Category::ControlFlow,
        Category::ErrorHandlingDeleted,
        Category::NumericalCalc,
        Category::LargeChange,
        Category::LlmAssessed,
    ]
}

/// A category, and the files that may be skipped for it.
struct Group {
    category: Category,
    paths: Vec<String>,
}

#[verifier::ext_equal]
pub struct GroupView {
    pub category: Category,
    pub paths: Seq<Seq<char>>,
}

impl View for Group {
    type V = GroupView;

    closed spec fn view(&self) -> GroupView {
        GroupView { category: self.category, paths: text::views(self.paths@) }
    }
}

/// The groups of those categories that the items mention.
pub open spec fn groups_in(items: Seq<ItemView>, cs: Seq<Category>) -> Seq<GroupView>
    decreases cs.len(),
{
    if cs.len() == 0 {
        Seq::empty()
    } else {
        let before = groups_in(items, cs.drop_last());
        if mentioned(items, cs.last()) {
            before.push(
                GroupView {
                    category: cs.last(),
                    paths: paths_under(places(items), cs.last()),
                },
            )
        } else {
            before
        }
    }
}

/// What may be skipped, by category.
pub open spec fn groups_of(items: Seq<ItemView>) -> Seq<GroupView> {
    groups_in(items, categories())
}

fn skipped_places(items: &Vec<&Item>) -> (r: Vec<Skipped>)
    ensures
        text::views(r@) == places(text::views(items@)),
{
    let ghost all = text::views(items@);
    let mut out: Vec<Skipped> = Vec::new();
    let mut i: usize = 0;
    assert(text::views(out@) =~= places(all.take(0)));
    while i < items.len()
        invariant
            i <= items.len(),
            all == text::views(items@),
            text::views(out@) == places(all.take(i as int)),
        decreases items.len() - i,
    {
        proof {
            assert(all.take(i + 1).drop_last() == all.take(i as int));
            assert(all.take(i + 1).last() == items@[i as int]@);
        }
        add_places(&mut out, items[i]);
        i = i + 1;
    }
    assert(all.take(i as int) == all);
    out
}

fn add_places(out: &mut Vec<Skipped>, item: &Item)
    ensures
        text::views(final(out)@) == text::views(old(out)@) + item_places(
            item@,
            item@.findings,
        ),
{
    let ghost start = text::views(out@);
    let ghost fs = item@.findings;
    let mut i: usize = 0;
    assert(start =~= start + item_places(item@, fs.take(0)));
    while i < item.findings.len()
        invariant
            i <= item.findings.len(),
            fs == text::views(item.findings@),
            text::views(out@) == start + item_places(item@, fs.take(i as int)),
        decreases item.findings.len() - i,
    {
        let ghost before = text::views(out@);
        let ghost place = SkippedView { category: fs[i as int].category, path: item@.file_path };
        let mut k: usize = 0;
        assert(before =~= before + Seq::new(0, |n: int| place));
        while k < item.locations.len()
            invariant
                k <= item.locations.len(),
                i < item.findings.len(),
                fs == text::views(item.findings@),
                place == (SkippedView {
                    category: fs[i as int].category,
                    path: item@.file_path,
                }),
                text::views(out@) == before + Seq::new(k as nat, |n: int| place),
            decreases item.locations.len() - k,
        {
            let ghost so_far = out@;
            let x: Skipped = Skipped {
                category: item.findings[i].category,
                path: item.file_path.clone(),
            };
            out.push(x);
            proof {
                text::lemma_views_push(so_far, x);
                assert(x@ == place);
                assert(text::views(out@) =~= before + Seq::new((k + 1) as nat, |n: int| place));
            }
            k = k + 1;
        }
        proof {
            let more = fs.take(i + 1);
            assert(more.drop_last() == fs.take(i as int));
            assert(more.last() == fs[i as int]);
            assert(item@.locations.len() == item.locations@.len());
            assert(Seq::new(k as nat, |n: int| place) =~= Seq::new(
                item@.locations.len(),
                |n: int| SkippedView { category: more.last().category, path: item@.file_path },
            ));
            assert(text::views(out@) =~= start + item_places(item@, more));
        }
        i = i + 1;
    }
    assert(fs.take(i as int) == fs);
}

fn paths_of(ps: &Vec<Skipped>, c: Category) -> (r: Vec<String>)
    ensures
        text::views(r@) == paths_under(text::views(ps@), c),
{
    let ghost all = text::views(ps@);
    let mut out: Vec<String> = Vec::new();
    let mut i: usize = 0;
    while i < ps.len()
        invariant
            i <= ps.len(),
            all == text::views(ps@),
            text::views(out@) == paths_under(all.take(i as int), c),
        decreases ps.len() - i,
    {
        proof {
            assert(all.take(i + 1).drop_last() == all.take(i as int));
            assert(all.take(i + 1).last() == ps@[i as int]@);
        }
        let ghost before = out@;
        if ps[i].category == c {
            let x: String = ps[i].path.clone();
            out.push(x);
            proof {
                text::lemma_views_push(before, x);
            }
        }
        i = i + 1;
    }
    assert(all.take(i as int) == all);
    out
}

fn any_mentions(items: &Vec<&Item>, c: Category) -> (r: bool)
    ensures
        r == mentioned(text::views(items@), c),
{
    let ghost all = text::views(items@);
    let mut i: usize = 0;
    while i < items.len()
        invariant
            i <= items.len(),
            all == text::views(items@),
            forall|k: int| 0 <= k < i ==> !mentions(#[trigger] all[k], c),
        decreases items.len() - i,
    {
        let item: &Item = items[i];
        let ghost fs = item@.findings;
        assert(all[i as int] == item@);
        let mut j: usize = 0;
        while j < item.findings.len()
            invariant
                j <= item.findings.len(),
                i < items.len(),
                all == text::views(items@),
                all[i as int] == item@,
                fs == item@.findings,
                fs == text::views(item.findings@),
                forall|k: int| 0 <= k < j ==> (#[trigger] fs[k]).category != c,
            decreases item.findings.len() - j,
        {
            assert(fs[j as int] == item.findings@[j as int]@);
            if item.findings[j].category == c {
                assert(mentions(all[i as int], c));
                return true;
            }
            j = j + 1;
        }
        i = i + 1;
    }
    false
}

fn skip_groups(items: &Vec<&Item>, ps: &Vec<Skipped>) -> (r: Vec<Group>)
    requires
        text::views(ps@) == places(text::views(items@)),
    ensures
        text::views(r@) == groups_of(text::views(items@)),
{
    let ghost all = text::views(items@);
    let cs: Vec<Category> = vec![
        Category::Generated,
        Category::Lockfile,
        Category::FormatterOnly,
        Category::CommentOnly,
        Category::ImportReorder,
        Category::PureRename,
        Category::TestFixture,
        Category::PublicApiChange,
        Category::ControlFlow,
        Category::ErrorHandlingDeleted,
        Category::NumericalCalc,
        Category::LargeChange,
        Category::LlmAssessed,
    ];
    assert(cs@ =~= categories());
    let mut out: Vec<Group> = Vec::new();
    let mut i: usize = 0;
    while i < cs.len()
        invariant
            i <= cs.len(),
            cs@ == categories(),
            all == text::views(items@),
            text::views(ps@) == places(all),
            text::views(out@) == groups_in(all, categories().take(i as int)),
        decreases cs.len() - i,
    {
        let c: Category = cs[i];
        proof {
            assert(categories().take(i + 1).drop_last() == categories().take(i as int));
            assert(categories().take(i + 1).last() == c);
        }
        let ghost before = out@;
        if any_mentions(items, c) {
            let x: Group = Group { category: c, paths: paths_of(ps, c) };
            out.push(x);
            proof {
                text::lemma_views_push(before, x);
            }
        }
        i = i + 1;
    }
    assert(categories().take(i as int) == categories());
    out
}

/// How many files are named before the rest is left out.
pub const PREVIEW: usize = 3;

/// The first of the files.
pub open spec fn preview(paths: Seq<Seq<char>>) -> Seq<char> {
    if paths.len() <= PREVIEW {
        text::joined(paths, ", "@)
    } else {
        text::joined(paths.take(PREVIEW as int), ", "@) + ", ..."@
    }
}

fn preview_paths(paths: &Vec<String>) -> (r: String)
    ensures
        r@ == preview(text::views(paths@)),
{
    if paths.len() <= PREVIEW {
        assert(text::views(paths@).take(paths@.len() as int) =~= text::views(paths@));
        text::join(paths, paths.len(), ", ")
    } else {
        let mut out: String = text::join(paths, PREVIEW, ", ");
        out.append(", ...");
        out
    }
}

// --- laws ----------------------------------------------------------------

/// Every item is counted at one level.
pub proof fn law_levels_add_up(items: Seq<ItemView>)
    ensures
        items.len() == at_level(items, Level::Review).len() + at_level(items, Level::Skim).len()
            + at_level(items, Level::Skip).len(),
    decreases items.len(),
{
    if items.len() > 0 {
        law_levels_add_up(items.drop_last());
    }
}

/// The order of display compares any two findings.
pub proof fn lemma_display_order()
    ensures
        order::total_preorder(display_order()),
{
}

/// No finding is left out where the findings of an item are shown, and the
/// first that is shown is of the item's level.
pub proof fn law_shown_findings(fs: Seq<FindingView>)
    ensures
        shown(fs).to_multiset() == fs.to_multiset(),
        order::is_sorted(shown(fs), display_order()),
        fs.len() > 0 ==> shown(fs).len() > 0 && shown(fs)[0].level == consolidate::top_level(fs),
{
    lemma_display_order();
    order::law_sorted(fs, display_order());
    order::law_permutation(fs, display_order());
    if fs.len() > 0 {
        let s = shown(fs);
        let le = display_order();
        consolidate::lemma_top_level_occurs(fs);
        let k = choose|k: int| 0 <= k < fs.len() && (#[trigger] fs[k]).level
            == consolidate::top_level(fs);
        s.to_multiset_ensures();
        fs.to_multiset_ensures();
        assert(fs.to_multiset().count(fs[k]) > 0);
        assert(s.contains(fs[k]));
        let m = choose|m: int| 0 <= m < s.len() && s[m] == fs[k];
        if m > 0 {
            assert(le(s[0], s[m]));
        }
        assert(s.to_multiset().count(s[0]) > 0);
        assert(fs.contains(s[0]));
        let n = choose|n: int| 0 <= n < fs.len() && fs[n] == s[0];
        assert(classify::rank(fs[n].level) <= classify::rank(consolidate::top_level(fs)));
    }
}

/// How many files the groups count.
pub open spec fn counted(gs: Seq<GroupView>) -> nat
    decreases gs.len(),
{
    if gs.len() == 0 {
        0
    } else {
        counted(gs.drop_last()) + gs.last().paths.len()
    }
}

/// How many places are of one of these categories.
spec fn sizes(ps: Seq<SkippedView>, cs: Seq<Category>) -> nat
    decreases cs.len(),
{
    if cs.len() == 0 {
        0
    } else {
        sizes(ps, cs.drop_last()) + paths_under(ps, cs.last()).len()
    }
}

proof fn lemma_item_places(item: ItemView, fs: Seq<FindingView>, i: int)
    requires
        0 <= i < item_places(item, fs).len(),
    ensures
        exists|j: int|
            0 <= j < fs.len() && (#[trigger] fs[j]).category == item_places(item, fs)[i].category,
    decreases fs.len(),
{
    let before = item_places(item, fs.drop_last());
    if i < before.len() {
        lemma_item_places(item, fs.drop_last(), i);
        let j = choose|j: int|
            0 <= j < fs.drop_last().len() && (#[trigger] fs.drop_last()[j]).category
                == before[i].category;
        assert(fs[j].category == item_places(item, fs)[i].category);
    } else {
        assert(fs[fs.len() - 1].category == item_places(item, fs)[i].category);
    }
}

proof fn lemma_places(items: Seq<ItemView>, i: int)
    requires
        0 <= i < places(items).len(),
    ensures
        mentioned(items, places(items)[i].category),
    decreases items.len(),
{
    let before = places(items.drop_last());
    let c = places(items)[i].category;
    if i < before.len() {
        lemma_places(items.drop_last(), i);
        let k = choose|k: int|
            0 <= k < items.drop_last().len() && mentions(#[trigger] items.drop_last()[k], c);
        assert(mentions(items[k], c));
    } else {
        let item = items.last();
        lemma_item_places(item, item.findings, i - before.len());
        assert(mentions(items[items.len() - 1], c));
    }
}

proof fn lemma_paths_under(ps: Seq<SkippedView>, c: Category)
    requires
        paths_under(ps, c).len() > 0,
    ensures
        exists|i: int| 0 <= i < ps.len() && (#[trigger] ps[i]).category == c,
    decreases ps.len(),
{
    if ps.last().category == c {
        assert(ps[ps.len() - 1].category == c);
    } else {
        lemma_paths_under(ps.drop_last(), c);
        let i = choose|i: int|
            0 <= i < ps.drop_last().len() && (#[trigger] ps.drop_last()[i]).category == c;
        assert(ps[i].category == c);
    }
}

proof fn lemma_counted(items: Seq<ItemView>, cs: Seq<Category>)
    ensures
        counted(groups_in(items, cs)) == sizes(places(items), cs),
    decreases cs.len(),
{
    if cs.len() > 0 {
        let c = cs.last();
        let before = groups_in(items, cs.drop_last());
        lemma_counted(items, cs.drop_last());
        if mentioned(items, c) {
            assert(groups_in(items, cs).drop_last() =~= before);
        } else if paths_under(places(items), c).len() > 0 {
            lemma_paths_under(places(items), c);
            let i = choose|i: int|
                0 <= i < places(items).len() && (#[trigger] places(items)[i]).category == c;
            lemma_places(items, i);
        }
    }
}

/// Where a category stands among all.
spec fn category_index(c: Category) -> int {
    match c {
        Category::Generated => 0,
        Category::Lockfile => 1,
        Category::FormatterOnly => 2,
        Category::CommentOnly => 3,
        Category::ImportReorder => 4,
        Category::PureRename => 5,
        Category::TestFixture => 6,
        Category::PublicApiChange => 7,
        Category::ControlFlow => 8,
        Category::ErrorHandlingDeleted => 9,
        Category::NumericalCalc => 10,
        Category::LargeChange => 11,
        Category::LlmAssessed => 12,
    }
}

proof fn lemma_categories(c: Category)
    ensures
        0 <= category_index(c) < categories().len(),
        categories()[category_index(c)] == c,
        forall|i: int| 0 <= i < categories().len() ==> category_index(#[trigger] categories()[i])
            == i,
{
}

proof fn lemma_sizes_step(ps: Seq<SkippedView>, n: int)
    requires
        ps.len() > 0,
        0 <= n <= categories().len(),
    ensures
        sizes(ps, categories().take(n)) == sizes(ps.drop_last(), categories().take(n)) + if n
            > category_index(ps.last().category) {
            1nat
        } else {
            0nat
        },
    decreases n,
{
    lemma_categories(ps.last().category);
    if n > 0 {
        lemma_sizes_step(ps, n - 1);
        assert(categories().take(n).drop_last() =~= categories().take(n - 1));
        assert(categories().take(n).last() == categories()[n - 1]);
        if categories()[n - 1] == ps.last().category {
            assert(category_index(categories()[n - 1]) == n - 1);
        }
    }
}

proof fn lemma_sizes(ps: Seq<SkippedView>, cs: Seq<Category>)
    requires
        cs == categories(),
    ensures
        sizes(ps, cs) == ps.len(),
    decreases ps.len(),
{
    if ps.len() > 0 {
        lemma_sizes(ps.drop_last(), cs);
        lemma_categories(ps.last().category);
        lemma_sizes_step(ps, cs.len() as int);
        assert(cs.take(cs.len() as int) =~= cs);
    } else {
        lemma_no_sizes(ps, cs);
    }
}

proof fn lemma_no_sizes(ps: Seq<SkippedView>, cs: Seq<Category>)
    requires
        ps.len() == 0,
    ensures
        sizes(ps, cs) == 0,
    decreases cs.len(),
{
    if cs.len() > 0 {
        lemma_no_sizes(ps, cs.drop_last());
    }
}

/// The numbers of the categories add up: every place of every finding is counted
/// once.
pub proof fn law_skip_counts_add_up(items: Seq<ItemView>)
    ensures
        counted(groups_of(items)) == places(items).len(),
{
    lemma_counted(items, categories());
    lemma_sizes(places(items), categories());
}

proof fn lemma_group_present(items: Seq<ItemView>, cs: Seq<Category>, i: int)
    requires
        0 <= i < cs.len(),
        mentioned(items, cs[i]),
    ensures
        exists|k: int|
            0 <= k < groups_in(items, cs).len() && (#[trigger] groups_in(items, cs)[k]).category
                == cs[i] && groups_in(items, cs)[k].paths == paths_under(places(items), cs[i]),
    decreases cs.len(),
{
    let gs = groups_in(items, cs);
    if i == cs.len() - 1 {
        assert(gs[gs.len() - 1].category == cs[i]);
    } else {
        let shorter = groups_in(items, cs.drop_last());
        lemma_group_present(items, cs.drop_last(), i);
        let k = choose|k: int|
            0 <= k < shorter.len() && (#[trigger] shorter[k]).category == cs[i]
                && shorter[k].paths == paths_under(places(items), cs[i]);
        assert(gs[k] == shorter[k]);
    }
}

/// No category is left out: every finding of an item that may be skipped is
/// counted under its own category.
pub proof fn law_every_category_is_shown(items: Seq<ItemView>, i: int, j: int)
    requires
        0 <= i < items.len(),
        0 <= j < items[i].findings.len(),
    ensures
        exists|k: int|
            0 <= k < groups_of(items).len() && (#[trigger] groups_of(items)[k]).category
                == items[i].findings[j].category && groups_of(items)[k].paths == paths_under(
                places(items),
                items[i].findings[j].category,
            ),
{
    let c = items[i].findings[j].category;
    lemma_categories(c);
    assert(mentions(items[i], c));
    lemma_group_present(items, categories(), category_index(c));
    let gs = groups_in(items, categories());
    let k = choose|k: int|
        0 <= k < gs.len() && (#[trigger] gs[k]).category == c && gs[k].paths == paths_under(
            places(items),
            c,
        );
    assert(groups_of(items)[k].category == c);
}

// --- what is shown, and in which order -----------------------------------

/// Tells the items that are shown at a level.
pub open spec fn level_test(level: Level) -> spec_fn(ItemView) -> bool {
    |item: ItemView| level_of(item) == level
}

/// The items at a level are those whose highest finding is of the level, all of
/// them, as they stand.
pub proof fn law_items_by_level(items: Seq<ItemView>, level: Level)
    ensures
        at_level(items, level) == items.filter(level_test(level)),
        forall|i: int|
            0 <= i < items.len() && level_of(#[trigger] items[i]) == level ==> at_level(
                items,
                level,
            ).contains(items[i]),
        forall|k: int|
            0 <= k < at_level(items, level).len() ==> level_of(#[trigger] at_level(items, level)[k])
                == level && items.contains(at_level(items, level)[k]),
    decreases items.len(),
{
    reveal(Seq::filter);
    let all = at_level(items, level);
    if items.len() > 0 {
        let rest = items.drop_last();
        let before = at_level(rest, level);
        law_items_by_level(rest, level);
        assert(level_test(level)(items.last()) == (level_of(items.last()) == level));
        assert forall|i: int|
            0 <= i < items.len() && level_of(#[trigger] items[i]) == level implies all.contains(
            items[i],
        ) by {
            if i < rest.len() {
                assert(rest[i] == items[i]);
                let k = before.index_of(items[i]);
                assert(all[k] == items[i]);
            } else {
                assert(all[before.len() as int] == items[i]);
            }
        }
        assert forall|k: int| 0 <= k < all.len() implies level_of(#[trigger] all[k]) == level
            && items.contains(all[k]) by {
            if k < before.len() {
                assert(all[k] == before[k]);
                let i = rest.index_of(before[k]);
                assert(items[i] == all[k]);
            } else {
                assert(items[items.len() - 1] == all[k]);
            }
        }
    } else {
        assert(all =~= items.filter(level_test(level)));
    }
}

/// Findings are shown from the highest level to the lowest; those of a level by
/// the line they point at, and those that point at none last; those of a line with
/// what rules say before what a model says.
pub proof fn law_display_order(fs: Seq<FindingView>, i: int, j: int)
    requires
        0 <= i < j < shown(fs).len(),
    ensures
        ({
            let a = shown(fs)[i];
            let b = shown(fs)[j];
            &&& !(a.level != Level::Review && b.level == Level::Review)
            &&& !(a.level == Level::Skip && b.level != Level::Skip)
            &&& a.level == b.level ==> match (a.focus_lines, b.focus_lines) {
                (Some(x), Some(y)) => x.start <= y.start && (x.start == y.start && a.source is Llm
                    ==> b.source is Llm),
                (Some(x), None) => true,
                (None, Some(y)) => y.start == u32::MAX,
                (None, None) => a.source is Llm ==> b.source is Llm,
            }
        }),
{
    law_shown_findings(fs);
    let le = display_order();
    assert(le(shown(fs)[i], shown(fs)[j]));
}

proof fn lemma_places_of_item(item: ItemView, fs: Seq<FindingView>)
    ensures
        forall|j: int|
            0 <= j < fs.len() && item.locations.len() > 0 ==> item_places(item, fs).contains(
                SkippedView { category: (#[trigger] fs[j]).category, path: item.file_path },
            ),
        forall|k: int|
            0 <= k < item_places(item, fs).len() ==> (#[trigger] item_places(item, fs)[k]).path
                == item.file_path && exists|j: int|
                0 <= j < fs.len() && (#[trigger] fs[j]).category == item_places(
                    item,
                    fs,
                )[k].category,
        item_places(item, fs).len() == item.locations.len() * fs.len(),
    decreases fs.len(),
{
    let all = item_places(item, fs);
    if fs.len() > 0 {
        let rest = fs.drop_last();
        let before = item_places(item, rest);
        lemma_places_of_item(item, rest);
        assert(item.locations.len() * fs.len() == item.locations.len() * rest.len()
            + item.locations.len()) by (nonlinear_arith)
            requires
                fs.len() == rest.len() + 1,
        ;
        assert forall|j: int| 0 <= j < fs.len() && item.locations.len() > 0 implies all.contains(
            SkippedView { category: (#[trigger] fs[j]).category, path: item.file_path },
        ) by {
            let p = SkippedView { category: fs[j].category, path: item.file_path };
            if j < rest.len() {
                assert(rest[j] == fs[j]);
                assert(before.contains(p));
                let k = before.index_of(p);
                assert(all[k] == p);
            } else {
                assert(all[before.len() as int] == p);
            }
        }
        assert forall|k: int| 0 <= k < all.len() implies (#[trigger] all[k]).path == item.file_path
            && exists|j: int|
            0 <= j < fs.len() && (#[trigger] fs[j]).category == all[k].category by {
            if k < before.len() {
                assert(all[k] == before[k]);
                let j = choose|j: int|
                    0 <= j < rest.len() && (#[trigger] rest[j]).category == before[k].category;
                assert(fs[j] == rest[j]);
            } else {
                assert(fs[fs.len() - 1].category == all[k].category);
            }
        }
    } else {
        assert(item.locations.len() * fs.len() == 0) by (nonlinear_arith)
            requires
                fs.len() == 0,
        ;
    }
}

proof fn lemma_places_of_items(items: Seq<ItemView>)
    ensures
        forall|i: int, j: int|
            0 <= i < items.len() && 0 <= j < items[i].findings.len() && items[i].locations.len() > 0
                ==> places(items).contains(
                SkippedView {
                    category: (#[trigger] items[i].findings[j]).category,
                    path: items[i].file_path,
                },
            ),
        forall|k: int|
            0 <= k < places(items).len() ==> exists|i: int|
                0 <= i < items.len() && (#[trigger] items[i]).file_path == (
                #[trigger] places(items)[k]).path && mentions(items[i], places(items)[k].category),
    decreases items.len(),
{
    let all = places(items);
    if items.len() > 0 {
        let rest = items.drop_last();
        let last = items.len() - 1;
        let before = places(rest);
        let more = item_places(items.last(), items.last().findings);
        lemma_places_of_items(rest);
        lemma_places_of_item(items.last(), items.last().findings);
        assert forall|i: int, j: int|
            0 <= i < items.len() && 0 <= j < items[i].findings.len() && items[i].locations.len() > 0
            implies all.contains(
            SkippedView {
                category: (#[trigger] items[i].findings[j]).category,
                path: items[i].file_path,
            },
        ) by {
            let p = SkippedView {
                category: items[i].findings[j].category,
                path: items[i].file_path,
            };
            if i < last {
                assert(rest[i].findings[j] == items[i].findings[j]);
                assert(before.contains(p));
                let k = before.index_of(p);
                assert(all[k] == p);
            } else {
                assert(more.contains(p));
                let k = more.index_of(p);
                assert(all[before.len() + k] == p);
            }
        }
        assert forall|k: int| 0 <= k < all.len() implies exists|i: int|
            0 <= i < items.len() && (#[trigger] items[i]).file_path == (#[trigger] all[k]).path
                && mentions(items[i], all[k].category) by {
            if k < before.len() {
                assert(all[k] == before[k]);
                let i = choose|i: int|
                    0 <= i < rest.len() && (#[trigger] rest[i]).file_path == before[k].path
                        && mentions(rest[i], before[k].category);
                assert(items[i] == rest[i]);
            } else {
                let m = k - before.len();
                assert(all[k] == more[m]);
                assert(more[m].path == items[last].file_path);
                let j = choose|j: int|
                    0 <= j < items[last].findings.len() && (
                    #[trigger] items[last].findings[j]).category == more[m].category;
                assert(mentions(items[last], all[k].category));
            }
        }
    }
}

proof fn lemma_listed_under(ps: Seq<SkippedView>, c: Category, path: Seq<char>)
    ensures
        paths_under(ps, c).contains(path) <==> ps.contains(SkippedView { category: c, path }),
    decreases ps.len(),
{
    let all = paths_under(ps, c);
    let p = SkippedView { category: c, path };
    if ps.len() > 0 {
        let rest = ps.drop_last();
        let before = paths_under(rest, c);
        lemma_listed_under(rest, c, path);
        if all.contains(path) {
            let k = all.index_of(path);
            if k < before.len() {
                assert(before[k] == path);
                let m = rest.index_of(p);
                assert(ps[m] == p);
            } else {
                assert(ps[ps.len() - 1] == p);
            }
        }
        if ps.contains(p) {
            let m = ps.index_of(p);
            if m < rest.len() {
                assert(rest[m] == p);
                let k = before.index_of(path);
                assert(all[k] == path);
            } else {
                assert(all[before.len() as int] == path);
            }
        }
    }
}

/// The files that are listed under a category are those of the items with a
/// finding of it, each that has a place, and no others.
pub proof fn law_listed_files(items: Seq<ItemView>, c: Category, path: Seq<char>)
    ensures
        paths_under(places(items), c).contains(path) ==> exists|i: int|
            0 <= i < items.len() && (#[trigger] items[i]).file_path == path && mentions(
                items[i],
                c,
            ),
        forall|i: int|
            0 <= i < items.len() && (#[trigger] items[i]).file_path == path && mentions(items[i], c)
                && items[i].locations.len() > 0 ==> paths_under(places(items), c).contains(path),
{
    let ps = places(items);
    lemma_places_of_items(items);
    lemma_listed_under(ps, c, path);
    if paths_under(ps, c).contains(path) {
        let k = ps.index_of(SkippedView { category: c, path });
        let i = choose|i: int|
            0 <= i < items.len() && (#[trigger] items[i]).file_path == ps[k].path && mentions(
                items[i],
                ps[k].category,
            );
        assert(items[i].file_path == path);
    }
    assert forall|i: int|
        0 <= i < items.len() && (#[trigger] items[i]).file_path == path && mentions(items[i], c)
            && items[i].locations.len() > 0 implies paths_under(places(items), c).contains(path) by {
        let j = choose|j: int|
            0 <= j < items[i].findings.len() && (#[trigger] items[i].findings[j]).category == c;
        assert(items[i].findings[j].category == c);
    }
}

/// A range of lines is written as its first and last line, or as one where they
/// are the same.
pub proof fn law_spans(start: u32, end: u32)
    ensures
        start == end ==> span(start, end) == text::dec(start as nat),
        start != end ==> span(start, end) == text::dec(start as nat) + "–"@ + text::dec(end as nat),
{
}

/// Up to three files are listed in full; of more, the first three, and that there
/// are more.
pub proof fn law_preview(paths: Seq<Seq<char>>, a: Seq<char>, b: Seq<char>, c: Seq<char>)
    ensures
        preview(Seq::<Seq<char>>::empty()) == Seq::<char>::empty(),
        preview(seq![a]) == a,
        preview(seq![a, b]) == a + ", "@ + b,
        preview(seq![a, b, c]) == a + ", "@ + b + ", "@ + c,
        paths.len() > 0 ==> preview(seq![a, b, c] + paths) == a + ", "@ + b + ", "@ + c + ", ..."@,
{
    let one = seq![a];
    let two = seq![a, b];
    let three = seq![a, b, c];
    assert(two.drop_last() =~= one);
    assert(three.drop_last() =~= two);
    assert(text::joined(one, ", "@) == a);
    assert(text::joined(two, ", "@) == a + ", "@ + b);
    assert(text::joined(three, ", "@) == a + ", "@ + b + ", "@ + c);
    assert((three + paths).take(3) =~= three);
}

/// The counts in the summary line are those of all items and of the items at each
/// level.
pub proof fn law_summary(items: Seq<ItemView>)
    ensures
        ({
            let review = at_level(items, Level::Review).len();
            let skim = at_level(items, Level::Skim).len();
            let skip = at_level(items, Level::Skip).len();
            &&& summary_text(items) == "garbelour: "@ + text::dec(review) + " of "@ + text::dec(
                review + skim + skip,
            ) + " hunks need review, "@ + text::dec(skim) + " worth skimming, "@ + text::dec(skip)
                + " mechanical"@
        }),
{
    law_levels_add_up(items);
}

/// An item is to be reviewed where a finding says so, to be skipped where all its
/// findings say so, and to be skimmed otherwise.
pub proof fn law_level_of(item: ItemView)
    ensures
        level_of(item) == Level::Review <==> exists|i: int|
            0 <= i < item.findings.len() && (#[trigger] item.findings[i]).level == Level::Review,
        level_of(item) == Level::Skip <==> item.findings.len() > 0 && forall|i: int|
            0 <= i < item.findings.len() ==> (#[trigger] item.findings[i]).level == Level::Skip,
{
    consolidate::law_top_level(item.findings);
}

/// Each level has a mark of its own, and each category a label of its own.
pub proof fn law_labels(a: Category, b: Category)
    ensures
        level_chip_of(Level::Review) == "REVIEW"@,
        level_chip_of(Level::Skim) == "SKIM"@,
        level_chip_of(Level::Skip) == "SKIP"@,
        category_label_of(a) == category_label_of(b) ==> a == b,
{
    reveal_strlit("generated");
    reveal_strlit("lockfile");
    reveal_strlit("formatter-only");
    reveal_strlit("comment-only");
    reveal_strlit("import-reorder");
    reveal_strlit("rename");
    reveal_strlit("test-fixture");
    reveal_strlit("public-api");
    reveal_strlit("control-flow");
    reveal_strlit("error-handling-deleted");
    reveal_strlit("numerical-calc");
    reveal_strlit("large-change");
    reveal_strlit("llm");
    assert("generated"@.len() == 9 && "lockfile"@.len() == 8 && "rename"@.len() == 6);
    assert("public-api"@.len() == 10 && "llm"@.len() == 3 && "error-handling-deleted"@.len() == 22);
    assert("formatter-only"@.len() == 14 && "formatter-only"@[0] == 'f');
    assert("import-reorder"@.len() == 14 && "import-reorder"@[0] == 'i');
    assert("numerical-calc"@.len() == 14 && "numerical-calc"@[0] == 'n');
    assert("comment-only"@.len() == 12 && "comment-only"@[0] == 'c' && "comment-only"@[2] == 'm');
    assert("control-flow"@.len() == 12 && "control-flow"@[0] == 'c' && "control-flow"@[2] == 'n');
    assert("test-fixture"@.len() == 12 && "test-fixture"@[0] == 't');
    assert("large-change"@.len() == 12 && "large-change"@[0] == 'l');
}

} // verus!
