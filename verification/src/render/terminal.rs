//! The report for a terminal.
use vstd::prelude::*;

use crate::classify::{Category, Finding, FindingView, Level, Side};
use crate::consolidate::{Item, ItemView, LocationView};
use crate::diff::Diff;
use crate::order;
use crate::render;
use crate::render::{Group, GroupView, Skipped, SkippedView};
use crate::text;

verus! {

pub const RED: &'static str = "\x1b[31m";

pub const BOLD_RED: &'static str = "\x1b[1;31m";

pub const YELLOW: &'static str = "\x1b[33m";

pub const BOLD_YELLOW: &'static str = "\x1b[1;33m";

pub const DIM: &'static str = "\x1b[2m";

pub const DIM_BOLD: &'static str = "\x1b[1;2m";

pub const RESET: &'static str = "\x1b[0m";

/// The text in a color, or as it is.
pub open spec fn painted(s: Seq<char>, color: Seq<char>, use_color: bool) -> Seq<char> {
    if use_color {
        color + s + RESET@
    } else {
        s
    }
}

fn colorize(s: String, color: &str, use_color: bool) -> (r: String)
    ensures
        r@ == painted(s@, color@, use_color),
{
    if use_color {
        let mut out: String = color.to_string();
        out.append(s.as_str());
        out.append(RESET);
        out
    } else {
        s
    }
}

pub open spec fn level_color_of(level: Level) -> Seq<char> {
    match level {
        Level::Review => RED@,
        Level::Skim => YELLOW@,
        Level::Skip => DIM@,
    }
}

fn level_color(level: Level) -> (r: &'static str)
    ensures
        r@ == level_color_of(level),
{
    match level {
        Level::Review => RED,
        Level::Skim => YELLOW,
        Level::Skip => DIM,
    }
}

/// The first lines of further locations.
pub open spec fn further(locs: Seq<LocationView>, side: Side) -> Seq<char>
    decreases locs.len(),
{
    if locs.len() == 0 {
        Seq::empty()
    } else {
        further(locs.drop_last(), side) + ", :"@ + text::dec(render::line_of(locs.last(), side) as nat)
    }
}

/// Where an item is: the file and its lines, and the first line of each
/// location but the first.
pub open spec fn locator(item: ItemView) -> Seq<char> {
    let first = item.file_path + ":"@ + render::span(item.range.start, item.range.end) + match item.side {
        Side::Old => " (old)"@,
        Side::New => ""@,
    };
    if item.locations.len() <= 1 {
        first
    } else {
        first + further(item.locations.skip(1), item.side)
    }
}

fn further_lines(item: &Item) -> (r: String)
    requires
        item.locations@.len() > 0,
    ensures
        r@ == further(item@.locations.skip(1), item.side),
{
    let ghost locs = item@.locations.skip(1);
    let mut out: String = String::new();
    let mut i: usize = 1;
    while i < item.locations.len()
        invariant
            1 <= i <= item.locations.len(),
            locs == item@.locations.skip(1),
            locs.len() == item.locations.len() - 1,
            out@ == further(locs.take(i - 1), item.side),
        decreases item.locations.len() - i,
    {
        proof {
            assert(locs.take(i as int).drop_last() == locs.take(i - 1));
            assert(locs.take(i as int).last() == item.locations@[i as int]@);
        }
        out.append(", :");
        out.append(text::decimal(render::location_line(&item.locations[i], item.side) as u64).as_str());
        i = i + 1;
    }
    assert(locs.take(i - 1) == locs);
    out
}

fn human_locator(item: &Item) -> (r: String)
    ensures
        r@ == locator(item@),
{
    let mut out: String = item.file_path.clone();
    out.append(":");
    out.append(render::line_span(item.range.start, item.range.end).as_str());
    match item.side {
        Side::Old => {
            out.append(" (old)");
        },
        Side::New => {
            out.append("");
        },
    }
    if item.locations.len() > 1 {
        out.append(further_lines(item).as_str());
    }
    out
}

/// How many characters the longest locator has.
pub open spec fn widest(items: Seq<ItemView>) -> nat
    decreases items.len(),
{
    if items.len() == 0 {
        0
    } else {
        let before = widest(items.drop_last());
        let last = locator(items.last()).len();
        if last > before {
            last
        } else {
            before
        }
    }
}

/// A finding below the first of its item.
pub open spec fn bullet(f: FindingView, width: nat, use_color: bool) -> Seq<char> {
    text::spaces(width + 8) + painted(
        "↳ ["@ + render::level_chip_of(f.level) + "] "@ + render::category_label_of(f.category) + ": "@
            + f.rationale,
        level_color_of(f.level),
        use_color,
    ) + "\n"@
}

pub open spec fn bullets(fs: Seq<FindingView>, width: nat, use_color: bool) -> Seq<char>
    decreases fs.len(),
{
    if fs.len() == 0 {
        Seq::empty()
    } else {
        bullets(fs.drop_last(), width, use_color) + bullet(fs.last(), width, use_color)
    }
}

/// What is shown of an item: where it is and the first finding, then the other
/// findings. Nothing is shown of an item without findings.
pub open spec fn item_block(
    item: ItemView,
    width: nat,
    color: Seq<char>,
    use_color: bool,
) -> Seq<char> {
    let fs = render::shown(item.findings);
    if fs.len() == 0 {
        Seq::empty()
    } else {
        painted("    "@ + locator(item), color, use_color) + text::spaces(
            (width - locator(item).len() + 4) as nat,
        ) + fs[0].rationale + "\n"@ + bullets(fs.skip(1), width, use_color)
    }
}

pub open spec fn blocks(
    items: Seq<ItemView>,
    width: nat,
    color: Seq<char>,
    use_color: bool,
) -> Seq<char>
    decreases items.len(),
{
    if items.len() == 0 {
        Seq::empty()
    } else {
        blocks(items.drop_last(), width, color, use_color) + item_block(
            items.last(),
            width,
            color,
            use_color,
        )
    }
}

/// The items of a level, under a heading. The first findings stand below each
/// other.
pub open spec fn section(
    title: Seq<char>,
    items: Seq<ItemView>,
    heading_color: Seq<char>,
    color: Seq<char>,
    use_color: bool,
) -> Seq<char> {
    painted("  "@ + title + " ("@ + text::dec(items.len()) + ")\n"@, heading_color, use_color)
        + blocks(items, widest(items), color, use_color)
}

fn locator_width(items: &Vec<&Item>) -> (r: usize)
    ensures
        r == widest(text::views(items@)),
{
    let ghost all = text::views(items@);
    let mut width: usize = 0;
    let mut i: usize = 0;
    while i < items.len()
        invariant
            i <= items.len(),
            all == text::views(items@),
            width == widest(all.take(i as int)),
        decreases items.len() - i,
    {
        proof {
            assert(all.take(i + 1).drop_last() == all.take(i as int));
            assert(all.take(i + 1).last() == items@[i as int]@);
        }
        let n: usize = text::chars(human_locator(items[i]).as_str()).len();
        if n > width {
            width = n;
        }
        i = i + 1;
    }
    assert(all.take(i as int) == all);
    width
}

/// No locator is longer than the longest.
pub proof fn lemma_widest(items: Seq<ItemView>, i: int)
    requires
        0 <= i < items.len(),
    ensures
        locator(items[i]).len() <= widest(items),
    decreases items.len(),
{
    if i < items.len() - 1 {
        lemma_widest(items.drop_last(), i);
    }
}

/// So many spaces, and a few more.
fn padding(n: usize, more: usize) -> (r: String)
    ensures
        r@ == text::spaces((n + more) as nat),
{
    let mut out: String = String::new();
    text::append_spaces(&mut out, n);
    text::append_spaces(&mut out, more);
    assert(out@ =~= text::spaces((n + more) as nat));
    out
}

fn bullet_line(f: &Finding, width: usize, use_color: bool) -> (r: String)
    ensures
        r@ == bullet(f@, width as nat, use_color),
{
    let mut line: String = "↳ [".to_string();
    line.append(render::level_chip(f.level));
    line.append("] ");
    line.append(render::category_label(f.category));
    line.append(": ");
    line.append(f.rationale.as_str());
    let mut out: String = padding(width, 8);
    out.append(colorize(line, level_color(f.level), use_color).as_str());
    out.append("\n");
    out
}

fn bullet_lines(findings: &Vec<Finding>, width: usize, use_color: bool) -> (r: String)
    requires
        findings@.len() > 0,
    ensures
        r@ == bullets(text::views(findings@).skip(1), width as nat, use_color),
{
    let ghost rest = text::views(findings@).skip(1);
    let mut out: String = String::new();
    let mut i: usize = 1;
    while i < findings.len()
        invariant
            1 <= i <= findings.len(),
            rest == text::views(findings@).skip(1),
            out@ == bullets(rest.take(i - 1), width as nat, use_color),
        decreases findings.len() - i,
    {
        proof {
            assert(rest.take(i as int).drop_last() == rest.take(i - 1));
            assert(rest.take(i as int).last() == findings@[i as int]@);
        }
        out.append(bullet_line(&findings[i], width, use_color).as_str());
        i = i + 1;
    }
    assert(rest.take(i - 1) == rest);
    out
}

fn human_item(item: &Item, width: usize, color: &str, use_color: bool) -> (r: String)
    requires
        locator(item@).len() <= width,
    ensures
        r@ == item_block(item@, width as nat, color@, use_color),
{
    let findings: Vec<Finding> = render::sorted_findings(item);
    if findings.len() == 0 {
        return String::new();
    }
    assert(render::shown(item@.findings)[0] == findings@[0]@);
    let place: String = human_locator(item);
    let pad: usize = width - text::chars(place.as_str()).len();
    let mut left: String = "    ".to_string();
    left.append(place.as_str());
    let mut out: String = colorize(left, color, use_color);
    out.append(padding(pad, 4).as_str());
    out.append(findings[0].rationale.as_str());
    out.append("\n");
    out.append(bullet_lines(&findings, width, use_color).as_str());
    out
}

fn human_section(
    title: &str,
    items: &Vec<&Item>,
    heading_color: &str,
    color: &str,
    use_color: bool,
) -> (r: String)
    ensures
        r@ == section(title@, text::views(items@), heading_color@, color@, use_color),
{
    let ghost all = text::views(items@);
    let mut heading: String = "  ".to_string();
    heading.append(title);
    heading.append(" (");
    heading.append(text::decimal(items.len() as u64).as_str());
    heading.append(")\n");
    let width: usize = locator_width(items);
    let mut list: String = String::new();
    let mut i: usize = 0;
    while i < items.len()
        invariant
            i <= items.len(),
            all == text::views(items@),
            width == widest(all),
            list@ == blocks(all.take(i as int), width as nat, color@, use_color),
        decreases items.len() - i,
    {
        proof {
            assert(all.take(i + 1).drop_last() == all.take(i as int));
            assert(all.take(i + 1).last() == items@[i as int]@);
            lemma_widest(all, i as int);
        }
        list.append(human_item(items[i], width, color, use_color).as_str());
        i = i + 1;
    }
    assert(all.take(i as int) == all);
    let mut out: String = colorize(heading, heading_color, use_color);
    out.append(list.as_str());
    out
}

/// A category that may be skipped: how often, and where.
pub open spec fn skip_line(g: GroupView, use_color: bool) -> Seq<char> {
    painted(
        "    "@ + render::category_label_of(g.category) + " ("@ + text::dec(g.paths.len()) + ")    "@
            + render::preview(order::sorted_distinct(g.paths)) + "\n"@,
        DIM@,
        use_color,
    )
}

pub open spec fn skip_lines(gs: Seq<GroupView>, use_color: bool) -> Seq<char>
    decreases gs.len(),
{
    if gs.len() == 0 {
        Seq::empty()
    } else {
        skip_lines(gs.drop_last(), use_color) + skip_line(gs.last(), use_color)
    }
}

/// What may be skipped: how many items, and for each category how often and where;
/// nothing where nothing may be.
pub open spec fn skip_section(items: Seq<ItemView>, use_color: bool) -> Seq<char> {
    let groups = render::groups_of(items);
    if groups.len() > 0 {
        painted("  Skip ("@ + text::dec(items.len()) + ")\n"@, DIM_BOLD@, use_color)
            + skip_lines(groups, use_color)
    } else {
        Seq::empty()
    }
}

/// The section, where there are items for it.
pub open spec fn section_if_any(
    title: Seq<char>,
    items: Seq<ItemView>,
    heading_color: Seq<char>,
    color: Seq<char>,
    use_color: bool,
) -> Seq<char> {
    if items.len() > 0 {
        section(title, items, heading_color, color, use_color)
    } else {
        Seq::empty()
    }
}

/// What is shown on a terminal: the items to review, under a heading that always
/// stands, those to skim, and in short what may be skipped.
pub open spec fn human_text(items: Seq<ItemView>, use_color: bool) -> Seq<char> {
    section("Review"@, render::at_level(items, Level::Review), BOLD_RED@, RED@, use_color)
        + section_if_any(
        "Skim"@,
        render::at_level(items, Level::Skim),
        BOLD_YELLOW@,
        YELLOW@,
        use_color,
    ) + skip_section(render::at_level(items, Level::Skip), use_color)
}

fn human_skip_line(g: &Group, use_color: bool) -> (r: String)
    ensures
        r@ == skip_line(g@, use_color),
{
    let files: Vec<String> = order::sort_distinct(text::clone_all(&g.paths));
    let mut line: String = "    ".to_string();
    line.append(render::category_label(g.category));
    line.append(" (");
    line.append(text::decimal(g.paths.len() as u64).as_str());
    line.append(")    ");
    line.append(render::preview_paths(&files).as_str());
    line.append("\n");
    colorize(line, DIM, use_color)
}

fn human_skip_section(items: &Vec<&Item>, use_color: bool) -> (r: String)
    ensures
        r@ == skip_section(text::views(items@), use_color),
{
    let skipped: Vec<Skipped> = render::skipped_places(items);
    let groups: Vec<Group> = render::skip_groups(items, &skipped);
    if groups.len() == 0 {
        return String::new();
    }
    let ghost gs = text::views(groups@);
    let mut heading: String = "  Skip (".to_string();
    heading.append(text::decimal(items.len() as u64).as_str());
    heading.append(")\n");
    let mut list: String = String::new();
    let mut i: usize = 0;
    while i < groups.len()
        invariant
            i <= groups.len(),
            gs == text::views(groups@),
            list@ == skip_lines(gs.take(i as int), use_color),
        decreases groups.len() - i,
    {
        proof {
            assert(gs.take(i + 1).drop_last() == gs.take(i as int));
            assert(gs.take(i + 1).last() == groups@[i as int]@);
        }
        list.append(human_skip_line(&groups[i], use_color).as_str());
        i = i + 1;
    }
    assert(gs.take(i as int) == gs);
    let mut out: String = colorize(heading, DIM_BOLD, use_color);
    out.append(list.as_str());
    out
}

fn human_section_if_any(
    title: &str,
    items: &Vec<&Item>,
    heading_color: &str,
    color: &str,
    use_color: bool,
) -> (r: String)
    ensures
        r@ == section_if_any(title@, text::views(items@), heading_color@, color@, use_color),
{
    if items.len() > 0 {
        human_section(title, items, heading_color, color, use_color)
    } else {
        String::new()
    }
}

/// The report for a terminal. The items to review are listed, under a heading
/// that always stands, and those to skim, if there are any; what may be skipped is
/// counted by category. With `use_color` headings and places are colored.
pub fn human(_diff: &Diff, items: &[Item], use_color: bool) -> (r: String)
    ensures
        r@ == human_text(text::views(items@), use_color),
{
    let review: Vec<&Item> = render::with_level(items, Level::Review);
    let skim: Vec<&Item> = render::with_level(items, Level::Skim);
    let skip: Vec<&Item> = render::with_level(items, Level::Skip);
    let mut out: String = human_section("Review", &review, BOLD_RED, RED, use_color);
    out.append(human_section_if_any("Skim", &skim, BOLD_YELLOW, YELLOW, use_color).as_str());
    out.append(human_skip_section(&skip, use_color).as_str());
    out
}

// --- without color there are no escape codes -----------------------------

/// A text without the character that escape codes begin with.
pub open spec fn plain(s: Seq<char>) -> bool {
    forall|i: int| 0 <= i < s.len() ==> #[trigger] s[i] != '\x1b'
}

/// Neither the path nor a rationale of an item has an escape code.
pub open spec fn item_plain(item: ItemView) -> bool {
    &&& plain(item.file_path)
    &&& forall|i: int|
        0 <= i < item.findings.len() ==> plain((#[trigger] item.findings[i]).rationale)
}

broadcast proof fn lemma_plain_add(a: Seq<char>, b: Seq<char>)
    requires
        plain(a),
        plain(b),
    ensures
        #[trigger] plain(a + b),
{
    assert forall|i: int| 0 <= i < (a + b).len() implies #[trigger] (a + b)[i] != '\x1b' by {
        if i < a.len() {
            assert((a + b)[i] == a[i]);
        } else {
            assert((a + b)[i] == b[i - a.len()]);
        }
    }
}

broadcast proof fn lemma_plain_dec(n: nat)
    ensures
        #[trigger] plain(text::dec(n)),
{
    text::lemma_dec(n);
    assert forall|i: int| 0 <= i < text::dec(n).len() implies #[trigger] text::dec(n)[i]
        != '\x1b' by {
        assert(text::is_digit(text::dec(n)[i]));
    }
}

broadcast proof fn lemma_plain_chip(level: Level)
    ensures
        #[trigger] plain(render::level_chip_of(level)),
{
    reveal_strlit("REVIEW");
    reveal_strlit("SKIM");
    reveal_strlit("SKIP");
}

broadcast proof fn lemma_plain_label(c: Category)
    ensures
        #[trigger] plain(render::category_label_of(c)),
{
    reveal_strlit("generated");
    reveal_strlit("lockfile");
    reveal_strlit("formatter-only");
    reveal_strlit("comment-only");
    reveal_strlit("import-reorder");
    reveal_strlit("rename");
    reveal_strlit("test-fixture");
    reveal_strlit("public-api");
    reveal_strlit("control-flow");
    reveal_strlit("error-handling-deleted");
    reveal_strlit("numerical-calc");
    reveal_strlit("large-change");
    reveal_strlit("llm");
}

broadcast group group_plain {
    lemma_plain_add,
    lemma_plain_dec,
    lemma_plain_chip,
    lemma_plain_label,
}

proof fn lemma_plain_further(locs: Seq<LocationView>, side: Side)
    ensures
        plain(further(locs, side)),
    decreases locs.len(),
{
    broadcast use group_plain;

    if locs.len() > 0 {
        lemma_plain_further(locs.drop_last(), side);
        reveal_strlit(", :");
        assert(plain(", :"@));
    }
}

proof fn lemma_plain_locator(item: ItemView)
    requires
        item_plain(item),
    ensures
        plain(locator(item)),
{
    broadcast use group_plain;

    reveal_strlit(":");
    reveal_strlit("–");
    reveal_strlit(" (old)");
    reveal_strlit("");
    assert(plain(":"@) && plain("–"@) && plain(" (old)"@) && plain(""@));
    lemma_plain_further(item.locations.skip(1), item.side);
}

proof fn lemma_plain_bullets(fs: Seq<FindingView>, width: nat)
    requires
        forall|i: int| 0 <= i < fs.len() ==> plain((#[trigger] fs[i]).rationale),
    ensures
        plain(bullets(fs, width, false)),
    decreases fs.len(),
{
    broadcast use group_plain;

    if fs.len() > 0 {
        lemma_plain_bullets(fs.drop_last(), width);
        reveal_strlit("↳ [");
        reveal_strlit("] ");
        reveal_strlit(": ");
        reveal_strlit("\n");
        assert(plain("↳ ["@) && plain("] "@) && plain(": "@) && plain("\n"@));
        assert(plain(text::spaces(width + 8)));
        assert(plain(fs[fs.len() - 1].rationale));
    }
}

proof fn lemma_plain_block(item: ItemView, width: nat, color: Seq<char>)
    requires
        item_plain(item),
    ensures
        plain(item_block(item, width, color, false)),
{
    broadcast use group_plain;

    let fs = render::shown(item.findings);
    if fs.len() > 0 {
        lemma_plain_shown(item);
        lemma_plain_bullets(fs.skip(1), width);
        lemma_plain_locator(item);
        reveal_strlit("    ");
        reveal_strlit("\n");
        assert(plain("    "@) && plain("\n"@));
        assert(plain(text::spaces((width - locator(item).len() + 4) as nat)));
        assert(plain(fs[0].rationale));
    }
}

proof fn lemma_plain_blocks(items: Seq<ItemView>, width: nat, color: Seq<char>)
    requires
        forall|i: int| 0 <= i < items.len() ==> item_plain(#[trigger] items[i]),
    ensures
        plain(blocks(items, width, color, false)),
    decreases items.len(),
{
    broadcast use group_plain;

    if items.len() > 0 {
        lemma_plain_blocks(items.drop_last(), width, color);
        assert(item_plain(items[items.len() - 1]));
        lemma_plain_block(items.last(), width, color);
    }
}

proof fn lemma_plain_section(
    title: Seq<char>,
    items: Seq<ItemView>,
    heading_color: Seq<char>,
    color: Seq<char>,
)
    requires
        plain(title),
        forall|i: int| 0 <= i < items.len() ==> item_plain(#[trigger] items[i]),
    ensures
        plain(section(title, items, heading_color, color, false)),
{
    broadcast use group_plain;

    reveal_strlit("  ");
    reveal_strlit(" (");
    reveal_strlit(")\n");
    assert(plain("  "@) && plain(" ("@) && plain(")\n"@));
    lemma_plain_blocks(items, widest(items), color);
}

proof fn lemma_at_level(items: Seq<ItemView>, level: Level, i: int)
    requires
        0 <= i < render::at_level(items, level).len(),
    ensures
        exists|k: int| 0 <= k < items.len() && items[k] == #[trigger] render::at_level(items, level)[i],
    decreases items.len(),
{
    let before = render::at_level(items.drop_last(), level);
    if i < before.len() {
        lemma_at_level(items.drop_last(), level, i);
        let k = choose|k: int|
            0 <= k < items.drop_last().len() && items.drop_last()[k] == before[i];
        assert(items[k] == render::at_level(items, level)[i]);
    } else {
        assert(items[items.len() - 1] == render::at_level(items, level)[i]);
    }
}

proof fn lemma_plain_places(items: Seq<ItemView>, i: int)
    requires
        forall|k: int| 0 <= k < items.len() ==> item_plain(#[trigger] items[k]),
        0 <= i < render::places(items).len(),
    ensures
        plain(render::places(items)[i].path),
    decreases items.len(),
{
    let before = render::places(items.drop_last());
    if i < before.len() {
        lemma_plain_places(items.drop_last(), i);
    } else {
        assert(item_plain(items[items.len() - 1]));
        lemma_item_path(items.last(), items.last().findings, i - before.len());
    }
}

proof fn lemma_item_path(item: ItemView, fs: Seq<FindingView>, i: int)
    requires
        0 <= i < render::item_places(item, fs).len(),
    ensures
        render::item_places(item, fs)[i].path == item.file_path,
    decreases fs.len(),
{
    if i < render::item_places(item, fs.drop_last()).len() {
        lemma_item_path(item, fs.drop_last(), i);
    }
}

proof fn lemma_plain_paths(ps: Seq<SkippedView>, c: Category)
    requires
        forall|i: int| 0 <= i < ps.len() ==> plain((#[trigger] ps[i]).path),
    ensures
        forall|i: int| 0 <= i < render::paths_under(ps, c).len() ==> plain(#[trigger] render::paths_under(ps, c)[i]),
    decreases ps.len(),
{
    if ps.len() > 0 {
        let before = render::paths_under(ps.drop_last(), c);
        let paths = render::paths_under(ps, c);
        lemma_plain_paths(ps.drop_last(), c);
        assert(plain(ps[ps.len() - 1].path));
        assert forall|i: int| 0 <= i < paths.len() implies plain(#[trigger] paths[i]) by {
            if i < before.len() {
                assert(paths[i] == before[i]);
            }
        }
    }
}

proof fn lemma_plain_joined(parts: Seq<Seq<char>>, separator: Seq<char>)
    requires
        plain(separator),
        forall|i: int| 0 <= i < parts.len() ==> plain(#[trigger] parts[i]),
    ensures
        plain(text::joined(parts, separator)),
    decreases parts.len(),
{
    broadcast use group_plain;

    if parts.len() == 1 {
        assert(plain(parts[0]));
    } else if parts.len() > 1 {
        lemma_plain_joined(parts.drop_last(), separator);
        assert(plain(parts[parts.len() - 1]));
    }
}

proof fn lemma_plain_preview(paths: Seq<Seq<char>>)
    requires
        forall|i: int| 0 <= i < paths.len() ==> plain(#[trigger] paths[i]),
    ensures
        plain(render::preview(order::sorted_distinct(paths))),
{
    broadcast use group_plain;

    let files = order::sorted_distinct(paths);
    order::law_sorted_distinct(paths);
    assert forall|i: int| 0 <= i < files.len() implies plain(#[trigger] files[i]) by {
        assert(files.contains(files[i]));
        assert(paths.contains(files[i]));
        let k = choose|k: int| 0 <= k < paths.len() && paths[k] == files[i];
        assert(plain(paths[k]));
    }
    reveal_strlit(", ");
    reveal_strlit(", ...");
    assert(plain(", "@) && plain(", ..."@));
    lemma_plain_joined(files, ", "@);
    if files.len() > render::PREVIEW {
        lemma_plain_joined(files.take(render::PREVIEW as int), ", "@);
    }
}

proof fn lemma_plain_lines(items: Seq<ItemView>, cs: Seq<Category>)
    requires
        forall|i: int| 0 <= i < items.len() ==> item_plain(#[trigger] items[i]),
    ensures
        plain(skip_lines(render::groups_in(items, cs), false)),
    decreases cs.len(),
{
    broadcast use group_plain;

    if cs.len() > 0 {
        lemma_plain_lines(items, cs.drop_last());
        let c = cs.last();
        if render::mentioned(items, c) {
            let before = render::groups_in(items, cs.drop_last());
            assert(render::groups_in(items, cs).drop_last() =~= before);
            let ps = render::places(items);
            assert forall|i: int| 0 <= i < ps.len() implies plain((#[trigger] ps[i]).path) by {
                lemma_plain_places(items, i);
            }
            lemma_plain_paths(ps, c);
            lemma_plain_preview(render::paths_under(ps, c));
            reveal_strlit("    ");
            reveal_strlit(" (");
            reveal_strlit(")    ");
            reveal_strlit("\n");
            assert(plain("    "@) && plain(" ("@) && plain(")    "@) && plain("\n"@));
        }
    }
}

/// Without color the report for a terminal has no escape code that is not in a
/// path or a rationale.
pub proof fn law_no_color_no_escapes(items: Seq<ItemView>)
    requires
        forall|i: int| 0 <= i < items.len() ==> item_plain(#[trigger] items[i]),
    ensures
        plain(human_text(items, false)),
{
    broadcast use group_plain;

    let review = render::at_level(items, Level::Review);
    let skim = render::at_level(items, Level::Skim);
    let skip = render::at_level(items, Level::Skip);
    assert forall|i: int| 0 <= i < review.len() implies item_plain(#[trigger] review[i]) by {
        lemma_at_level(items, Level::Review, i);
    }
    assert forall|i: int| 0 <= i < skim.len() implies item_plain(#[trigger] skim[i]) by {
        lemma_at_level(items, Level::Skim, i);
    }
    assert forall|i: int| 0 <= i < skip.len() implies item_plain(#[trigger] skip[i]) by {
        lemma_at_level(items, Level::Skip, i);
    }
    reveal_strlit("Review");
    reveal_strlit("Skim");
    assert(plain("Review"@) && plain("Skim"@));
    lemma_plain_section("Review"@, review, BOLD_RED@, RED@);
    lemma_plain_section("Skim"@, skim, BOLD_YELLOW@, YELLOW@);
    lemma_plain_lines(skip, render::categories());
    reveal_strlit("  Skip (");
    reveal_strlit(")\n");
    assert(plain("  Skip ("@) && plain(")\n"@));
}

// --- colors only color ---------------------------------------------------

/// The text without its escape codes: everything from `\x1b[` on, up to and with
/// the next `m`.
pub open spec fn uncolored(s: Seq<char>) -> Seq<char>
    decreases s.len(),
{
    if s.len() == 0 {
        s
    } else if s.len() > 1 && s[0] == '\x1b' && s[1] == '[' && text::upto(s, 'm') < s.len() {
        uncolored(s.skip(text::upto(s, 'm') as int + 1))
    } else {
        seq![s[0]] + uncolored(s.drop_first())
    }
}

/// A text without its escape codes is this one, whatever stands behind it.
spec fn fades(s: Seq<char>, faded: Seq<char>) -> bool {
    forall|t: Seq<char>| #[trigger] uncolored(s + t) == faded + uncolored(t)
}

/// An escape code.
spec fn is_code(c: Seq<char>) -> bool {
    &&& c.len() >= 3
    &&& c[0] == '\x1b'
    &&& c[1] == '['
    &&& c.last() == 'm'
    &&& forall|i: int| 0 <= i < c.len() - 1 ==> c[i] != 'm'
}

proof fn lemma_fade_plain(s: Seq<char>)
    requires
        plain(s),
    ensures
        fades(s, s),
{
    assert forall|t: Seq<char>| #[trigger] uncolored(s + t) == s + uncolored(t) by {
        lemma_uncolored_plain(s, t);
    }
}

proof fn lemma_uncolored_plain(s: Seq<char>, t: Seq<char>)
    requires
        plain(s),
    ensures
        uncolored(s + t) == s + uncolored(t),
    decreases s.len(),
{
    if s.len() == 0 {
        assert(s + t =~= t);
        assert(s + uncolored(t) =~= uncolored(t));
    } else {
        assert(s[0] != '\x1b');
        assert forall|i: int| 0 <= i < s.drop_first().len() implies #[trigger] s.drop_first()[i]
            != '\x1b' by {
            assert(s[i + 1] != '\x1b');
        }
        lemma_uncolored_plain(s.drop_first(), t);
        assert((s + t).drop_first() =~= s.drop_first() + t);
        assert(seq![s[0]] + (s.drop_first() + uncolored(t)) =~= s + uncolored(t));
    }
}

proof fn lemma_fade_code(c: Seq<char>)
    requires
        is_code(c),
    ensures
        fades(c, Seq::empty()),
{
    assert forall|t: Seq<char>| #[trigger] uncolored(c + t) == Seq::<char>::empty() + uncolored(
        t,
    ) by {
        let n = c.len() - 1;
        assert forall|k: int| 0 <= k < n implies (c + t)[k] != 'm' by {
            assert((c + t)[k] == c[k]);
        }
        assert((c + t)[n] == c.last());
        text::lemma_upto(c + t, 'm', n);
        assert((c + t).skip(n + 1) =~= t);
        assert(Seq::<char>::empty() + uncolored(t) =~= uncolored(t));
    }
}

proof fn lemma_fade_add(a: Seq<char>, fa: Seq<char>, b: Seq<char>, fb: Seq<char>)
    requires
        fades(a, fa),
        fades(b, fb),
    ensures
        fades(a + b, fa + fb),
{
    assert forall|t: Seq<char>| #[trigger] uncolored((a + b) + t) == (fa + fb) + uncolored(t) by {
        assert((a + b) + t =~= a + (b + t));
        assert(uncolored(b + t) == fb + uncolored(t));
        assert(uncolored(a + (b + t)) == fa + uncolored(b + t));
        assert(fa + (fb + uncolored(t)) =~= (fa + fb) + uncolored(t));
    }
}

proof fn lemma_fade_painted(s: Seq<char>, color: Seq<char>)
    requires
        plain(s),
        is_code(color),
    ensures
        fades(painted(s, color, true), painted(s, color, false)),
{
    let none = Seq::<char>::empty();
    lemma_codes();
    lemma_fade_code(color);
    lemma_fade_plain(s);
    lemma_fade_code(RESET@);
    lemma_fade_add(color, none, s, s);
    lemma_fade_add(color + s, none + s, RESET@, none);
    assert(none + s + none =~= s);
}

proof fn lemma_codes()
    ensures
        is_code(RED@),
        is_code(BOLD_RED@),
        is_code(YELLOW@),
        is_code(BOLD_YELLOW@),
        is_code(DIM@),
        is_code(DIM_BOLD@),
        is_code(RESET@),
{
    reveal_strlit("\x1b[31m");
    reveal_strlit("\x1b[1;31m");
    reveal_strlit("\x1b[33m");
    reveal_strlit("\x1b[1;33m");
    reveal_strlit("\x1b[2m");
    reveal_strlit("\x1b[1;2m");
    reveal_strlit("\x1b[0m");
}

proof fn lemma_fade_bullets(fs: Seq<FindingView>, width: nat)
    requires
        forall|i: int| 0 <= i < fs.len() ==> plain((#[trigger] fs[i]).rationale),
    ensures
        fades(bullets(fs, width, true), bullets(fs, width, false)),
    decreases fs.len(),
{
    broadcast use group_plain;

    if fs.len() == 0 {
        lemma_fade_plain(bullets(fs, width, false));
    } else {
        let f = fs.last();
        lemma_fade_bullets(fs.drop_last(), width);
        reveal_strlit("↳ [");
        reveal_strlit("] ");
        reveal_strlit(": ");
        reveal_strlit("\n");
        assert(plain("↳ ["@) && plain("] "@) && plain(": "@) && plain("\n"@));
        assert(plain(fs[fs.len() - 1].rationale));
        let line = "↳ ["@ + render::level_chip_of(f.level) + "] "@ + render::category_label_of(
            f.category,
        ) + ": "@ + f.rationale;
        let color = level_color_of(f.level);
        let indent = text::spaces(width + 8);
        assert(plain(indent));
        lemma_codes();
        lemma_fade_plain(indent);
        lemma_fade_painted(line, color);
        lemma_fade_plain("\n"@);
        lemma_fade_add(indent, indent, painted(line, color, true), line);
        lemma_fade_add(indent + painted(line, color, true), indent + line, "\n"@, "\n"@);
        lemma_fade_add(
            bullets(fs.drop_last(), width, true),
            bullets(fs.drop_last(), width, false),
            bullet(f, width, true),
            bullet(f, width, false),
        );
    }
}

/// The rationales that are shown of an item have no escape code either.
proof fn lemma_plain_shown(item: ItemView)
    requires
        item_plain(item),
    ensures
        forall|i: int|
            0 <= i < render::shown(item.findings).len() ==> plain(
                (#[trigger] render::shown(item.findings)[i]).rationale,
            ),
{
    let fs = render::shown(item.findings);
    render::law_shown_findings(item.findings);
    assert forall|i: int| 0 <= i < fs.len() implies plain((#[trigger] fs[i]).rationale) by {
        fs.to_multiset_ensures();
        item.findings.to_multiset_ensures();
        assert(fs.to_multiset().count(fs[i]) > 0);
        assert(item.findings.contains(fs[i]));
        let k = choose|k: int| 0 <= k < item.findings.len() && item.findings[k] == fs[i];
        assert(plain(item.findings[k].rationale));
    }
}

proof fn lemma_fade_block(item: ItemView, width: nat, color: Seq<char>)
    requires
        item_plain(item),
        is_code(color),
    ensures
        fades(item_block(item, width, color, true), item_block(item, width, color, false)),
{
    broadcast use group_plain;

    let fs = render::shown(item.findings);
    if fs.len() == 0 {
        lemma_fade_plain(item_block(item, width, color, false));
    } else {
        lemma_plain_shown(item);
        lemma_plain_locator(item);
        reveal_strlit("    ");
        reveal_strlit("\n");
        assert(plain("    "@) && plain("\n"@));
        assert(plain(fs[0].rationale));
        let left = "    "@ + locator(item);
        let pad = text::spaces((width - locator(item).len() + 4) as nat);
        let below = fs.skip(1);
        assert(plain(pad));
        assert forall|i: int| 0 <= i < below.len() implies plain((#[trigger] below[i]).rationale) by {
            assert(plain(fs[i + 1].rationale));
        }
        let l = painted(left, color, true);
        lemma_fade_painted(left, color);
        lemma_fade_plain(pad);
        lemma_fade_plain(fs[0].rationale);
        lemma_fade_plain("\n"@);
        lemma_fade_bullets(below, width);
        lemma_fade_add(l, left, pad, pad);
        lemma_fade_add(l + pad, left + pad, fs[0].rationale, fs[0].rationale);
        lemma_fade_add(
            l + pad + fs[0].rationale,
            left + pad + fs[0].rationale,
            "\n"@,
            "\n"@,
        );
        lemma_fade_add(
            l + pad + fs[0].rationale + "\n"@,
            left + pad + fs[0].rationale + "\n"@,
            bullets(below, width, true),
            bullets(below, width, false),
        );
    }
}

proof fn lemma_fade_blocks(items: Seq<ItemView>, width: nat, color: Seq<char>)
    requires
        forall|i: int| 0 <= i < items.len() ==> item_plain(#[trigger] items[i]),
        is_code(color),
    ensures
        fades(blocks(items, width, color, true), blocks(items, width, color, false)),
    decreases items.len(),
{
    if items.len() == 0 {
        lemma_fade_plain(blocks(items, width, color, false));
    } else {
        lemma_fade_blocks(items.drop_last(), width, color);
        assert(item_plain(items[items.len() - 1]));
        lemma_fade_block(items.last(), width, color);
        lemma_fade_add(
            blocks(items.drop_last(), width, color, true),
            blocks(items.drop_last(), width, color, false),
            item_block(items.last(), width, color, true),
            item_block(items.last(), width, color, false),
        );
    }
}

proof fn lemma_fade_section(
    title: Seq<char>,
    items: Seq<ItemView>,
    heading_color: Seq<char>,
    color: Seq<char>,
)
    requires
        plain(title),
        is_code(heading_color),
        is_code(color),
        forall|i: int| 0 <= i < items.len() ==> item_plain(#[trigger] items[i]),
    ensures
        fades(
            section(title, items, heading_color, color, true),
            section(title, items, heading_color, color, false),
        ),
{
    broadcast use group_plain;

    reveal_strlit("  ");
    reveal_strlit(" (");
    reveal_strlit(")\n");
    assert(plain("  "@) && plain(" ("@) && plain(")\n"@));
    let heading = "  "@ + title + " ("@ + text::dec(items.len()) + ")\n"@;
    lemma_fade_painted(heading, heading_color);
    lemma_fade_blocks(items, widest(items), color);
    lemma_fade_add(
        painted(heading, heading_color, true),
        heading,
        blocks(items, widest(items), color, true),
        blocks(items, widest(items), color, false),
    );
}

proof fn lemma_fade_lines(items: Seq<ItemView>, cs: Seq<Category>)
    requires
        forall|i: int| 0 <= i < items.len() ==> item_plain(#[trigger] items[i]),
    ensures
        fades(
            skip_lines(render::groups_in(items, cs), true),
            skip_lines(render::groups_in(items, cs), false),
        ),
    decreases cs.len(),
{
    broadcast use group_plain;

    if cs.len() == 0 {
        lemma_fade_plain(skip_lines(render::groups_in(items, cs), false));
    } else {
        lemma_fade_lines(items, cs.drop_last());
        let c = cs.last();
        if render::mentioned(items, c) {
            let before = render::groups_in(items, cs.drop_last());
            let gs = render::groups_in(items, cs);
            assert(gs.drop_last() =~= before);
            let ps = render::places(items);
            assert forall|i: int| 0 <= i < ps.len() implies plain((#[trigger] ps[i]).path) by {
                lemma_plain_places(items, i);
            }
            lemma_plain_paths(ps, c);
            lemma_plain_preview(render::paths_under(ps, c));
            reveal_strlit("    ");
            reveal_strlit(" (");
            reveal_strlit(")    ");
            reveal_strlit("\n");
            assert(plain("    "@) && plain(" ("@) && plain(")    "@) && plain("\n"@));
            let g = gs.last();
            let line = "    "@ + render::category_label_of(g.category) + " ("@ + text::dec(
                g.paths.len(),
            ) + ")    "@ + render::preview(order::sorted_distinct(g.paths)) + "\n"@;
            lemma_codes();
            lemma_fade_painted(line, DIM@);
            lemma_fade_add(
                skip_lines(before, true),
                skip_lines(before, false),
                skip_line(g, true),
                skip_line(g, false),
            );
        }
    }
}

proof fn lemma_fade_skip(items: Seq<ItemView>)
    requires
        forall|i: int| 0 <= i < items.len() ==> item_plain(#[trigger] items[i]),
    ensures
        fades(skip_section(items, true), skip_section(items, false)),
{
    broadcast use group_plain;

    let groups = render::groups_of(items);
    if groups.len() == 0 {
        lemma_fade_plain(skip_section(items, false));
    } else {
        reveal_strlit("  Skip (");
        reveal_strlit(")\n");
        assert(plain("  Skip ("@) && plain(")\n"@));
        let heading = "  Skip ("@ + text::dec(items.len()) + ")\n"@;
        lemma_codes();
        lemma_fade_painted(heading, DIM_BOLD@);
        lemma_fade_lines(items, render::categories());
        lemma_fade_add(
            painted(heading, DIM_BOLD@, true),
            heading,
            skip_lines(groups, true),
            skip_lines(groups, false),
        );
    }
}

/// Colors only color: the colored report without its escape codes is the report
/// without color. Paths and rationales are taken to have no escape codes of their
/// own.
pub proof fn law_colors_only_color(items: Seq<ItemView>)
    requires
        forall|i: int| 0 <= i < items.len() ==> item_plain(#[trigger] items[i]),
    ensures
        uncolored(human_text(items, true)) == human_text(items, false),
{
    let review = render::at_level(items, Level::Review);
    let skim = render::at_level(items, Level::Skim);
    let skip = render::at_level(items, Level::Skip);
    assert forall|i: int| 0 <= i < review.len() implies item_plain(#[trigger] review[i]) by {
        lemma_at_level(items, Level::Review, i);
    }
    assert forall|i: int| 0 <= i < skim.len() implies item_plain(#[trigger] skim[i]) by {
        lemma_at_level(items, Level::Skim, i);
    }
    assert forall|i: int| 0 <= i < skip.len() implies item_plain(#[trigger] skip[i]) by {
        lemma_at_level(items, Level::Skip, i);
    }
    reveal_strlit("Review");
    reveal_strlit("Skim");
    lemma_codes();
    lemma_fade_section("Review"@, review, BOLD_RED@, RED@);
    lemma_fade_section("Skim"@, skim, BOLD_YELLOW@, YELLOW@);
    lemma_fade_skip(skip);
    let first = section("Review"@, review, BOLD_RED@, RED@, true);
    let faded = section("Review"@, review, BOLD_RED@, RED@, false);
    let second = section_if_any("Skim"@, skim, BOLD_YELLOW@, YELLOW@, true);
    let second_faded = section_if_any("Skim"@, skim, BOLD_YELLOW@, YELLOW@, false);
    if skim.len() == 0 {
        lemma_fade_plain(Seq::empty());
    }
    lemma_fade_add(first, faded, second, second_faded);
    lemma_fade_add(
        first + second,
        faded + second_faded,
        skip_section(skip, true),
        skip_section(skip, false),
    );
    let none = Seq::<char>::empty();
    assert(uncolored(human_text(items, true) + none) == human_text(items, false) + uncolored(none));
    assert(human_text(items, true) + none =~= human_text(items, true));
    assert(human_text(items, false) + uncolored(none) =~= human_text(items, false));
}

// --- nothing that needs attention is left out ----------------------------

proof fn lemma_bullet_says(fs: Seq<FindingView>, width: nat, i: int)
    requires
        0 <= i < fs.len(),
    ensures
        text::contains(bullets(fs, width, false), fs[i].rationale + "\n"@),
    decreases fs.len(),
{
    let p = fs[i].rationale + "\n"@;
    let rest = bullets(fs.drop_last(), width, false);
    let last = bullet(fs.last(), width, false);
    if i < fs.len() - 1 {
        lemma_bullet_says(fs.drop_last(), width, i);
    } else {
        let head = text::spaces(width + 8) + ("↳ ["@ + render::level_chip_of(fs[i].level) + "] "@
            + render::category_label_of(fs[i].category) + ": "@);
        assert(last =~= head + p);
        text::lemma_contains_itself(p);
        text::lemma_contains_add(head, p, p);
    }
    text::lemma_contains_add(rest, last, p);
}

/// How an item is named: its file and its lines, and that they are those of the
/// old file where they are.
pub open spec fn item_title(item: ItemView) -> Seq<char> {
    item.file_path + ":"@ + render::span(item.range.start, item.range.end) + (if item.side
        == Side::Old {
        " (old)"@
    } else {
        Seq::empty()
    })
}

/// The text shows an item: its name, and every rationale at the end of a line.
pub open spec fn shows(s: Seq<char>, item: ItemView) -> bool {
    &&& text::contains(s, item_title(item))
    &&& forall|k: int|
        0 <= k < item.findings.len() ==> text::contains(
            s,
            (#[trigger] item.findings[k]).rationale + "\n"@,
        )
}

proof fn lemma_shows_add(a: Seq<char>, b: Seq<char>, item: ItemView)
    ensures
        shows(a, item) ==> shows(a + b, item),
        shows(b, item) ==> shows(a + b, item),
{
    text::lemma_contains_add(a, b, item_title(item));
    assert forall|k: int|
        0 <= k < item.findings.len() && (shows(a, item) || shows(b, item)) implies text::contains(
        a + b,
        (#[trigger] item.findings[k]).rationale + "\n"@,
    ) by {
        text::lemma_contains_add(a, b, item.findings[k].rationale + "\n"@);
    }
}

proof fn lemma_item_is_shown(item: ItemView, width: nat, color: Seq<char>)
    requires
        item.findings.len() > 0,
    ensures
        shows(item_block(item, width, color, false), item),
{
    let fs = render::shown(item.findings);
    let s = item_block(item, width, color, false);
    let title = item_title(item);
    render::law_shown_findings(item.findings);
    reveal_strlit("");
    let named = locator(item);
    text::lemma_contains_itself(title);
    let first = item.file_path + ":"@ + render::span(item.range.start, item.range.end)
        + match item.side {
        Side::Old => " (old)"@,
        Side::New => ""@,
    };
    assert(first =~= title);
    if item.locations.len() > 1 {
        text::lemma_contains_add(title, further(item.locations.skip(1), item.side), title);
    }
    let gap = text::spaces((width - locator(item).len() + 4) as nat);
    let line = fs[0].rationale + "\n"@;
    let more = bullets(fs.skip(1), width, false);
    assert(s =~= "    "@ + named + gap + line + more);
    text::lemma_contains_add("    "@, named, title);
    text::lemma_contains_add("    "@ + named, gap, title);
    text::lemma_contains_add("    "@ + named + gap, line, title);
    text::lemma_contains_add("    "@ + named + gap + line, more, title);
    assert forall|k: int| 0 <= k < item.findings.len() implies text::contains(
        s,
        (#[trigger] item.findings[k]).rationale + "\n"@,
    ) by {
        let f = item.findings[k];
        let p = f.rationale + "\n"@;
        fs.to_multiset_ensures();
        item.findings.to_multiset_ensures();
        assert(item.findings.contains(f));
        assert(item.findings.to_multiset().count(f) > 0);
        assert(fs.contains(f));
        let m = fs.index_of(f);
        if m == 0 {
            text::lemma_contains_itself(p);
            text::lemma_contains_add("    "@ + named + gap, line, p);
            text::lemma_contains_add("    "@ + named + gap + line, more, p);
        } else {
            assert(fs.skip(1)[m - 1] == f);
            lemma_bullet_says(fs.skip(1), width, m - 1);
            text::lemma_contains_add("    "@ + named + gap + line, more, p);
        }
    }
}

proof fn lemma_items_are_shown(items: Seq<ItemView>, width: nat, color: Seq<char>, i: int)
    requires
        0 <= i < items.len(),
        items[i].findings.len() > 0,
    ensures
        shows(blocks(items, width, color, false), items[i]),
    decreases items.len(),
{
    if i < items.len() - 1 {
        lemma_items_are_shown(items.drop_last(), width, color, i);
    } else {
        lemma_item_is_shown(items[i], width, color);
    }
    lemma_shows_add(
        blocks(items.drop_last(), width, color, false),
        item_block(items.last(), width, color, false),
        items[i],
    );
}

/// A terminal shows every item that is to be reviewed, below the heading for
/// these, and every item that is to be skimmed, below theirs: where it is, and all
/// that was found.
pub proof fn law_terminal_shows_items(items: Seq<ItemView>, i: int)
    requires
        0 <= i < items.len(),
        items[i].findings.len() > 0,
    ensures
        ({
            let reviews = render::at_level(items, Level::Review);
            let skims = render::at_level(items, Level::Skim);
            let all = human_text(items, false);
            let under_review = blocks(reviews, widest(reviews), RED@, false);
            let under_skim = blocks(skims, widest(skims), YELLOW@, false);
            &&& render::level_of(items[i]) == Level::Review ==> shows(under_review, items[i])
                && shows(all, items[i]) && text::contains(
                all,
                "  Review ("@ + text::dec(reviews.len()) + ")\n"@ + under_review,
            )
            &&& render::level_of(items[i]) == Level::Skim ==> shows(under_skim, items[i]) && shows(
                all,
                items[i],
            ) && text::contains(all, "  Skim ("@ + text::dec(skims.len()) + ")\n"@ + under_skim)
        }),
{
    let reviews = render::at_level(items, Level::Review);
    let skims = render::at_level(items, Level::Skim);
    let all = human_text(items, false);
    let a = section("Review"@, reviews, BOLD_RED@, RED@, false);
    let b = section_if_any("Skim"@, skims, BOLD_YELLOW@, YELLOW@, false);
    let c = skip_section(render::at_level(items, Level::Skip), false);
    assert(all =~= a + b + c);
    render::law_items_by_level(items, Level::Review);
    render::law_items_by_level(items, Level::Skim);
    reveal_strlit("  ");
    reveal_strlit("Review");
    reveal_strlit("Skim");
    reveal_strlit(" (");
    reveal_strlit("  Review (");
    reveal_strlit("  Skim (");
    if render::level_of(items[i]) == Level::Review {
        assert(reviews.contains(items[i]));
        let k = reviews.index_of(items[i]);
        let title = "  Review ("@ + text::dec(reviews.len()) + ")\n"@;
        let shown = blocks(reviews, widest(reviews), RED@, false);
        lemma_items_are_shown(reviews, widest(reviews), RED@, k);
        assert("  "@ + "Review"@ + " ("@ =~= "  Review ("@);
        assert(a =~= title + shown);
        text::lemma_contains_itself(a);
        text::lemma_contains_add(a, b, a);
        text::lemma_contains_add(a + b, c, a);
        lemma_shows_add(title, shown, items[i]);
        lemma_shows_add(a, b, items[i]);
        lemma_shows_add(a + b, c, items[i]);
    }
    if render::level_of(items[i]) == Level::Skim {
        assert(skims.contains(items[i]));
        let k = skims.index_of(items[i]);
        let title = "  Skim ("@ + text::dec(skims.len()) + ")\n"@;
        let shown = blocks(skims, widest(skims), YELLOW@, false);
        lemma_items_are_shown(skims, widest(skims), YELLOW@, k);
        assert("  "@ + "Skim"@ + " ("@ =~= "  Skim ("@);
        assert(b =~= title + shown);
        text::lemma_contains_itself(b);
        text::lemma_contains_add(a, b, b);
        text::lemma_contains_add(a + b, c, b);
        lemma_shows_add(title, shown, items[i]);
        lemma_shows_add(a, b, items[i]);
        lemma_shows_add(a + b, c, items[i]);
    }
}

proof fn lemma_skip_line(gs: Seq<GroupView>, k: int)
    requires
        0 <= k < gs.len(),
    ensures
        text::contains(
            skip_lines(gs, false),
            "    "@ + render::category_label_of(gs[k].category) + " ("@ + text::dec(
                gs[k].paths.len(),
            ) + ")    "@ + render::preview(order::sorted_distinct(gs[k].paths)) + "\n"@,
        ),
    decreases gs.len(),
{
    let p = skip_line(gs[k], false);
    if k < gs.len() - 1 {
        lemma_skip_line(gs.drop_last(), k);
    } else {
        text::lemma_contains_itself(p);
    }
    text::lemma_contains_add(skip_lines(gs.drop_last(), false), skip_line(gs.last(), false), p);
}

/// A terminal shows a line for every category under which something may be
/// skipped: how often, and in which files.
pub proof fn law_terminal_shows_what_is_skipped(items: Seq<ItemView>, i: int, j: int)
    requires
        0 <= i < items.len(),
        render::level_of(items[i]) == Level::Skip,
        0 <= j < items[i].findings.len(),
    ensures
        ({
            let skips = render::at_level(items, Level::Skip);
            let c = items[i].findings[j].category;
            let paths = render::paths_under(render::places(skips), c);
            text::contains(
                human_text(items, false),
                "    "@ + render::category_label_of(c) + " ("@ + text::dec(paths.len()) + ")    "@
                    + render::preview(order::sorted_distinct(paths)) + "\n"@,
            )
        }),
{
    let skips = render::at_level(items, Level::Skip);
    let c = items[i].findings[j].category;
    let paths = render::paths_under(render::places(skips), c);
    render::law_items_by_level(items, Level::Skip);
    assert(skips.contains(items[i]));
    let n = skips.index_of(items[i]);
    render::law_every_category_is_shown(skips, n, j);
    let gs = render::groups_of(skips);
    let k = choose|k: int|
        0 <= k < gs.len() && (#[trigger] gs[k]).category == c && gs[k].paths == paths;
    lemma_skip_line(gs, k);
    let p = skip_line(gs[k], false);
    let title = "  Skip ("@ + text::dec(skips.len()) + ")\n"@;
    let s = skip_section(skips, false);
    assert(s =~= title + skip_lines(gs, false));
    text::lemma_contains_add(title, skip_lines(gs, false), p);
    let before = section(
        "Review"@,
        render::at_level(items, Level::Review),
        BOLD_RED@,
        RED@,
        false,
    ) + section_if_any(
        "Skim"@,
        render::at_level(items, Level::Skim),
        BOLD_YELLOW@,
        YELLOW@,
        false,
    );
    text::lemma_contains_add(before, s, p);
}

/// Items are shown one after the other, in their order, and so are the findings of
/// an item but the first, and the lines of what may be skipped.
pub proof fn law_terminal_is_in_order(
    a: Seq<ItemView>,
    item: ItemView,
    fs: Seq<FindingView>,
    f: FindingView,
    gs: Seq<GroupView>,
    g: GroupView,
    width: nat,
    color: Seq<char>,
)
    ensures
        blocks(a.push(item), width, color, false) == blocks(a, width, color, false) + item_block(
            item,
            width,
            color,
            false,
        ),
        bullets(fs.push(f), width, false) == bullets(fs, width, false) + text::spaces(width + 8)
            + "↳ ["@ + render::level_chip_of(f.level) + "] "@ + render::category_label_of(f.category)
            + ": "@ + f.rationale + "\n"@,
        skip_lines(gs.push(g), false) == skip_lines(gs, false) + "    "@
            + render::category_label_of(g.category) + " ("@ + text::dec(g.paths.len()) + ")    "@
            + render::preview(order::sorted_distinct(g.paths)) + "\n"@,
{
    assert(a.push(item).drop_last() =~= a);
    assert(fs.push(f).drop_last() =~= fs);
    assert(gs.push(g).drop_last() =~= gs);
    assert(bullets(fs.push(f), width, false) =~= bullets(fs, width, false) + text::spaces(width + 8)
        + "↳ ["@ + render::level_chip_of(f.level) + "] "@ + render::category_label_of(f.category)
        + ": "@ + f.rationale + "\n"@);
    assert(skip_lines(gs.push(g), false) =~= skip_lines(gs, false) + "    "@
        + render::category_label_of(g.category) + " ("@ + text::dec(g.paths.len()) + ")    "@
        + render::preview(order::sorted_distinct(g.paths)) + "\n"@);
}

/// The first findings of the items of a level stand below each other: each begins
/// in the same column, the place of its item before it.
pub proof fn law_columns_align(items: Seq<ItemView>, i: int, color: Seq<char>)
    requires
        0 <= i < items.len(),
        items[i].findings.len() > 0,
    ensures
        exists|gap: Seq<char>|
            #[trigger] gap.len() == widest(items) + 8 && text::begins(
                gap,
                "    "@ + locator(items[i]),
            ) && item_block(items[i], widest(items), color, false) == gap + render::shown(
                items[i].findings,
            )[0].rationale + "\n"@ + bullets(
                render::shown(items[i].findings).skip(1),
                widest(items),
                false,
            ),
{
    lemma_widest(items, i);
    render::law_shown_findings(items[i].findings);
    reveal_strlit("    ");
    let width = widest(items);
    let named = "    "@ + locator(items[i]);
    let gap = named + text::spaces((width - locator(items[i]).len() + 4) as nat);
    let fs = render::shown(items[i].findings);
    let rest = bullets(fs.skip(1), width, false);
    assert(gap.subrange(0, named.len() as int) =~= named);
    assert(item_block(items[i], width, color, false) =~= gap + fs[0].rationale + "\n"@ + rest);
    assert(gap.len() == width + 8);
}

proof fn lemma_further_line(locs: Seq<LocationView>, side: Side, k: int)
    requires
        0 <= k < locs.len(),
    ensures
        text::contains(
            further(locs, side),
            ", :"@ + text::dec(render::line_of(locs[k], side) as nat),
        ),
    decreases locs.len(),
{
    let p = ", :"@ + text::dec(render::line_of(locs[k], side) as nat);
    let rest = further(locs.drop_last(), side);
    let last = ", :"@ + text::dec(render::line_of(locs.last(), side) as nat);
    assert(further(locs, side) =~= rest + last);
    if k < locs.len() - 1 {
        lemma_further_line(locs.drop_last(), side, k);
    } else {
        text::lemma_contains_itself(p);
    }
    text::lemma_contains_add(rest, last, p);
}

/// Every hunk of an item but the first is named by the line that it begins on, on
/// the side of the item.
pub proof fn law_terminal_names_every_hunk(item: ItemView, k: int)
    requires
        0 < k < item.locations.len(),
    ensures
        text::contains(
            locator(item),
            ", :"@ + text::dec(
                (if item.side == Side::New {
                    item.locations[k].new_range.start
                } else {
                    item.locations[k].old_range.start
                }) as nat,
            ),
        ),
{
    let locs = item.locations.skip(1);
    assert(locs[k - 1] == item.locations[k]);
    lemma_further_line(locs, item.side, k - 1);
    let first = item.file_path + ":"@ + render::span(item.range.start, item.range.end)
        + match item.side {
        Side::Old => " (old)"@,
        Side::New => ""@,
    };
    text::lemma_contains_add(
        first,
        further(locs, item.side),
        ", :"@ + text::dec(render::line_of(item.locations[k], item.side) as nat),
    );
}

/// A terminal shows the items to review, those to skim, and what may be skipped,
/// and nothing else; but for the first, a part is left out where there is nothing
/// for it.
pub proof fn law_terminal_has_nothing_else(items: Seq<ItemView>)
    ensures
        ({
            let reviews = render::at_level(items, Level::Review);
            let skims = render::at_level(items, Level::Skim);
            let skips = render::at_level(items, Level::Skip);
            let groups = render::groups_of(skips);
            let none = Seq::<char>::empty();
            human_text(items, false) == "  Review ("@ + text::dec(reviews.len()) + ")\n"@ + blocks(
                reviews,
                widest(reviews),
                RED@,
                false,
            ) + (if skims.len() == 0 {
                none
            } else {
                "  Skim ("@ + text::dec(skims.len()) + ")\n"@ + blocks(
                    skims,
                    widest(skims),
                    YELLOW@,
                    false,
                )
            }) + (if groups.len() == 0 {
                none
            } else {
                "  Skip ("@ + text::dec(skips.len()) + ")\n"@ + skip_lines(groups, false)
            })
        }),
{
    reveal_strlit("  ");
    reveal_strlit("Review");
    reveal_strlit("Skim");
    reveal_strlit(" (");
    reveal_strlit("  Review (");
    reveal_strlit("  Skim (");
    assert("  "@ + "Review"@ + " ("@ =~= "  Review ("@);
    assert("  "@ + "Skim"@ + " ("@ =~= "  Skim ("@);
}

} // verus!
