//! The report as markdown, for a sticky comment on a pull request.
use vstd::prelude::*;

use crate::classify::{Finding, FindingView, Level, Side};
use crate::consolidate::{Item, ItemView, LocationView};
use crate::diff::Diff;
use crate::order;
use crate::render;
use crate::render::{Group, GroupView, Skipped, Summary};
use crate::text;

verus! {

/// What a sticky comment begins with, so that it is found again.
pub const STICKY_MARKER: &'static str = "<!-- garbelour:sticky -->";

/// The pull request that links lead to.
#[derive(Debug)]
pub struct RepoRef {
    pub host: String,
    pub owner: String,
    pub repo: String,
    pub pr: u64,
}

#[verifier::ext_equal]
pub struct RepoRefView {
    pub host: Seq<char>,
    pub owner: Seq<char>,
    pub repo: Seq<char>,
    pub pr: u64,
}

impl View for RepoRef {
    type V = RepoRefView;

    open spec fn view(&self) -> RepoRefView {
        RepoRefView { host: self.host@, owner: self.owner@, repo: self.repo@, pr: self.pr }
    }
}

impl Clone for RepoRef {
    fn clone(&self) -> (r: Self)
        ensures
            r@ == self@,
    {
        RepoRef {
            host: self.host.clone(),
            owner: self.owner.clone(),
            repo: self.repo.clone(),
            pr: self.pr,
        }
    }
}

/// What `sha2::Sha256::digest` returns for these bytes.
pub uninterp spec fn sha256_of(bytes: Seq<u8>) -> Seq<u8>;

/// `sha2::Sha256::digest`: what it returns depends on the bytes alone and is 32
/// bytes long.
#[verifier::external_body]
fn sha256(bytes: &[u8]) -> (r: Vec<u8>)
    ensures
        r@ == sha256_of(bytes@),
        r@.len() == 32,
{
    <sha2::Sha256 as sha2::Digest>::digest(bytes).to_vec()
}

/// The hexadecimal digit for a number below sixteen, in lower case.
pub open spec fn hex_digit(n: int) -> char {
    if n < 10 {
        ('0' as int + n) as char
    } else {
        ('a' as int + n - 10) as char
    }
}

/// Two hexadecimal digits for each byte, the higher half first.
pub open spec fn hex_of(bytes: Seq<u8>) -> Seq<char>
    decreases bytes.len(),
{
    if bytes.len() == 0 {
        Seq::empty()
    } else {
        hex_of(bytes.drop_last()).push(hex_digit(bytes.last() as int / 16)).push(
            hex_digit(bytes.last() as int % 16),
        )
    }
}

/// `hex::encode`: two digits for each byte, the higher half first, in lower
/// case.
#[verifier::external_body]
fn hex_encode(bytes: &Vec<u8>) -> (r: String)
    ensures
        r@ == hex_of(bytes@),
{
    hex::encode(bytes)
}

/// The fragment that leads to a line in the list of changed files.
pub open spec fn anchor_text(path: Seq<char>, line: u32, side: Side) -> Seq<char> {
    "diff-"@ + hex_of(sha256_of(vstd::utf8::encode_utf8(path))) + match side {
        Side::New => "R"@,
        Side::Old => "L"@,
    } + text::dec(line as nat)
}

/// The fragment that leads to a line in the list of changed files.
pub fn diff_anchor(path: &str, line: u32, side: Side) -> (r: String)
    ensures
        r@ == anchor_text(path@, line, side),
{
    let mut out: String = "diff-".to_string();
    out.append(hex_encode(&sha256(path.as_bytes())).as_str());
    match side {
        Side::New => {
            out.append("R");
        },
        Side::Old => {
            out.append("L");
        },
    }
    out.append(text::decimal(line as u64).as_str());
    out
}

/// The address of a line of the pull request.
pub open spec fn link_text(r: RepoRefView, path: Seq<char>, line: u32, side: Side) -> Seq<char> {
    r.host + "/"@ + r.owner + "/"@ + r.repo + "/pull/"@ + text::dec(r.pr as nat) + "/files#"@
        + anchor_text(path, line, side)
}

fn deep_link(r: &RepoRef, path: &str, line: u32, side: Side) -> (out: String)
    ensures
        out@ == link_text(r@, path@, line, side),
{
    let mut out: String = r.host.clone();
    out.append("/");
    out.append(r.owner.as_str());
    out.append("/");
    out.append(r.repo.as_str());
    out.append("/pull/");
    out.append(text::decimal(r.pr).as_str());
    out.append("/files#");
    out.append(diff_anchor(path, line, side).as_str());
    out
}

/// A label, as a link where there is something to link to.
pub open spec fn linked(
    label: Seq<char>,
    repo: Option<RepoRefView>,
    path: Seq<char>,
    line: u32,
    side: Side,
) -> Seq<char> {
    match repo {
        Some(r) => "["@ + label + "]("@ + link_text(r, path, line, side) + ")"@,
        None => label,
    }
}

fn link(label: String, repo: Option<&RepoRef>, path: &str, line: u32, side: Side) -> (out: String)
    ensures
        out@ == linked(label@, text::opt_view(repo), path@, line, side),
{
    match repo {
        Some(r) => {
            let mut out: String = "[".to_string();
            out.append(label.as_str());
            out.append("](");
            out.append(deep_link(r, path, line, side).as_str());
            out.append(")");
            out
        },
        None => label,
    }
}

/// The first lines of further locations, as links.
pub open spec fn further_links(
    locs: Seq<LocationView>,
    repo: Option<RepoRefView>,
    path: Seq<char>,
    side: Side,
) -> Seq<char>
    decreases locs.len(),
{
    if locs.len() == 0 {
        Seq::empty()
    } else {
        let line = render::line_of(locs.last(), side);
        further_links(locs.drop_last(), repo, path, side) + ", "@ + linked(
            "`:"@ + text::dec(line as nat) + "`"@,
            repo,
            path,
            line,
            side,
        )
    }
}

/// Where an item is, as markdown.
pub open spec fn anchor(item: ItemView, repo: Option<RepoRefView>) -> Seq<char> {
    let first = linked(
        "`"@ + item.file_path + ":"@ + render::span(item.range.start, item.range.end) + "`"@,
        repo,
        item.file_path,
        item.range.start,
        item.side,
    );
    if item.locations.len() <= 1 {
        first
    } else {
        first + further_links(item.locations.skip(1), repo, item.file_path, item.side)
    }
}

fn further_anchors(item: &Item, repo: Option<&RepoRef>) -> (r: String)
    requires
        item.locations@.len() > 0,
    ensures
        r@ == further_links(
            item@.locations.skip(1),
            text::opt_view(repo),
            item@.file_path,
            item.side,
        ),
{
    let ghost to = text::opt_view(repo);
    let ghost locs = item@.locations.skip(1);
    let mut out: String = String::new();
    let mut i: usize = 1;
    while i < item.locations.len()
        invariant
            1 <= i <= item.locations.len(),
            to == text::opt_view(repo),
            locs == item@.locations.skip(1),
            locs.len() == item.locations.len() - 1,
            out@ == further_links(locs.take(i - 1), to, item@.file_path, item.side),
        decreases item.locations.len() - i,
    {
        proof {
            assert(locs.take(i as int).drop_last() == locs.take(i - 1));
            assert(locs.take(i as int).last() == item.locations@[i as int]@);
        }
        let line: u32 = render::location_line(&item.locations[i], item.side);
        let mut label: String = "`:".to_string();
        label.append(text::decimal(line as u64).as_str());
        label.append("`");
        out.append(", ");
        out.append(link(label, repo, item.file_path.as_str(), line, item.side).as_str());
        i = i + 1;
    }
    assert(locs.take(i - 1) == locs);
    out
}

fn markdown_anchor(item: &Item, repo: Option<&RepoRef>) -> (r: String)
    ensures
        r@ == anchor(item@, text::opt_view(repo)),
{
    let path: &str = item.file_path.as_str();
    let mut label: String = "`".to_string();
    label.append(path);
    label.append(":");
    label.append(render::line_span(item.range.start, item.range.end).as_str());
    label.append("`");
    let mut out: String = link(label, repo, path, item.range.start, item.side);
    if item.locations.len() > 1 {
        out.append(further_anchors(item, repo).as_str());
    }
    out
}

/// A finding in the list of an item.
pub open spec fn nested_bullet(f: FindingView) -> Seq<char> {
    "  - **"@ + render::level_chip_of(f.level) + "** *("@ + render::category_label_of(f.category) + ")*: "@
        + f.rationale + "\n"@
}

pub open spec fn nested_bullets(fs: Seq<FindingView>) -> Seq<char>
    decreases fs.len(),
{
    if fs.len() == 0 {
        Seq::empty()
    } else {
        nested_bullets(fs.drop_last()) + nested_bullet(fs.last())
    }
}

/// What is shown of an item. Nothing is shown of an item without findings.
pub open spec fn item_markdown(item: ItemView, repo: Option<RepoRefView>) -> Seq<char> {
    let fs = render::shown(item.findings);
    if fs.len() == 0 {
        Seq::empty()
    } else if fs.len() == 1 {
        "- "@ + anchor(item, repo) + ": "@ + fs[0].rationale + "\n"@
    } else {
        "- "@ + anchor(item, repo) + ":\n"@ + nested_bullets(fs)
    }
}

fn nested_list(findings: &Vec<Finding>) -> (r: String)
    ensures
        r@ == nested_bullets(text::views(findings@)),
{
    let ghost fs = text::views(findings@);
    let mut out: String = String::new();
    let mut i: usize = 0;
    while i < findings.len()
        invariant
            i <= findings.len(),
            fs == text::views(findings@),
            out@ == nested_bullets(fs.take(i as int)),
        decreases findings.len() - i,
    {
        proof {
            assert(fs.take(i + 1).drop_last() == fs.take(i as int));
            assert(fs.take(i + 1).last() == findings@[i as int]@);
        }
        let mut line: String = "  - **".to_string();
        line.append(render::level_chip(findings[i].level));
        line.append("** *(");
        line.append(render::category_label(findings[i].category));
        line.append(")*: ");
        line.append(findings[i].rationale.as_str());
        line.append("\n");
        out.append(line.as_str());
        i = i + 1;
    }
    assert(fs.take(i as int) == fs);
    out
}

fn markdown_item(item: &Item, repo: Option<&RepoRef>) -> (r: String)
    ensures
        r@ == item_markdown(item@, text::opt_view(repo)),
{
    let findings: Vec<Finding> = render::sorted_findings(item);
    if findings.len() == 0 {
        return String::new();
    }
    let mut out: String = "- ".to_string();
    out.append(markdown_anchor(item, repo).as_str());
    if findings.len() == 1 {
        assert(render::shown(item@.findings)[0] == findings@[0]@);
        out.append(": ");
        out.append(findings[0].rationale.as_str());
        out.append("\n");
    } else {
        out.append(":\n");
        out.append(nested_list(&findings).as_str());
    }
    out
}

pub open spec fn items_markdown(items: Seq<ItemView>, repo: Option<RepoRefView>) -> Seq<char>
    decreases items.len(),
{
    if items.len() == 0 {
        Seq::empty()
    } else {
        items_markdown(items.drop_last(), repo) + item_markdown(items.last(), repo)
    }
}

fn markdown_items(items: &Vec<&Item>, repo: Option<&RepoRef>) -> (r: String)
    ensures
        r@ == items_markdown(text::views(items@), text::opt_view(repo)),
{
    let ghost all = text::views(items@);
    let ghost to = text::opt_view(repo);
    let mut out: String = String::new();
    let mut i: usize = 0;
    while i < items.len()
        invariant
            i <= items.len(),
            all == text::views(items@),
            to == text::opt_view(repo),
            out@ == items_markdown(all.take(i as int), to),
        decreases items.len() - i,
    {
        proof {
            assert(all.take(i + 1).drop_last() == all.take(i as int));
            assert(all.take(i + 1).last() == items@[i as int]@);
        }
        out.append(markdown_item(items[i], repo).as_str());
        i = i + 1;
    }
    assert(all.take(i as int) == all);
    out
}

/// A category that may be skipped: how often, and where.
pub open spec fn skip_item(g: GroupView) -> Seq<char> {
    "- **"@ + render::category_label_of(g.category) + "** ("@ + text::dec(g.paths.len()) + "): "@
        + render::preview(order::sorted_distinct(g.paths)) + "\n"@
}

pub open spec fn skip_list(gs: Seq<GroupView>) -> Seq<char>
    decreases gs.len(),
{
    if gs.len() == 0 {
        Seq::empty()
    } else {
        skip_list(gs.drop_last()) + skip_item(gs.last())
    }
}

fn markdown_skip_item(g: &Group) -> (r: String)
    ensures
        r@ == skip_item(g@),
{
    let files: Vec<String> = order::sort_distinct(text::clone_all(&g.paths));
    let mut line: String = "- **".to_string();
    line.append(render::category_label(g.category));
    line.append("** (");
    line.append(text::decimal(g.paths.len() as u64).as_str());
    line.append("): ");
    line.append(render::preview_paths(&files).as_str());
    line.append("\n");
    line
}

fn markdown_skip_list(groups: &Vec<Group>) -> (r: String)
    ensures
        r@ == skip_list(text::views(groups@)),
{
    let ghost gs = text::views(groups@);
    let mut out: String = String::new();
    let mut i: usize = 0;
    while i < groups.len()
        invariant
            i <= groups.len(),
            gs == text::views(groups@),
            out@ == skip_list(gs.take(i as int)),
        decreases groups.len() - i,
    {
        proof {
            assert(gs.take(i + 1).drop_last() == gs.take(i as int));
            assert(gs.take(i + 1).last() == groups@[i as int]@);
        }
        out.append(markdown_skip_item(&groups[i]).as_str());
        i = i + 1;
    }
    assert(gs.take(i as int) == gs);
    out
}

/// What stands before and behind a part that is folded away.
pub const FOLD: &'static str = "<details>\n<summary>Click to expand</summary>\n\n";

pub const UNFOLD: &'static str = "\n</details>\n";

/// The counts, below the heading.
pub open spec fn markdown_head(items: Seq<ItemView>) -> Seq<char> {
    STICKY_MARKER@ + "\n## Garbelour\n\n"@ + "**"@ + text::dec(
        render::at_level(items, Level::Review).len(),
    ) + " of "@ + text::dec(items.len()) + " hunks need review.** "@ + text::dec(
        render::at_level(items, Level::Skim).len(),
    ) + " worth skimming. "@ + text::dec(render::at_level(items, Level::Skip).len()) + " mechanical.\n"@
}

/// The items to review, under a heading.
pub open spec fn review_markdown(items: Seq<ItemView>, repo: Option<RepoRefView>) -> Seq<char> {
    if items.len() > 0 {
        "\n### Review ("@ + text::dec(items.len()) + ")\n\n"@ + items_markdown(items, repo)
    } else {
        Seq::empty()
    }
}

/// The items to skim, folded away under a heading.
pub open spec fn skim_markdown(items: Seq<ItemView>, repo: Option<RepoRefView>) -> Seq<char> {
    if items.len() > 0 {
        "\n### Skim ("@ + text::dec(items.len()) + ")\n\n"@ + FOLD@ + items_markdown(items, repo)
            + UNFOLD@
    } else {
        Seq::empty()
    }
}

/// What may be skipped, folded away under a heading: how many items, and for each
/// category how often and where.
pub open spec fn skip_markdown(items: Seq<ItemView>) -> Seq<char> {
    let groups = render::groups_of(items);
    if groups.len() > 0 {
        "\n### Skip ("@ + text::dec(items.len()) + ")\n\n"@ + FOLD@ + skip_list(groups)
            + UNFOLD@
    } else {
        Seq::empty()
    }
}

/// The body of the sticky comment.
pub open spec fn markdown_text(items: Seq<ItemView>, repo: Option<RepoRefView>) -> Seq<char> {
    markdown_head(items) + review_markdown(render::at_level(items, Level::Review), repo) + skim_markdown(
        render::at_level(items, Level::Skim),
        repo,
    ) + skip_markdown(render::at_level(items, Level::Skip))
}

fn heading(items: &[Item]) -> (r: String)
    ensures
        r@ == markdown_head(text::views(items@)),
{
    let s: Summary = Summary::from_items(items);
    let mut out: String = STICKY_MARKER.to_string();
    out.append("\n## Garbelour\n\n");
    out.append("**");
    out.append(text::decimal(s.review as u64).as_str());
    out.append(" of ");
    out.append(text::decimal(s.total as u64).as_str());
    out.append(" hunks need review.** ");
    out.append(text::decimal(s.skim as u64).as_str());
    out.append(" worth skimming. ");
    out.append(text::decimal(s.skip as u64).as_str());
    out.append(" mechanical.\n");
    out
}

fn review_section(items: &Vec<&Item>, repo: Option<&RepoRef>) -> (r: String)
    ensures
        r@ == review_markdown(text::views(items@), text::opt_view(repo)),
{
    if items.len() == 0 {
        return String::new();
    }
    let mut out: String = "\n### Review (".to_string();
    out.append(text::decimal(items.len() as u64).as_str());
    out.append(")\n\n");
    out.append(markdown_items(items, repo).as_str());
    out
}

fn skim_section(items: &Vec<&Item>, repo: Option<&RepoRef>) -> (r: String)
    ensures
        r@ == skim_markdown(text::views(items@), text::opt_view(repo)),
{
    if items.len() == 0 {
        return String::new();
    }
    let mut out: String = "\n### Skim (".to_string();
    out.append(text::decimal(items.len() as u64).as_str());
    out.append(")\n\n");
    out.append(FOLD);
    out.append(markdown_items(items, repo).as_str());
    out.append(UNFOLD);
    out
}

fn skip_details(items: &Vec<&Item>) -> (r: String)
    ensures
        r@ == skip_markdown(text::views(items@)),
{
    let skipped: Vec<Skipped> = render::skipped_places(items);
    let groups: Vec<Group> = render::skip_groups(items, &skipped);
    if groups.len() == 0 {
        return String::new();
    }
    let mut out: String = "\n### Skip (".to_string();
    out.append(text::decimal(items.len() as u64).as_str());
    out.append(")\n\n");
    out.append(FOLD);
    out.append(markdown_skip_list(&groups).as_str());
    out.append(UNFOLD);
    out
}

/// The body of the sticky comment. With `repo_ref` each place is a link into
/// the pull request; without, the text can be read as it is.
pub fn markdown(_diff: &Diff, items: &[Item], repo_ref: Option<&RepoRef>) -> (r: String)
    ensures
        r@ == markdown_text(text::views(items@), text::opt_view(repo_ref)),
{
    let review: Vec<&Item> = render::with_level(items, Level::Review);
    let skim: Vec<&Item> = render::with_level(items, Level::Skim);
    let skip: Vec<&Item> = render::with_level(items, Level::Skip);
    let mut out: String = heading(items);
    out.append(review_section(&review, repo_ref).as_str());
    out.append(skim_section(&skim, repo_ref).as_str());
    out.append(skip_details(&skip).as_str());
    out
}

/// The body of a comment begins with the marker, so that the comment is found
/// again.
pub proof fn law_markdown_is_sticky(items: Seq<ItemView>, repo: Option<RepoRefView>)
    ensures
        text::begins(markdown_text(items, repo), STICKY_MARKER@),
        text::contains(markdown_text(items, repo), STICKY_MARKER@),
{
    let body = markdown_text(items, repo);
    assert(body.subrange(0, STICKY_MARKER@.len() as int) =~= STICKY_MARKER@);
    assert(text::occurs_at(body, STICKY_MARKER@, 0));
}

// --- nothing that needs attention is left out ----------------------------

proof fn lemma_bullets(fs: Seq<FindingView>, i: int)
    requires
        0 <= i < fs.len(),
    ensures
        text::contains(nested_bullets(fs), fs[i].rationale + "\n"@),
    decreases fs.len(),
{
    let p = fs[i].rationale + "\n"@;
    let rest = nested_bullets(fs.drop_last());
    let last = nested_bullet(fs.last());
    if i < fs.len() - 1 {
        lemma_bullets(fs.drop_last(), i);
    } else {
        let head = "  - **"@ + render::level_chip_of(fs[i].level) + "** *("@
            + render::category_label_of(fs[i].category) + ")*: "@;
        assert(last =~= head + p);
        text::lemma_contains_itself(p);
        text::lemma_contains_add(head, p, p);
    }
    text::lemma_contains_add(rest, last, p);
}

/// How an item is named: its file and its lines.
pub open spec fn item_title(item: ItemView) -> Seq<char> {
    "`"@ + item.file_path + ":"@ + render::span(item.range.start, item.range.end) + "`"@
}

/// Where the name of an item leads in a pull request: to its first line, on its
/// side of its file.
pub open spec fn item_target(item: ItemView, r: RepoRefView) -> Seq<char> {
    "]("@ + r.host + "/"@ + r.owner + "/"@ + r.repo + "/pull/"@ + text::dec(r.pr as nat)
        + "/files#diff-"@ + hex_of(sha256_of(vstd::utf8::encode_utf8(item.file_path))) + (
    if item.side == Side::New {
        "R"@
    } else {
        "L"@
    }) + text::dec(item.range.start as nat) + ")"@
}

/// The text shows an item: its name, where that leads, and every rationale.
pub open spec fn shows(s: Seq<char>, item: ItemView, repo: Option<RepoRefView>) -> bool {
    &&& text::contains(s, item_title(item))
    &&& repo matches Some(r) ==> text::contains(s, item_target(item, r))
    &&& forall|k: int|
        0 <= k < item.findings.len() ==> text::contains(
            s,
            (#[trigger] item.findings[k]).rationale + "\n"@,
        )
}

proof fn lemma_shows_add(a: Seq<char>, b: Seq<char>, item: ItemView, repo: Option<RepoRefView>)
    ensures
        shows(a, item, repo) ==> shows(a + b, item, repo),
        shows(b, item, repo) ==> shows(a + b, item, repo),
{
    text::lemma_contains_add(a, b, item_title(item));
    match repo {
        Some(r) => text::lemma_contains_add(a, b, item_target(item, r)),
        None => {},
    }
    assert forall|k: int|
        0 <= k < item.findings.len() && (shows(a, item, repo) || shows(b, item, repo))
        implies text::contains(a + b, (#[trigger] item.findings[k]).rationale + "\n"@) by {
        text::lemma_contains_add(a, b, item.findings[k].rationale + "\n"@);
    }
}

proof fn lemma_anchor(item: ItemView, repo: Option<RepoRefView>)
    ensures
        text::contains(anchor(item, repo), item_title(item)),
        repo matches Some(r) ==> text::contains(anchor(item, repo), item_target(item, r)),
{
    let title = item_title(item);
    let first = linked(title, repo, item.file_path, item.range.start, item.side);
    text::lemma_contains_itself(title);
    match repo {
        Some(r) => {
            let target = item_target(item, r);
            reveal_strlit("/files#");
            reveal_strlit("diff-");
            reveal_strlit("/files#diff-");
            assert("/files#"@ + "diff-"@ =~= "/files#diff-"@);
            let link = link_text(r, item.file_path, item.range.start, item.side);
            assert("]("@ + link + ")"@ =~= target);
            assert(first =~= "["@ + title + target);
            text::lemma_contains_add("["@, title, title);
            text::lemma_contains_add("["@ + title, target, title);
            text::lemma_contains_itself(target);
            text::lemma_contains_add("["@ + title, target, target);
            if item.locations.len() > 1 {
                let more = further_links(
                    item.locations.skip(1),
                    repo,
                    item.file_path,
                    item.side,
                );
                text::lemma_contains_add(first, more, title);
                text::lemma_contains_add(first, more, target);
            }
        },
        None => {
            if item.locations.len() > 1 {
                text::lemma_contains_add(
                    first,
                    further_links(item.locations.skip(1), repo, item.file_path, item.side),
                    title,
                );
            }
        },
    }
}

proof fn lemma_item_is_shown(item: ItemView, repo: Option<RepoRefView>)
    requires
        item.findings.len() > 0,
    ensures
        shows(item_markdown(item, repo), item, repo),
{
    let fs = render::shown(item.findings);
    let s = item_markdown(item, repo);
    let a = anchor(item, repo);
    render::law_shown_findings(item.findings);
    lemma_anchor(item, repo);
    let tail = if fs.len() == 1 {
        ": "@ + fs[0].rationale + "\n"@
    } else {
        ":\n"@ + nested_bullets(fs)
    };
    assert(s =~= "- "@ + a + tail);
    text::lemma_contains_add("- "@, a, item_title(item));
    text::lemma_contains_add("- "@ + a, tail, item_title(item));
    match repo {
        Some(r) => {
            text::lemma_contains_add("- "@, a, item_target(item, r));
            text::lemma_contains_add("- "@ + a, tail, item_target(item, r));
        },
        None => {},
    }
    assert forall|k: int| 0 <= k < item.findings.len() implies text::contains(
        s,
        (#[trigger] item.findings[k]).rationale + "\n"@,
    ) by {
        let f = item.findings[k];
        let p = f.rationale + "\n"@;
        fs.to_multiset_ensures();
        item.findings.to_multiset_ensures();
        assert(item.findings.contains(f));
        assert(item.findings.to_multiset().count(f) > 0);
        assert(fs.contains(f));
        let m = fs.index_of(f);
        if fs.len() == 1 {
            assert(tail =~= ": "@ + p);
            text::lemma_contains_itself(p);
            text::lemma_contains_add(": "@, p, p);
        } else {
            lemma_bullets(fs, m);
            text::lemma_contains_add(":\n"@, nested_bullets(fs), p);
        }
        text::lemma_contains_add("- "@ + a, tail, p);
    }
}

proof fn lemma_items_are_shown(items: Seq<ItemView>, repo: Option<RepoRefView>, i: int)
    requires
        0 <= i < items.len(),
        items[i].findings.len() > 0,
    ensures
        shows(items_markdown(items, repo), items[i], repo),
    decreases items.len(),
{
    if i < items.len() - 1 {
        lemma_items_are_shown(items.drop_last(), repo, i);
    } else {
        lemma_item_is_shown(items[i], repo);
    }
    lemma_shows_add(
        items_markdown(items.drop_last(), repo),
        item_markdown(items.last(), repo),
        items[i],
        repo,
    );
}

/// The comment shows every item that is to be reviewed, among those under
/// `Review`, and every item that is to be skimmed, among those under `Skim`: where
/// it is, with a link where the pull request is known, and all that was found.
pub proof fn law_comment_shows_items(items: Seq<ItemView>, repo: Option<RepoRefView>, i: int)
    requires
        0 <= i < items.len(),
        items[i].findings.len() > 0,
    ensures
        ({
            let reviews = render::at_level(items, Level::Review);
            let skims = render::at_level(items, Level::Skim);
            let all = markdown_text(items, repo);
            let under_review = "\n### Review ("@ + text::dec(reviews.len()) + ")\n\n"@
                + items_markdown(reviews, repo);
            let under_skim = "\n### Skim ("@ + text::dec(skims.len()) + ")\n\n"@ + FOLD@
                + items_markdown(skims, repo);
            &&& render::level_of(items[i]) == Level::Review ==> text::contains(all, under_review)
                && shows(items_markdown(reviews, repo), items[i], repo) && shows(
                all,
                items[i],
                repo,
            )
            &&& render::level_of(items[i]) == Level::Skim ==> text::contains(all, under_skim)
                && shows(items_markdown(skims, repo), items[i], repo) && shows(all, items[i], repo)
        }),
{
    let reviews = render::at_level(items, Level::Review);
    let skims = render::at_level(items, Level::Skim);
    let all = markdown_text(items, repo);
    let head = markdown_head(items);
    let a = review_markdown(reviews, repo);
    let b = skim_markdown(skims, repo);
    let c = skip_markdown(render::at_level(items, Level::Skip));
    assert(all =~= head + a + b + c);
    render::law_items_by_level(items, Level::Review);
    render::law_items_by_level(items, Level::Skim);
    if render::level_of(items[i]) == Level::Review {
        assert(reviews.contains(items[i]));
        let k = reviews.index_of(items[i]);
        lemma_items_are_shown(reviews, repo, k);
        let title = "\n### Review ("@ + text::dec(reviews.len()) + ")\n\n"@;
        let shown = items_markdown(reviews, repo);
        assert(a =~= title + shown);
        text::lemma_contains_itself(a);
        text::lemma_contains_add(head, a, a);
        text::lemma_contains_add(head + a, b, a);
        text::lemma_contains_add(head + a + b, c, a);
        lemma_shows_add(title, shown, items[i], repo);
        lemma_shows_add(head, a, items[i], repo);
        lemma_shows_add(head + a, b, items[i], repo);
        lemma_shows_add(head + a + b, c, items[i], repo);
    }
    if render::level_of(items[i]) == Level::Skim {
        assert(skims.contains(items[i]));
        let k = skims.index_of(items[i]);
        lemma_items_are_shown(skims, repo, k);
        let title = "\n### Skim ("@ + text::dec(skims.len()) + ")\n\n"@ + FOLD@;
        let shown = items_markdown(skims, repo);
        let under = title + shown;
        assert(b =~= under + UNFOLD@);
        text::lemma_contains_itself(under);
        text::lemma_contains_add(under, UNFOLD@, under);
        text::lemma_contains_add(head + a, b, under);
        text::lemma_contains_add(head + a + b, c, under);
        lemma_shows_add(title, shown, items[i], repo);
        lemma_shows_add(under, UNFOLD@, items[i], repo);
        lemma_shows_add(head + a, b, items[i], repo);
        lemma_shows_add(head + a + b, c, items[i], repo);
    }
}

proof fn lemma_skip_item(gs: Seq<GroupView>, k: int)
    requires
        0 <= k < gs.len(),
    ensures
        text::contains(
            skip_list(gs),
            "- **"@ + render::category_label_of(gs[k].category) + "** ("@ + text::dec(
                gs[k].paths.len(),
            ) + "): "@ + render::preview(order::sorted_distinct(gs[k].paths)) + "\n"@,
        ),
    decreases gs.len(),
{
    let p = skip_item(gs[k]);
    if k < gs.len() - 1 {
        lemma_skip_item(gs.drop_last(), k);
    } else {
        text::lemma_contains_itself(p);
    }
    text::lemma_contains_add(skip_list(gs.drop_last()), skip_item(gs.last()), p);
}

/// The comment has a line for every category under which something may be
/// skipped: how often, and in which files.
pub proof fn law_comment_shows_what_is_skipped(
    items: Seq<ItemView>,
    repo: Option<RepoRefView>,
    i: int,
    j: int,
)
    requires
        0 <= i < items.len(),
        render::level_of(items[i]) == Level::Skip,
        0 <= j < items[i].findings.len(),
    ensures
        ({
            let skips = render::at_level(items, Level::Skip);
            let c = items[i].findings[j].category;
            let paths = render::paths_under(render::places(skips), c);
            text::contains(
                markdown_text(items, repo),
                "- **"@ + render::category_label_of(c) + "** ("@ + text::dec(paths.len()) + "): "@
                    + render::preview(order::sorted_distinct(paths)) + "\n"@,
            )
        }),
{
    let skips = render::at_level(items, Level::Skip);
    let c = items[i].findings[j].category;
    let paths = render::paths_under(render::places(skips), c);
    render::law_items_by_level(items, Level::Skip);
    assert(skips.contains(items[i]));
    let n = skips.index_of(items[i]);
    render::law_every_category_is_shown(skips, n, j);
    let gs = render::groups_of(skips);
    let k = choose|k: int|
        0 <= k < gs.len() && (#[trigger] gs[k]).category == c && gs[k].paths == paths;
    lemma_skip_item(gs, k);
    let p = skip_item(gs[k]);
    let title = "\n### Skip ("@ + text::dec(skips.len()) + ")\n\n"@ + FOLD@;
    let s = skip_markdown(skips);
    assert(s =~= title + skip_list(gs) + UNFOLD@);
    text::lemma_contains_add(title, skip_list(gs), p);
    text::lemma_contains_add(title + skip_list(gs), UNFOLD@, p);
    let before = markdown_head(items) + review_markdown(
        render::at_level(items, Level::Review),
        repo,
    ) + skim_markdown(render::at_level(items, Level::Skim), repo);
    text::lemma_contains_add(before, s, p);
}

/// Items are shown one after the other, in their order, and so are the findings of
/// an item and the lines of what may be skipped.
pub proof fn law_comment_is_in_order(
    a: Seq<ItemView>,
    item: ItemView,
    fs: Seq<FindingView>,
    f: FindingView,
    gs: Seq<GroupView>,
    g: GroupView,
    repo: Option<RepoRefView>,
)
    ensures
        items_markdown(a.push(item), repo) == items_markdown(a, repo) + item_markdown(item, repo),
        nested_bullets(fs.push(f)) == nested_bullets(fs) + "  - **"@ + render::level_chip_of(
            f.level,
        ) + "** *("@ + render::category_label_of(f.category) + ")*: "@ + f.rationale + "\n"@,
        skip_list(gs.push(g)) == skip_list(gs) + "- **"@ + render::category_label_of(g.category)
            + "** ("@ + text::dec(g.paths.len()) + "): "@ + render::preview(
            order::sorted_distinct(g.paths),
        ) + "\n"@,
{
    assert(a.push(item).drop_last() =~= a);
    assert(fs.push(f).drop_last() =~= fs);
    assert(gs.push(g).drop_last() =~= gs);
    assert(nested_bullets(fs.push(f)) =~= nested_bullets(fs) + "  - **"@ + render::level_chip_of(
        f.level,
    ) + "** *("@ + render::category_label_of(f.category) + ")*: "@ + f.rationale + "\n"@);
    assert(skip_list(gs.push(g)) =~= skip_list(gs) + "- **"@ + render::category_label_of(
        g.category,
    ) + "** ("@ + text::dec(g.paths.len()) + "): "@ + render::preview(
        order::sorted_distinct(g.paths),
    ) + "\n"@);
}

proof fn lemma_further(
    locs: Seq<LocationView>,
    repo: Option<RepoRefView>,
    path: Seq<char>,
    side: Side,
    k: int,
)
    requires
        0 <= k < locs.len(),
    ensures
        text::contains(
            further_links(locs, repo, path, side),
            "`:"@ + text::dec(render::line_of(locs[k], side) as nat) + "`"@,
        ),
    decreases locs.len(),
{
    let line = render::line_of(locs.last(), side);
    let label = "`:"@ + text::dec(line as nat) + "`"@;
    let rest = further_links(locs.drop_last(), repo, path, side);
    let last = linked(label, repo, path, line, side);
    let p = "`:"@ + text::dec(render::line_of(locs[k], side) as nat) + "`"@;
    assert(further_links(locs, repo, path, side) =~= rest + (", "@ + last));
    if k < locs.len() - 1 {
        lemma_further(locs.drop_last(), repo, path, side, k);
    } else {
        text::lemma_contains_itself(p);
        match repo {
            Some(r) => {
                let tail = "]("@ + link_text(r, path, line, side) + ")"@;
                assert(last =~= "["@ + label + tail);
                text::lemma_contains_add("["@, label, p);
                text::lemma_contains_add("["@ + label, tail, p);
            },
            None => {},
        }
        text::lemma_contains_add(", "@, last, p);
    }
    text::lemma_contains_add(rest, ", "@ + last, p);
}

/// Every hunk of an item but the first is named by the line that it begins on, on
/// the side of the item.
pub proof fn law_comment_names_every_hunk(item: ItemView, repo: Option<RepoRefView>, k: int)
    requires
        0 < k < item.locations.len(),
    ensures
        text::contains(
            anchor(item, repo),
            "`:"@ + text::dec(
                (if item.side == Side::New {
                    item.locations[k].new_range.start
                } else {
                    item.locations[k].old_range.start
                }) as nat,
            ) + "`"@,
        ),
{
    let locs = item.locations.skip(1);
    assert(locs[k - 1] == item.locations[k]);
    lemma_further(locs, repo, item.file_path, item.side, k - 1);
    let first = linked(item_title(item), repo, item.file_path, item.range.start, item.side);
    text::lemma_contains_add(
        first,
        further_links(locs, repo, item.file_path, item.side),
        "`:"@ + text::dec(render::line_of(item.locations[k], item.side) as nat) + "`"@,
    );
}

/// The comment is the marker and the counts, the items to review, those to skim,
/// and what may be skipped; a part is left out where there is nothing for it. One
/// finding stands behind the place of its item, more below it.
pub proof fn law_comment_has_nothing_else(
    items: Seq<ItemView>,
    item: ItemView,
    repo: Option<RepoRefView>,
)
    ensures
        ({
            let reviews = render::at_level(items, Level::Review);
            let skims = render::at_level(items, Level::Skim);
            let skips = render::at_level(items, Level::Skip);
            let groups = render::groups_of(skips);
            let none = Seq::<char>::empty();
            markdown_text(items, repo) == STICKY_MARKER@ + "\n## Garbelour\n\n"@ + "**"@ + text::dec(
                reviews.len(),
            ) + " of "@ + text::dec(items.len()) + " hunks need review.** "@ + text::dec(
                skims.len(),
            ) + " worth skimming. "@ + text::dec(skips.len()) + " mechanical.\n"@ + (if reviews.len()
                == 0 {
                none
            } else {
                "\n### Review ("@ + text::dec(reviews.len()) + ")\n\n"@ + items_markdown(
                    reviews,
                    repo,
                )
            }) + (if skims.len() == 0 {
                none
            } else {
                "\n### Skim ("@ + text::dec(skims.len()) + ")\n\n"@ + FOLD@ + items_markdown(
                    skims,
                    repo,
                ) + UNFOLD@
            }) + (if groups.len() == 0 {
                none
            } else {
                "\n### Skip ("@ + text::dec(skips.len()) + ")\n\n"@ + FOLD@ + skip_list(groups)
                    + UNFOLD@
            })
        }),
        item.findings.len() == 1 ==> item_markdown(item, repo) == "- "@ + anchor(item, repo) + ": "@
            + item.findings[0].rationale + "\n"@,
        item.findings.len() > 1 ==> item_markdown(item, repo) == "- "@ + anchor(item, repo)
            + ":\n"@ + nested_bullets(render::shown(item.findings)),
{
    render::law_shown_findings(item.findings);
    let fs = render::shown(item.findings);
    fs.to_multiset_ensures();
    item.findings.to_multiset_ensures();
    assert(fs.len() == item.findings.len());
    if item.findings.len() == 1 {
        assert(fs.to_multiset().count(fs[0]) > 0);
        assert(item.findings.contains(fs[0]));
        assert(fs[0] == item.findings[0]);
    }
}

} // verus!
