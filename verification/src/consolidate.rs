//! Consolidation: from the findings on hunks to items that are ready to be
//! shown, grouped by line range.
//!
//! 1. Findings that are exactly equal collapse into one, which keeps the
//!    locations of all.
//! 2. Findings on the same side of the same file whose lines overlap collapse
//!    into one item.
//! 3. A model may say which items describe the same change at different places
//!    of a file; their findings are put together in one item.
use vstd::prelude::*;

use crate::classify;
use crate::classify::{Finding, FindingView, HunkFindings, HunkFindingsView, Level, Side};
use crate::diff::{HunkId, LineRange};
use crate::order;
use crate::path;
use crate::text;

pub use crate::merge::{
    answer_fault, apply_groups, consolidate_llm, consolidation_request, parse_consolidation_response, Group,
};

verus! {

/// A place in the diff that an item points at.
#[derive(Debug)]
pub struct Location {
    pub hunk_id: HunkId,
    pub new_range: LineRange,
    pub old_range: LineRange,
}

#[verifier::ext_equal]
pub struct LocationView {
    pub hunk_id: Seq<char>,
    pub new_range: LineRange,
    pub old_range: LineRange,
}

impl View for Location {
    type V = LocationView;

    open spec fn view(&self) -> LocationView {
        LocationView {
            hunk_id: self.hunk_id@,
            new_range: self.new_range,
            old_range: self.old_range,
        }
    }
}

impl Clone for Location {
    fn clone(&self) -> (r: Self)
        ensures
            r@ == self@,
    {
        Location {
            hunk_id: self.hunk_id.clone(),
            new_range: self.new_range,
            old_range: self.old_range,
        }
    }
}

/// Lines from `start` to `end`, both among them.
#[derive(Clone, Copy, Debug, PartialEq, Eq, Structural)]
pub struct InclusiveLineRange {
    pub start: u32,
    pub end: u32,
}

/// Two ranges share a line.
pub open spec fn overlap(a: InclusiveLineRange, b: InclusiveLineRange) -> bool {
    a.start <= b.end && b.start <= a.end
}

/// One range lies inside another.
pub open spec fn within(a: InclusiveLineRange, b: InclusiveLineRange) -> bool {
    b.start <= a.start && a.end <= b.end
}

impl InclusiveLineRange {
    /// Whether the two ranges share a line.
    pub fn overlaps(self, other: Self) -> (r: bool)
        ensures
            r == overlap(self, other),
    {
        self.start <= other.end && other.start <= self.end
    }
}

/// What is shown as a unit: findings on lines that overlap, on one side of one
/// file.
#[derive(Debug)]
pub struct Item {
    pub file_path: String,
    pub side: Side,
    pub range: InclusiveLineRange,
    pub locations: Vec<Location>,
    pub findings: Vec<Finding>,
}

#[verifier::ext_equal]
pub struct ItemView {
    pub file_path: Seq<char>,
    pub side: Side,
    pub range: InclusiveLineRange,
    pub locations: Seq<LocationView>,
    pub findings: Seq<FindingView>,
}

impl View for Item {
    type V = ItemView;

    open spec fn view(&self) -> ItemView {
        ItemView {
            file_path: self.file_path@,
            side: self.side,
            range: self.range,
            locations: text::views(self.locations@),
            findings: text::views(self.findings@),
        }
    }
}

fn clone_locations(v: &Vec<Location>) -> (r: Vec<Location>)
    ensures
        text::views(r@) == text::views(v@),
{
    let ghost all = text::views(v@);
    let mut out: Vec<Location> = Vec::new();
    let mut i: usize = 0;
    while i < v.len()
        invariant
            i <= v.len(),
            all == text::views(v@),
            text::views(out@) == all.take(i as int),
        decreases v.len() - i,
    {
        let ghost before = out@;
        let x: Location = v[i].clone();
        out.push(x);
        proof {
            text::lemma_views_push(before, x);
            assert(all.take(i + 1) =~= all.take(i as int).push(x@));
        }
        i = i + 1;
    }
    assert(all.take(i as int) =~= all);
    out
}

pub(crate) fn clone_findings(v: &Vec<Finding>) -> (r: Vec<Finding>)
    ensures
        text::views(r@) == text::views(v@),
{
    let ghost all = text::views(v@);
    let mut out: Vec<Finding> = Vec::new();
    let mut i: usize = 0;
    while i < v.len()
        invariant
            i <= v.len(),
            all == text::views(v@),
            text::views(out@) == all.take(i as int),
        decreases v.len() - i,
    {
        let ghost before = out@;
        let x: Finding = v[i].clone();
        out.push(x);
        proof {
            text::lemma_views_push(before, x);
            assert(all.take(i + 1) =~= all.take(i as int).push(x@));
        }
        i = i + 1;
    }
    assert(all.take(i as int) =~= all);
    out
}

impl Clone for Item {
    fn clone(&self) -> (r: Self)
        ensures
            r@ == self@,
    {
        Item {
            file_path: self.file_path.clone(),
            side: self.side,
            range: self.range,
            locations: clone_locations(&self.locations),
            findings: clone_findings(&self.findings),
        }
    }
}

/// The highest level among findings; `Skim` where there are none.
pub open spec fn top_level(fs: Seq<FindingView>) -> Level
    decreases fs.len(),
{
    if fs.len() == 0 {
        Level::Skim
    } else if fs.len() == 1 {
        fs[0].level
    } else {
        classify::higher(top_level(fs.drop_last()), fs.last().level)
    }
}

pub(crate) fn highest_level(findings: &Vec<Finding>) -> (r: Level)
    ensures
        r == top_level(text::views(findings@)),
{
    if findings.len() == 0 {
        return Level::Skim;
    }
    let ghost fs = text::views(findings@);
    let mut level: Level = findings[0].level;
    let mut i: usize = 1;
    assert(fs.take(1).len() == 1 && fs.take(1)[0] == fs[0]);
    while i < findings.len()
        invariant
            1 <= i <= findings.len(),
            fs == text::views(findings@),
            level == top_level(fs.take(i as int)),
        decreases findings.len() - i,
    {
        level = level.max(findings[i].level);
        assert(fs.take(i + 1).drop_last() == fs.take(i as int));
        i = i + 1;
    }
    assert(fs.take(i as int) == fs);
    level
}

impl Item {
    /// The highest level of the findings.
    pub fn level(&self) -> (r: Level)
        ensures
            r == top_level(self@.findings),
    {
        highest_level(&self.findings)
    }

    /// The first finding of the highest level; `None` where there are no
    /// findings.
    pub fn headline_finding(&self) -> (r: Option<&Finding>)
        ensures
            match r {
                None => self@.findings.len() == 0,
                Some(f) => exists|i: int|
                    0 <= i < self@.findings.len() && #[trigger] self@.findings[i] == f@ && f@.level
                        == top_level(self@.findings) && forall|j: int|
                        0 <= j < i ==> (#[trigger] self@.findings[j]).level != top_level(
                            self@.findings,
                        ),
            },
    {
        let level: Level = self.level();
        let ghost fs = self@.findings;
        let mut i: usize = 0;
        while i < self.findings.len()
            invariant
                i <= self.findings.len(),
                fs == text::views(self.findings@),
                fs == self@.findings,
                level == top_level(fs),
                forall|j: int| 0 <= j < i ==> (#[trigger] fs[j]).level != level,
            decreases self.findings.len() - i,
        {
            if self.findings[i].level == level {
                assert(fs[i as int] == self.findings@[i as int]@);
                return Some(&self.findings[i]);
            }
            assert(fs[i as int].level != level);
            i = i + 1;
        }
        proof {
            if fs.len() > 0 {
                lemma_top_level_occurs(fs);
            }
        }
        None
    }
}

/// The highest level is that of a finding, and no finding is above it.
pub proof fn lemma_top_level_occurs(fs: Seq<FindingView>)
    requires
        fs.len() > 0,
    ensures
        exists|i: int| 0 <= i < fs.len() && (#[trigger] fs[i]).level == top_level(fs),
        forall|i: int|
            0 <= i < fs.len() ==> classify::rank((#[trigger] fs[i]).level) <= classify::rank(
                top_level(fs),
            ),
    decreases fs.len(),
{
    if fs.len() == 1 {
        assert(fs[0].level == top_level(fs));
    } else {
        let shorter = fs.drop_last();
        lemma_top_level_occurs(shorter);
        let k = choose|k: int| 0 <= k < shorter.len() && (#[trigger] shorter[k]).level
            == top_level(shorter);
        assert(fs[k] == shorter[k]);
        assert(fs[fs.len() - 1] == fs.last());
        assert forall|i: int| 0 <= i < fs.len() implies classify::rank(
            (#[trigger] fs[i]).level,
        ) <= classify::rank(top_level(fs)) by {
            if i < shorter.len() {
                assert(shorter[i] == fs[i]);
            }
        }
    }
}


// --- equal findings ------------------------------------------------------

/// A finding with the places it was made at.
struct Entry {
    file_path: String,
    primary: Location,
    /// The places of equal findings that were collapsed into this one.
    merged: Vec<Location>,
    finding: Finding,
}

#[verifier::ext_equal]
pub struct EntryView {
    pub file_path: Seq<char>,
    pub primary: LocationView,
    pub merged: Seq<LocationView>,
    pub finding: FindingView,
}

impl View for Entry {
    type V = EntryView;

    closed spec fn view(&self) -> EntryView {
        EntryView {
            file_path: self.file_path@,
            primary: self.primary@,
            merged: text::views(self.merged@),
            finding: self.finding@,
        }
    }
}

/// The finding `f` on a hunk, with the hunk as its place.
pub open spec fn entry_of(hunk: HunkFindingsView, f: FindingView) -> EntryView {
    EntryView {
        file_path: hunk.file_path,
        primary: LocationView {
            hunk_id: hunk.hunk_id,
            new_range: hunk.new_range,
            old_range: hunk.old_range,
        },
        merged: Seq::empty(),
        finding: f,
    }
}

/// The entries of one hunk.
pub open spec fn hunk_entries(hunk: HunkFindingsView) -> Seq<EntryView> {
    hunk.findings.map_values(|f: FindingView| entry_of(hunk, f))
}

/// The findings on all hunks, each with its place.
pub open spec fn flattened(input: Seq<HunkFindingsView>) -> Seq<EntryView>
    decreases input.len(),
{
    if input.len() == 0 {
        Seq::empty()
    } else {
        flattened(input.drop_last()) + hunk_entries(input.last())
    }
}

/// Two findings are exactly equal: same file, lines, level, category and
/// rationale. The hunks they are on do not matter.
pub open spec fn exact_match(a: EntryView, b: EntryView) -> bool {
    &&& path::parts_of(a.file_path) == path::parts_of(b.file_path)
    &&& a.finding.level == b.finding.level
    &&& a.finding.category == b.finding.category
    &&& a.finding.rationale == b.finding.rationale
    &&& a.finding.focus_lines == b.finding.focus_lines
}

/// How many entries stand before the first that equals `e`.
pub open spec fn match_index(kept: Seq<EntryView>, e: EntryView) -> nat
    decreases kept.len(),
{
    if kept.len() == 0 || exact_match(kept[0], e) {
        0
    } else {
        1 + match_index(kept.drop_first(), e)
    }
}

/// The entry with the place of an equal one added.
pub open spec fn with_place(e: EntryView, place: LocationView) -> EntryView {
    EntryView { merged: e.merged.push(place), ..e }
}

/// The entries after one more: it is collapsed into the first that equals it,
/// or added at the end.
pub open spec fn absorbed(kept: Seq<EntryView>, e: EntryView) -> Seq<EntryView> {
    let i: int = match_index(kept, e) as int;
    if i < kept.len() {
        kept.update(i, with_place(kept[i], e.primary))
    } else {
        kept.push(e)
    }
}

/// The entries with equal ones collapsed.
pub open spec fn deduped(flat: Seq<EntryView>) -> Seq<EntryView>
    decreases flat.len(),
{
    if flat.len() == 0 {
        Seq::empty()
    } else {
        absorbed(deduped(flat.drop_last()), flat.last())
    }
}

proof fn lemma_match_index(kept: Seq<EntryView>, e: EntryView, n: int)
    requires
        0 <= n <= kept.len(),
        forall|k: int| 0 <= k < n ==> !exact_match(#[trigger] kept[k], e),
        n < kept.len() ==> exact_match(kept[n], e),
    ensures
        match_index(kept, e) == n,
    decreases n,
{
    if n > 0 {
        assert(!exact_match(kept[0], e));
        let rest = kept.drop_first();
        assert forall|k: int| 0 <= k < n - 1 implies !exact_match(#[trigger] rest[k], e) by {
            assert(!exact_match(kept[k + 1], e));
        }
        lemma_match_index(rest, e, n - 1);
    }
}

proof fn lemma_match_index_is(kept: Seq<EntryView>, e: EntryView)
    ensures
        match_index(kept, e) <= kept.len(),
        forall|k: int| 0 <= k < match_index(kept, e) ==> !exact_match(#[trigger] kept[k], e),
        match_index(kept, e) < kept.len() ==> exact_match(kept[match_index(kept, e) as int], e),
    decreases kept.len(),
{
    if kept.len() > 0 && !exact_match(kept[0], e) {
        lemma_match_index_is(kept.drop_first(), e);
        assert forall|k: int| 0 <= k < match_index(kept, e) implies !exact_match(
            #[trigger] kept[k],
            e,
        ) by {
            if k > 0 {
                assert(kept[k] == kept.drop_first()[k - 1]);
            }
        }
    }
}

fn flatten(input: Vec<HunkFindings>) -> (r: Vec<Entry>)
    ensures
        text::views(r@) == flattened(text::views(input@)),
{
    let ghost all = text::views(input@);
    let mut out: Vec<Entry> = Vec::new();
    let mut i: usize = 0;
    assert(text::views(out@) =~= flattened(all.take(0)));
    while i < input.len()
        invariant
            i <= input.len(),
            all == text::views(input@),
            text::views(out@) == flattened(all.take(i as int)),
        decreases input.len() - i,
    {
        let hunk: &HunkFindings = &input[i];
        let ghost base = text::views(out@);
        let ghost added = hunk_entries(hunk@);
        let mut j: usize = 0;
        assert(base + added.take(0) =~= base);
        while j < hunk.findings.len()
            invariant
                j <= hunk.findings.len(),
                added == hunk_entries(hunk@),
                text::views(out@) == base + added.take(j as int),
            decreases hunk.findings.len() - j,
        {
            let ghost before = out@;
            let e = Entry {
                file_path: hunk.file_path.clone(),
                primary: Location {
                    hunk_id: hunk.hunk_id.clone(),
                    new_range: hunk.new_range,
                    old_range: hunk.old_range,
                },
                merged: Vec::new(),
                finding: hunk.findings[j].clone(),
            };
            assert(e@.merged =~= Seq::<LocationView>::empty());
            assert(e@ == added[j as int]);
            out.push(e);
            proof {
                text::lemma_views_push(before, e);
                assert(base + added.take(j + 1) =~= (base + added.take(j as int)).push(e@));
            }
            j = j + 1;
        }
        assert(added.take(j as int) =~= added);
        assert(all.take(i + 1).drop_last() == all.take(i as int));
        assert(all.take(i + 1).last() == hunk@);
        i = i + 1;
    }
    assert(all.take(i as int) == all);
    out
}

impl Entry {
    fn matches_exactly(&self, other: &Entry) -> (r: bool)
        ensures
            r == exact_match(self@, other@),
    {
        if self.finding.level != other.finding.level || self.finding.category
            != other.finding.category {
            return false;
        }
        if !path::same(self.file_path.as_str(), other.file_path.as_str()) || !text::str_same(
            self.finding.rationale.as_str(),
            other.finding.rationale.as_str(),
        ) {
            return false;
        }
        match (&self.finding.focus_lines, &other.finding.focus_lines) {
            (Some(f), Some(g)) => *f == *g,
            (None, None) => true,
            _ => false,
        }
    }

    fn add_place(&mut self, place: Location)
        ensures
            final(self)@ == with_place(old(self)@, place@),
    {
        let ghost before = self.merged@;
        self.merged.push(place);
        proof {
            text::lemma_views_push(before, place);
        }
    }
}

fn dedup(flat: Vec<Entry>) -> (r: Vec<Entry>)
    ensures
        text::views(r@) == deduped(text::views(flat@)),
{
    let ghost all = text::views(flat@);
    let mut kept: Vec<Entry> = Vec::new();
    let mut rest: Vec<Entry> = flat;
    let ghost mut done: int = 0;
    assert(text::views(kept@) =~= deduped(all.take(0)));
    assert(all.skip(0) == all);
    while rest.len() > 0
        invariant
            0 <= done <= all.len(),
            text::views(rest@) == all.skip(done),
            text::views(kept@) == deduped(all.take(done)),
        decreases rest.len(),
    {
        let ghost rest_before = rest@;
        let e: Entry = rest.remove(0);
        proof {
            assert(all.skip(done)[0] == e@);
            assert(text::views(rest@) =~= text::views(rest_before).skip(1));
            assert(all.skip(done).skip(1) =~= all.skip(done + 1));
            assert(all.take(done + 1).drop_last() == all.take(done));
            assert(all.take(done + 1).last() == e@);
        }
        let ghost ks = text::views(kept@);
        let mut i: usize = 0;
        while i < kept.len() && !kept[i].matches_exactly(&e)
            invariant
                i <= kept.len(),
                ks == text::views(kept@),
                forall|k: int| 0 <= k < i ==> !exact_match(#[trigger] ks[k], e@),
            decreases kept.len() - i,
        {
            assert(ks[i as int] == kept@[i as int]@);
            i = i + 1;
        }
        proof {
            assert(i < ks.len() ==> ks[i as int] == kept@[i as int]@);
            lemma_match_index(ks, e@, i as int);
        }
        if i < kept.len() {
            kept[i].add_place(e.primary);
            assert(text::views(kept@) =~= ks.update(i as int, kept@[i as int]@));
        } else {
            let ghost before = kept@;
            kept.push(e);
            proof {
                text::lemma_views_push(before, e);
            }
        }
        proof {
            done = done + 1;
        }
    }
    assert(all.take(done) == all);
    kept
}

// --- overlapping lines ---------------------------------------------------

/// The lines of a finding can be numbered. One without lines of its own takes
/// those of its hunk.
pub open spec fn entry_fits(e: EntryView) -> bool {
    e.finding.focus_lines is None ==> e.primary.new_range.start + e.primary.new_range.count
        <= u32::MAX + 1
}

/// The lines of a finding and their side: its own, or those of its hunk in the
/// new file.
pub open spec fn effective_range(e: EntryView) -> (InclusiveLineRange, Side) {
    match e.finding.focus_lines {
        Some(f) => (
            InclusiveLineRange {
                start: f.start,
                end: if f.end >= f.start {
                    f.end
                } else {
                    f.start
                },
            },
            f.side,
        ),
        None => {
            let r = e.primary.new_range;
            (
                InclusiveLineRange {
                    start: r.start,
                    end: if r.count == 0 {
                        r.start
                    } else {
                        (r.start + r.count - 1) as u32
                    },
                },
                Side::New,
            )
        },
    }
}

pub open spec fn side_rank(s: Side) -> int {
    match s {
        Side::Old => 0,
        Side::New => 1,
    }
}

/// The order in which findings are grouped: by file, side, first and last
/// line.
pub open spec fn entry_le(a: EntryView, b: EntryView) -> bool {
    let p = path::parts_of(a.file_path);
    let q = path::parts_of(b.file_path);
    let (r, s) = effective_range(a);
    let (t, u) = effective_range(b);
    if p != q {
        path::precedes(p, q)
    } else if s != u {
        side_rank(s) < side_rank(u)
    } else if r.start != t.start {
        r.start < t.start
    } else {
        r.end <= t.end
    }
}

/// The place is not yet among the locations.
pub open spec fn new_place(locations: Seq<LocationView>, id: Seq<char>) -> bool {
    forall|i: int| 0 <= i < locations.len() ==> (#[trigger] locations[i]).hunk_id != id
}

/// The locations with one more, unless its hunk is among them.
pub open spec fn with_location(
    locations: Seq<LocationView>,
    place: LocationView,
) -> Seq<LocationView> {
    if new_place(locations, place.hunk_id) {
        locations.push(place)
    } else {
        locations
    }
}

/// The locations with more of them, each hunk once.
pub open spec fn with_locations(
    locations: Seq<LocationView>,
    places: Seq<LocationView>,
) -> Seq<LocationView>
    decreases places.len(),
{
    if places.len() == 0 {
        locations
    } else {
        with_location(with_locations(locations, places.drop_last()), places.last())
    }
}

/// The places of an entry.
pub open spec fn places_of(e: EntryView) -> Seq<LocationView> {
    seq![e.primary] + e.merged
}

/// The item with the finding of an entry added, its lines as they are.
pub open spec fn with_finding(item: ItemView, e: EntryView) -> ItemView {
    ItemView {
        locations: with_locations(item.locations, places_of(e)),
        findings: item.findings.push(e.finding),
        ..item
    }
}

/// The item that an entry begins.
pub open spec fn item_of(e: EntryView) -> ItemView {
    with_finding(
        ItemView {
            file_path: e.file_path,
            side: effective_range(e).1,
            range: effective_range(e).0,
            locations: Seq::empty(),
            findings: Seq::empty(),
        },
        e,
    )
}

/// An entry belongs to an item: same file, same side, and a line in common.
pub open spec fn extends(item: ItemView, e: EntryView) -> bool {
    &&& path::parts_of(item.file_path) == path::parts_of(e.file_path)
    &&& item.side == effective_range(e).1
    &&& overlap(item.range, effective_range(e).0)
}

/// The item with an entry that belongs to it.
pub open spec fn extended(item: ItemView, e: EntryView) -> ItemView {
    let end = effective_range(e).0.end;
    with_finding(
        ItemView {
            range: InclusiveLineRange {
                start: item.range.start,
                end: if end > item.range.end {
                    end
                } else {
                    item.range.end
                },
            },
            ..item
        },
        e,
    )
}

/// The items of these entries: each entry goes to the last item, where it
/// belongs to it, or begins a new one.
pub open spec fn swept(entries: Seq<EntryView>) -> Seq<ItemView>
    decreases entries.len(),
{
    if entries.len() == 0 {
        Seq::empty()
    } else {
        let items = swept(entries.drop_last());
        let e = entries.last();
        if items.len() > 0 && extends(items.last(), e) {
            items.drop_last().push(extended(items.last(), e))
        } else {
            items.push(item_of(e))
        }
    }
}

/// The entries in the order in which they are grouped.
pub open spec fn arranged(entries: Seq<EntryView>) -> Seq<EntryView> {
    order::stable_sort(entries, |a: EntryView, b: EntryView| entry_le(a, b))
}

/// The items that the findings on hunks make up.
pub open spec fn items_of(input: Seq<HunkFindingsView>) -> Seq<ItemView> {
    swept(arranged(deduped(flattened(input))))
}

/// Where the lines of every finding can be numbered.
pub open spec fn input_fits(input: Seq<HunkFindingsView>) -> bool {
    let entries = deduped(flattened(input));
    forall|i: int| 0 <= i < entries.len() ==> entry_fits(#[trigger] entries[i])
}

impl Entry {
    fn lines(&self) -> (r: (InclusiveLineRange, Side))
        ensures
            r == effective_range(self@),
    {
        match &self.finding.focus_lines {
            Some(f) => {
                let end: u32 = if f.end >= f.start {
                    f.end
                } else {
                    f.start
                };
                (InclusiveLineRange { start: f.start, end }, f.side)
            },
            None => {
                let start: u32 = self.primary.new_range.start;
                let count: u32 = self.primary.new_range.count;
                let end: u32 = if count == 0 {
                    start
                } else {
                    #[verifier::truncate]
                    ((start as u64 + count as u64 - 1) as u32)
                };
                (InclusiveLineRange { start, end }, Side::New)
            },
        }
    }
}

impl order::Sortable for Entry {
    closed spec fn le(&self, other: &Self) -> bool {
        entry_le(self@, other@)
    }

    fn at_most(&self, other: &Self) -> (r: bool) {
        if !path::same(self.file_path.as_str(), other.file_path.as_str()) {
            return path::comes_before(self.file_path.as_str(), other.file_path.as_str());
        }
        let (r, s): (InclusiveLineRange, Side) = self.lines();
        let (t, u): (InclusiveLineRange, Side) = other.lines();
        if s != u {
            s == Side::Old
        } else if r.start != t.start {
            r.start < t.start
        } else {
            r.end <= t.end
        }
    }
}

fn arrange(entries: Vec<Entry>) -> (r: Vec<Entry>)
    ensures
        text::views(r@) == arranged(text::views(entries@)),
{
    let ghost all = entries@;
    let r: Vec<Entry> = order::sort(entries);
    proof {
        let f = |e: Entry| e@;
        let le = order::natural::<Entry>();
        let le2 = |a: EntryView, b: EntryView| entry_le(a, b);
        assert forall|a: Entry, b: Entry| #[trigger] le(a, b) == le2(f(a), f(b)) by {}
        order::lemma_sort_map(all, f, le, le2);
        assert(all.map_values(f) =~= text::views(all));
        assert(r@.map_values(f) =~= text::views(r@));
    }
    r
}

fn has_hunk(locations: &Vec<Location>, id: &HunkId) -> (r: bool)
    ensures
        r == !new_place(text::views(locations@), id@),
{
    let ghost ls = text::views(locations@);
    let mut i: usize = 0;
    while i < locations.len()
        invariant
            i <= locations.len(),
            ls == text::views(locations@),
            forall|k: int| 0 <= k < i ==> (#[trigger] ls[k]).hunk_id != id@,
        decreases locations.len() - i,
    {
        if locations[i].hunk_id.same(id) {
            assert(ls[i as int].hunk_id == id@);
            return true;
        }
        assert(ls[i as int].hunk_id != id@);
        i = i + 1;
    }
    false
}

fn add_location(locations: &mut Vec<Location>, place: &Location)
    ensures
        text::views(final(locations)@) == with_location(text::views(old(locations)@), place@),
{
    if !has_hunk(locations, &place.hunk_id) {
        let ghost before = locations@;
        let l: Location = place.clone();
        locations.push(l);
        proof {
            text::lemma_views_push(before, l);
        }
    }
}

pub(crate) fn add_locations(locations: &mut Vec<Location>, places: &Vec<Location>)
    ensures
        text::views(final(locations)@) == with_locations(
            text::views(old(locations)@),
            text::views(places@),
        ),
{
    let ghost start = text::views(locations@);
    let ghost ps = text::views(places@);
    let mut i: usize = 0;
    assert(ps.take(0) =~= Seq::<LocationView>::empty());
    while i < places.len()
        invariant
            i <= places.len(),
            ps == text::views(places@),
            text::views(locations@) == with_locations(start, ps.take(i as int)),
        decreases places.len() - i,
    {
        add_location(locations, &places[i]);
        assert(ps.take(i + 1).drop_last() == ps.take(i as int));
        assert(ps.take(i + 1).last() == places@[i as int]@);
        i = i + 1;
    }
    assert(ps.take(i as int) == ps);
}

proof fn lemma_with_locations_cons(
    locations: Seq<LocationView>,
    place: LocationView,
    places: Seq<LocationView>,
)
    ensures
        with_locations(locations, seq![place] + places) == with_locations(
            with_location(locations, place),
            places,
        ),
    decreases places.len(),
{
    let all = seq![place] + places;
    if places.len() == 0 {
        assert(all.drop_last() =~= Seq::<LocationView>::empty());
        assert(with_locations(locations, all.drop_last()) == locations);
    } else {
        lemma_with_locations_cons(locations, place, places.drop_last());
        assert(all.drop_last() =~= seq![place] + places.drop_last());
    }
}

impl Item {
    fn add_entry(&mut self, e: Entry)
        ensures
            final(self)@ == with_finding(old(self)@, e@),
    {
        let ghost start = text::views(self.locations@);
        let ghost before = self.findings@;
        add_location(&mut self.locations, &e.primary);
        add_locations(&mut self.locations, &e.merged);
        proof {
            lemma_with_locations_cons(start, e.primary@, text::views(e.merged@));
            text::lemma_views_push(before, e.finding);
        }
        self.findings.push(e.finding);
    }
}

fn sweep(entries: Vec<Entry>) -> (r: Vec<Item>)
    ensures
        text::views(r@) == swept(text::views(entries@)),
{
    let ghost all = text::views(entries@);
    let mut items: Vec<Item> = Vec::new();
    let mut rest: Vec<Entry> = entries;
    let ghost mut done: int = 0;
    assert(text::views(items@) =~= swept(all.take(0)));
    assert(all.skip(0) == all);
    while rest.len() > 0
        invariant
            0 <= done <= all.len(),
            text::views(rest@) == all.skip(done),
            text::views(items@) == swept(all.take(done)),
        decreases rest.len(),
    {
        let ghost rest_before = rest@;
        let e: Entry = rest.remove(0);
        proof {
            assert(all.skip(done)[0] == e@);
            assert(text::views(rest@) =~= text::views(rest_before).skip(1));
            assert(all.skip(done).skip(1) =~= all.skip(done + 1));
            assert(all.take(done + 1).drop_last() == all.take(done));
            assert(all.take(done + 1).last() == e@);
        }
        let (range, side): (InclusiveLineRange, Side) = e.lines();
        let ghost before = text::views(items@);
        let n: usize = items.len();
        let belongs: bool = if n > 0 {
            let last: &Item = &items[n - 1];
            assert(before.last() == last@);
            path::same(last.file_path.as_str(), e.file_path.as_str()) && last.side == side
                && last.range.overlaps(range)
        } else {
            false
        };
        let ghost entry = e@;
        if belongs {
            let mut item: Item = items.pop().unwrap();
            if range.end > item.range.end {
                item.range = InclusiveLineRange { start: item.range.start, end: range.end };
            }
            item.add_entry(e);
            assert(text::views(items@) =~= before.drop_last());
            let ghost shorter = items@;
            items.push(item);
            proof {
                text::lemma_views_push(shorter, item);
                assert(item@ == extended(before.last(), entry));
            }
        } else {
            let mut item = Item {
                file_path: e.file_path.clone(),
                side,
                range,
                locations: Vec::new(),
                findings: Vec::new(),
            };
            assert(item@.locations =~= Seq::<LocationView>::empty());
            assert(item@.findings =~= Seq::<FindingView>::empty());
            item.add_entry(e);
            let ghost shorter = items@;
            items.push(item);
            proof {
                text::lemma_views_push(shorter, item);
                assert(item@ == item_of(entry));
            }
        }
        proof {
            done = done + 1;
        }
    }
    assert(all.take(done) == all);
    items
}

/// Collapses equal findings, and groups findings whose lines overlap into
/// items.
pub fn consolidate_exact(input: Vec<HunkFindings>) -> (r: Vec<Item>)
    requires
        input_fits(text::views(input@)),
    ensures
        text::views(r@) == items_of(text::views(input@)),
{
    sweep(arrange(dedup(flatten(input))))
}

fn all_fit(entries: &Vec<Entry>) -> (r: bool)
    ensures
        r == (forall|i: int|
            0 <= i < text::views(entries@).len() ==> entry_fits(
                #[trigger] text::views(entries@)[i],
            )),
{
    let ghost all = text::views(entries@);
    let mut i: usize = 0;
    while i < entries.len()
        invariant
            i <= entries.len(),
            all == text::views(entries@),
            forall|k: int| 0 <= k < i ==> entry_fits(#[trigger] all[k]),
        decreases entries.len() - i,
    {
        assert(all[i as int] == entries@[i as int]@);
        let range: LineRange = entries[i].primary.new_range;
        if entries[i].finding.focus_lines.is_none() && range.start as u64 + range.count as u64
            > u32::MAX as u64 + 1 {
            assert(!entry_fits(text::views(entries@)[i as int]));
            return false;
        }
        i = i + 1;
    }
    true
}

/// Collapses and groups findings like `consolidate_exact`; `None` where the
/// lines of one cannot be numbered.
pub fn checked_consolidate(input: Vec<HunkFindings>) -> (r: Option<Vec<Item>>)
    ensures
        match r {
            Some(items) => input_fits(text::views(input@)) && text::views(items@) == items_of(
                text::views(input@),
            ),
            None => !input_fits(text::views(input@)),
        },
{
    let entries: Vec<Entry> = dedup(flatten(input));
    if all_fit(&entries) {
        Some(sweep(arrange(entries)))
    } else {
        None
    }
}


// --- laws of grouping ----------------------------------------------------

/// Overlap is symmetric, and a range with a line overlaps itself.
pub proof fn law_overlap(a: InclusiveLineRange, b: InclusiveLineRange)
    ensures
        overlap(a, b) == overlap(b, a),
        a.start <= a.end ==> overlap(a, a),
{
}

/// An item stands on the same side of the same file as another.
pub open spec fn same_group(a: ItemView, b: ItemView) -> bool {
    path::parts_of(a.file_path) == path::parts_of(b.file_path) && a.side == b.side
}

spec fn group_before(a: ItemView, b: ItemView) -> bool {
    let p = path::parts_of(a.file_path);
    let q = path::parts_of(b.file_path);
    if p != q {
        path::precedes(p, q)
    } else {
        side_rank(a.side) < side_rank(b.side)
    }
}

spec fn separated(a: ItemView, b: ItemView) -> bool {
    group_before(a, b) || (same_group(a, b) && a.range.end < b.range.start)
}

proof fn lemma_separated_transitive(a: ItemView, b: ItemView, c: ItemView)
    requires
        separated(a, b),
        separated(b, c),
        b.range.start <= b.range.end,
    ensures
        separated(a, c),
{
    let p = path::parts_of(a.file_path);
    let q = path::parts_of(b.file_path);
    let r = path::parts_of(c.file_path);
    path::lemma_precedes_total(p, q);
    path::lemma_precedes_total(q, r);
    path::lemma_precedes_total(p, r);
    path::lemma_precedes_total(p, p);
    if p != q && q != r {
        path::lemma_precedes_transitive(p, q, r);
    }
}

/// The order of grouping is total and transitive.
pub proof fn lemma_entry_order()
    ensures
        order::total_preorder(|a: EntryView, b: EntryView| entry_le(a, b)),
{
    let le = |a: EntryView, b: EntryView| entry_le(a, b);
    assert forall|a: EntryView, b: EntryView| #[trigger] le(a, b) || le(b, a) by {
        path::lemma_precedes_total(path::parts_of(a.file_path), path::parts_of(b.file_path));
    }
    assert forall|a: EntryView, b: EntryView, c: EntryView| #[trigger]
        le(a, b) && #[trigger] le(b, c) implies le(a, c) by {
        let p = path::parts_of(a.file_path);
        let q = path::parts_of(b.file_path);
        let r = path::parts_of(c.file_path);
        path::lemma_precedes_total(p, q);
        path::lemma_precedes_total(q, r);
        path::lemma_precedes_total(p, r);
        if p != q && q != r {
            path::lemma_precedes_transitive(p, q, r);
        }
    }
}

/// What holds of the items of sorted entries.
spec fn items_apart(items: Seq<ItemView>) -> bool {
    &&& forall|i: int, j: int|
        0 <= i < j < items.len() ==> separated(#[trigger] items[i], #[trigger] items[j])
    &&& forall|i: int|
        0 <= i < items.len() ==> (#[trigger] items[i]).range.start <= items[i].range.end
}

proof fn lemma_swept_apart(entries: Seq<EntryView>)
    requires
        order::is_sorted(entries, |a: EntryView, b: EntryView| entry_le(a, b)),
        forall|i: int| 0 <= i < entries.len() ==> entry_fits(#[trigger] entries[i]),
    ensures
        items_apart(swept(entries)),
        entries.len() > 0 ==> swept(entries).len() > 0 && same_group(
            swept(entries).last(),
            item_of(entries.last()),
        ) && swept(entries).last().range.start <= effective_range(entries.last()).0.start,
    decreases entries.len(),
{
    if entries.len() > 0 {
        let le = |a: EntryView, b: EntryView| entry_le(a, b);
        let shorter = entries.drop_last();
        let e = entries.last();
        assert(order::is_sorted(shorter, le)) by {
            assert forall|i: int, j: int| 0 <= i < j < shorter.len() implies le(
                #[trigger] shorter[i],
                #[trigger] shorter[j],
            ) by {
                assert(le(entries[i], entries[j]));
            }
        }
        assert forall|i: int| 0 <= i < shorter.len() implies entry_fits(
            #[trigger] shorter[i],
        ) by {
            assert(entry_fits(entries[i]));
        }
        lemma_swept_apart(shorter);
        let items = swept(shorter);
        let out = swept(entries);
        assert(entry_fits(entries[entries.len() - 1]));
        assert(effective_range(e).0.start <= effective_range(e).0.end);
        if shorter.len() == 0 {
            assert(out =~= seq![item_of(e)]);
        } else {
            let prev = shorter.last();
            assert(le(entries[entries.len() - 2], entries[entries.len() - 1]));
            assert(entry_le(prev, e));
            let last = items.last();
            if extends(last, e) {
                let new = extended(last, e);
                assert forall|i: int, j: int| 0 <= i < j < out.len() implies separated(
                    #[trigger] out[i],
                    #[trigger] out[j],
                ) by {
                    assert(separated(items[i], items[j]));
                }
                assert forall|i: int| 0 <= i < out.len() implies (#[trigger] out[i]).range.start
                    <= out[i].range.end by {
                    assert(items[i].range.start <= items[i].range.end);
                }
            } else {
                let new = item_of(e);
                assert(items[items.len() - 1].range.start <= items[items.len() - 1].range.end);
                assert(separated(last, new)) by {
                    path::lemma_precedes_total(
                        path::parts_of(prev.file_path),
                        path::parts_of(e.file_path),
                    );
                }
                assert forall|i: int, j: int| 0 <= i < j < out.len() implies separated(
                    #[trigger] out[i],
                    #[trigger] out[j],
                ) by {
                    if j < items.len() {
                        assert(separated(items[i], items[j]));
                    } else if i < items.len() - 1 {
                        assert(separated(items[i], items[items.len() - 1]));
                        lemma_separated_transitive(items[i], last, new);
                    }
                }
                assert forall|i: int| 0 <= i < out.len() implies (#[trigger] out[i]).range.start
                    <= out[i].range.end by {
                    if i < items.len() {
                        assert(items[i].range.start <= items[i].range.end);
                    }
                }
            }
        }
    }
}

proof fn lemma_arranged_fits(entries: Seq<EntryView>)
    requires
        forall|i: int| 0 <= i < entries.len() ==> entry_fits(#[trigger] entries[i]),
    ensures
        forall|i: int|
            0 <= i < arranged(entries).len() ==> entry_fits(#[trigger] arranged(entries)[i]),
{
    let le = |a: EntryView, b: EntryView| entry_le(a, b);
    order::law_permutation(entries, le);
    let sorted = arranged(entries);
    assert forall|i: int| 0 <= i < sorted.len() implies entry_fits(#[trigger] sorted[i]) by {
        lemma_same_elements(sorted, entries, i);
    }
}

proof fn lemma_same_elements(a: Seq<EntryView>, b: Seq<EntryView>, i: int)
    requires
        a.to_multiset() == b.to_multiset(),
        0 <= i < a.len(),
    ensures
        b.contains(a[i]),
{
    a.to_multiset_ensures();
    b.to_multiset_ensures();
    assert(a.contains(a[i]));
    assert(a.to_multiset().count(a[i]) > 0);
}

/// No two items on the same side of the same file share a line, and every item
/// has a line.
pub proof fn law_items_do_not_overlap(input: Seq<HunkFindingsView>, i: int, j: int)
    requires
        input_fits(input),
        0 <= i < j < items_of(input).len(),
        same_group(items_of(input)[i], items_of(input)[j]),
    ensures
        !overlap(items_of(input)[i].range, items_of(input)[j].range),
        items_of(input)[i].range.start <= items_of(input)[i].range.end,
        items_of(input)[j].range.start <= items_of(input)[j].range.end,
{
    let le = |a: EntryView, b: EntryView| entry_le(a, b);
    let entries = deduped(flattened(input));
    lemma_entry_order();
    order::law_sorted(entries, le);
    lemma_arranged_fits(entries);
    lemma_swept_apart(arranged(entries));
    let items = items_of(input);
    assert(separated(items[i], items[j]));
}

/// An item stands before another: by its file, then by its side, the old one
/// first, and then by its lines.
pub open spec fn item_before(a: ItemView, b: ItemView) -> bool {
    let p = path::parts_of(a.file_path);
    let q = path::parts_of(b.file_path);
    if p != q {
        path::precedes(p, q)
    } else if a.side != b.side {
        a.side == Side::Old
    } else {
        a.range.start < b.range.start
    }
}

/// Every item has a line.
pub proof fn law_items_have_lines(input: Seq<HunkFindingsView>, i: int)
    requires
        input_fits(input),
        0 <= i < items_of(input).len(),
    ensures
        items_of(input)[i].range.start <= items_of(input)[i].range.end,
{
    let le = |a: EntryView, b: EntryView| entry_le(a, b);
    let entries = deduped(flattened(input));
    lemma_entry_order();
    order::law_sorted(entries, le);
    lemma_arranged_fits(entries);
    lemma_swept_apart(arranged(entries));
}

/// Items come by file, side and first line.
pub proof fn law_items_are_in_order(input: Seq<HunkFindingsView>, i: int, j: int)
    requires
        input_fits(input),
        0 <= i < j < items_of(input).len(),
    ensures
        item_before(items_of(input)[i], items_of(input)[j]),
{
    let le = |a: EntryView, b: EntryView| entry_le(a, b);
    let entries = deduped(flattened(input));
    lemma_entry_order();
    order::law_sorted(entries, le);
    lemma_arranged_fits(entries);
    lemma_swept_apart(arranged(entries));
    let items = items_of(input);
    assert(separated(items[i], items[j]));
    assert(items[i].range.start <= items[i].range.end);
}

/// Each hunk is among the locations once.
pub open spec fn places_unique(locations: Seq<LocationView>) -> bool {
    forall|i: int, j: int|
        0 <= i < j < locations.len() ==> (#[trigger] locations[i]).hunk_id != (
        #[trigger] locations[j]).hunk_id
}

proof fn lemma_with_location(locations: Seq<LocationView>, place: LocationView)
    ensures
        places_unique(locations) ==> places_unique(with_location(locations, place)),
        with_location(locations, place).len() >= locations.len(),
        !new_place(with_location(locations, place), place.hunk_id),
        forall|id: Seq<char>|
            !new_place(locations, id) ==> !#[trigger] new_place(
                with_location(locations, place),
                id,
            ),
{
    let out = with_location(locations, place);
    if new_place(locations, place.hunk_id) {
        assert(out[locations.len() as int].hunk_id == place.hunk_id);
        assert forall|id: Seq<char>| !new_place(locations, id) implies !#[trigger] new_place(
            out,
            id,
        ) by {
            let k = choose|k: int|
                0 <= k < locations.len() && (#[trigger] locations[k]).hunk_id == id;
            assert(out[k] == locations[k]);
        }
        if places_unique(locations) {
            assert forall|i: int, j: int| 0 <= i < j < out.len() implies (
            #[trigger] out[i]).hunk_id != (#[trigger] out[j]).hunk_id by {
                assert(out[i] == locations[i]);
                if j < locations.len() {
                    assert(out[j] == locations[j]);
                }
            }
        }
    }
}

pub proof fn lemma_with_locations(locations: Seq<LocationView>, places: Seq<LocationView>)
    ensures
        places_unique(locations) ==> places_unique(with_locations(locations, places)),
        with_locations(locations, places).len() >= locations.len(),
        forall|k: int|
            0 <= k < places.len() ==> !new_place(
                with_locations(locations, places),
                (#[trigger] places[k]).hunk_id,
            ),
        forall|id: Seq<char>|
            !new_place(locations, id) ==> !#[trigger] new_place(
                with_locations(locations, places),
                id,
            ),
    decreases places.len(),
{
    if places.len() > 0 {
        let shorter = places.drop_last();
        lemma_with_locations(locations, shorter);
        lemma_with_location(with_locations(locations, shorter), places.last());
        assert forall|k: int| 0 <= k < places.len() implies !new_place(
            with_locations(locations, places),
            (#[trigger] places[k]).hunk_id,
        ) by {
            if k < shorter.len() {
                assert(places[k] == shorter[k]);
            }
        }
    }
}

/// An item holds an entry: its finding, all its places, its file and side, and
/// its lines.
pub open spec fn holds(item: ItemView, e: EntryView) -> bool {
    &&& item.findings.contains(e.finding)
    &&& forall|k: int|
        0 <= k < places_of(e).len() ==> !new_place(
            item.locations,
            (#[trigger] places_of(e)[k]).hunk_id,
        )
    &&& path::parts_of(item.file_path) == path::parts_of(e.file_path)
    &&& item.side == effective_range(e).1
    &&& within(effective_range(e).0, item.range)
}

proof fn lemma_with_finding_holds(item: ItemView, e: EntryView, d: EntryView)
    requires
        holds(item, d),
    ensures
        holds(with_finding(item, e), d),
{
    lemma_with_locations(item.locations, places_of(e));
    let k = choose|k: int| 0 <= k < item.findings.len() && item.findings[k] == d.finding;
    assert(with_finding(item, e).findings[k] == d.finding);
}

/// Every entry is held by an item, and every item is sound: it has findings and
/// locations, and each hunk once.
spec fn items_sound(items: Seq<ItemView>) -> bool {
    forall|i: int|
        0 <= i < items.len() ==> item_sound(#[trigger] items[i])
}

pub open spec fn item_sound(item: ItemView) -> bool {
    &&& item.findings.len() > 0
    &&& item.locations.len() > 0
    &&& places_unique(item.locations)
}

proof fn lemma_with_finding_sound(item: ItemView, e: EntryView)
    requires
        places_unique(item.locations),
    ensures
        item_sound(with_finding(item, e)),
{
    lemma_with_locations(item.locations, places_of(e));
    let out = with_finding(item, e);
    assert(!new_place(out.locations, places_of(e)[0].hunk_id));
}

proof fn lemma_swept_holds(entries: Seq<EntryView>)
    requires
        order::is_sorted(entries, |a: EntryView, b: EntryView| entry_le(a, b)),
        forall|i: int| 0 <= i < entries.len() ==> entry_fits(#[trigger] entries[i]),
    ensures
        items_sound(swept(entries)),
        forall|k: int|
            0 <= k < entries.len() ==> exists|i: int|
                0 <= i < swept(entries).len() && holds(
                    #[trigger] swept(entries)[i],
                    #[trigger] entries[k],
                ),
    decreases entries.len(),
{
    if entries.len() > 0 {
        let le = |a: EntryView, b: EntryView| entry_le(a, b);
        let shorter = entries.drop_last();
        let e = entries.last();
        assert(order::is_sorted(shorter, le)) by {
            assert forall|i: int, j: int| 0 <= i < j < shorter.len() implies le(
                #[trigger] shorter[i],
                #[trigger] shorter[j],
            ) by {
                assert(le(entries[i], entries[j]));
            }
        }
        assert forall|i: int| 0 <= i < shorter.len() implies entry_fits(
            #[trigger] shorter[i],
        ) by {
            assert(entry_fits(entries[i]));
        }
        lemma_swept_holds(shorter);
        lemma_swept_apart(shorter);
        let items = swept(shorter);
        let out = swept(entries);
        let n = items.len() as int;
        let joins = items.len() > 0 && extends(items.last(), e);
        if joins {
            let last = items.last();
            assert(item_sound(items[n - 1]));
            lemma_with_finding_sound(
                ItemView { range: extended(last, e).range, ..last },
                e,
            );
            assert(le(entries[entries.len() - 2], entries[entries.len() - 1]));
            assert(within(effective_range(e).0, extended(last, e).range)) by {
                path::lemma_precedes_total(
                    path::parts_of(shorter.last().file_path),
                    path::parts_of(e.file_path),
                );
            }
            lemma_new_holds(ItemView { range: extended(last, e).range, ..last }, e);
            assert(holds(out[n - 1], e));
        } else {
            let empty = ItemView {
                file_path: e.file_path,
                side: effective_range(e).1,
                range: effective_range(e).0,
                locations: Seq::empty(),
                findings: Seq::empty(),
            };
            lemma_with_finding_sound(empty, e);
            lemma_new_holds(empty, e);
            assert(holds(out[n], e));
        }
        assert forall|i: int| 0 <= i < out.len() implies item_sound(#[trigger] out[i]) by {
            if i < n && !(joins && i == n - 1) {
                assert(out[i] == items[i]);
                assert(item_sound(items[i]));
            }
        }
        assert forall|k: int| 0 <= k < entries.len() implies exists|i: int|
            0 <= i < out.len() && holds(#[trigger] out[i], #[trigger] entries[k]) by {
            if k < shorter.len() {
                assert(entries[k] == shorter[k]);
                let i = choose|i: int|
                    0 <= i < items.len() && holds(#[trigger] items[i], shorter[k]);
                if joins && i == n - 1 {
                    let last = items.last();
                    let wider = ItemView { range: extended(last, e).range, ..last };
                    assert(holds(wider, shorter[k]));
                    lemma_with_finding_holds(wider, e, shorter[k]);
                    assert(holds(out[n - 1], entries[k]));
                } else {
                    assert(out[i] == items[i]);
                    assert(holds(out[i], entries[k]));
                }
            } else {
                assert(entries[k] == e);
            }
        }
    }
}

proof fn lemma_new_holds(item: ItemView, e: EntryView)
    requires
        path::parts_of(item.file_path) == path::parts_of(e.file_path),
        item.side == effective_range(e).1,
        within(effective_range(e).0, item.range),
    ensures
        holds(with_finding(item, e), e),
{
    lemma_with_locations(item.locations, places_of(e));
    assert(with_finding(item, e).findings.last() == e.finding);
}

/// Two findings say the same: what makes them exactly equal but for the place.
pub open spec fn says_same(a: FindingView, b: FindingView) -> bool {
    &&& a.level == b.level
    &&& a.category == b.category
    &&& a.rationale == b.rationale
    &&& a.focus_lines == b.focus_lines
}

proof fn lemma_dedup_represents(flat: Seq<EntryView>)
    ensures
        forall|k: int|
            0 <= k < flat.len() ==> exists|i: int|
                0 <= i < deduped(flat).len() && represents(
                    #[trigger] deduped(flat)[i],
                    #[trigger] flat[k],
                ),
    decreases flat.len(),
{
    if flat.len() > 0 {
        let shorter = flat.drop_last();
        let e = flat.last();
        lemma_dedup_represents(shorter);
        let kept = deduped(shorter);
        let out = deduped(flat);
        lemma_match_index_is(kept, e);
        let m = match_index(kept, e) as int;
        if m < kept.len() {
            let places = places_of(out[m]);
            assert(places.last() == e.primary);
            assert(represents(out[m], e));
        } else {
            assert(places_of(out[m])[0] == e.primary);
            assert(represents(out[m], e));
        }
        assert forall|k: int| 0 <= k < flat.len() implies exists|i: int|
            0 <= i < out.len() && represents(#[trigger] out[i], #[trigger] flat[k]) by {
            if k < shorter.len() {
                assert(flat[k] == shorter[k]);
                let i = choose|i: int|
                    0 <= i < kept.len() && represents(#[trigger] kept[i], shorter[k]);
                if i == m {
                    let c = choose|c: int|
                        0 <= c < places_of(kept[i]).len() && (
                        #[trigger] places_of(kept[i])[c]).hunk_id == shorter[k].primary.hunk_id;
                    assert(places_of(out[i])[c] == places_of(kept[i])[c]);
                }
                assert(represents(out[i], flat[k]));
            } else {
                assert(flat[k] == e);
            }
        }
    }
}

/// An entry stands for another: it says the same about the same file, and has
/// the other's place among its own.
pub open spec fn represents(d: EntryView, e: EntryView) -> bool {
    &&& says_same(d.finding, e.finding)
    &&& path::parts_of(d.file_path) == path::parts_of(e.file_path)
    &&& exists|c: int|
        0 <= c < places_of(d).len() && (#[trigger] places_of(d)[c]).hunk_id == e.primary.hunk_id
}

proof fn lemma_flattened_contains(input: Seq<HunkFindingsView>, i: int, j: int)
    requires
        0 <= i < input.len(),
        0 <= j < input[i].findings.len(),
    ensures
        flattened(input).contains(entry_of(input[i], input[i].findings[j])),
    decreases input.len(),
{
    let e = entry_of(input[i], input[i].findings[j]);
    let shorter = flattened(input.drop_last());
    let last = hunk_entries(input.last());
    if i < input.len() - 1 {
        lemma_flattened_contains(input.drop_last(), i, j);
        let k = choose|k: int| 0 <= k < shorter.len() && shorter[k] == e;
        assert(flattened(input)[k] == e);
    } else {
        assert(last[j] == e);
        assert(flattened(input)[shorter.len() + j] == e);
    }
}

/// No finding is lost: for every finding on every hunk there is an item of the
/// hunk's file that points at the hunk and has a finding that says the same. Where
/// the finding is about certain lines, they are on the item's side and in its
/// range.
pub proof fn law_no_finding_is_lost(input: Seq<HunkFindingsView>, i: int, j: int)
    requires
        input_fits(input),
        0 <= i < input.len(),
        0 <= j < input[i].findings.len(),
    ensures
        exists|k: int, m: int|
            0 <= k < items_of(input).len() && 0 <= m < items_of(input)[k].findings.len()
                && says_same(
                #[trigger] items_of(input)[k].findings[m],
                input[i].findings[j],
            ) && path::parts_of(items_of(input)[k].file_path) == path::parts_of(input[i].file_path)
                && !new_place(items_of(input)[k].locations, input[i].hunk_id) && (
            input[i].findings[j].focus_lines matches Some(x) ==> items_of(input)[k].side == x.side
                && items_of(input)[k].range.start <= x.start && x.start
                <= items_of(input)[k].range.end && x.end <= items_of(input)[k].range.end),
{
    let le = |a: EntryView, b: EntryView| entry_le(a, b);
    let flat = flattened(input);
    let entries = deduped(flat);
    let sorted = arranged(entries);
    let items = items_of(input);
    lemma_entry_order();
    order::law_sorted(entries, le);
    order::law_permutation(entries, le);
    lemma_arranged_fits(entries);
    lemma_swept_holds(sorted);
    lemma_flattened_contains(input, i, j);
    lemma_dedup_represents(flat);
    let e = entry_of(input[i], input[i].findings[j]);
    let p = choose|p: int| 0 <= p < flat.len() && flat[p] == e;
    let d = choose|d: int| 0 <= d < entries.len() && represents(#[trigger] entries[d], flat[p]);
    lemma_same_elements(entries, sorted, d);
    let q = choose|q: int| 0 <= q < sorted.len() && sorted[q] == entries[d];
    let k = choose|k: int| 0 <= k < items.len() && holds(#[trigger] items[k], sorted[q]);
    let m = choose|m: int|
        0 <= m < items[k].findings.len() && items[k].findings[m] == sorted[q].finding;
    let c = choose|c: int|
        0 <= c < places_of(entries[d]).len() && (#[trigger] places_of(entries[d])[c]).hunk_id
            == e.primary.hunk_id;
    assert(!new_place(items[k].locations, places_of(sorted[q])[c].hunk_id));
    assert(says_same(items[k].findings[m], input[i].findings[j]));
}

/// Every item has findings and locations, and lists each hunk once.
pub proof fn law_items_are_sound(input: Seq<HunkFindingsView>, i: int)
    requires
        input_fits(input),
        0 <= i < items_of(input).len(),
    ensures
        item_sound(items_of(input)[i]),
{
    let le = |a: EntryView, b: EntryView| entry_le(a, b);
    let entries = deduped(flattened(input));
    lemma_entry_order();
    order::law_sorted(entries, le);
    lemma_arranged_fits(entries);
    lemma_swept_holds(arranged(entries));
}

/// No two entries that are left after collapsing say the same about one file.
pub proof fn law_collapsed_entries_differ(flat: Seq<EntryView>, i: int, j: int)
    requires
        0 <= i < j < deduped(flat).len(),
    ensures
        !(says_same(deduped(flat)[i].finding, deduped(flat)[j].finding) && path::parts_of(
            deduped(flat)[i].file_path,
        ) == path::parts_of(deduped(flat)[j].file_path)),
    decreases flat.len(),
{
    let shorter = flat.drop_last();
    let e = flat.last();
    let kept = deduped(shorter);
    lemma_match_index_is(kept, e);
    let m = match_index(kept, e) as int;
    if j < kept.len() {
        law_collapsed_entries_differ(shorter, i, j);
    }
}

/// The findings of the items, in order.
pub open spec fn findings_of(items: Seq<ItemView>) -> Seq<FindingView>
    decreases items.len(),
{
    if items.len() == 0 {
        Seq::empty()
    } else {
        findings_of(items.drop_last()) + items.last().findings
    }
}

proof fn lemma_swept_findings(entries: Seq<EntryView>)
    ensures
        findings_of(swept(entries)) == entries.map_values(|e: EntryView| e.finding),
    decreases entries.len(),
{
    let of = |e: EntryView| e.finding;
    if entries.len() == 0 {
        assert(findings_of(swept(entries)) =~= entries.map_values(of));
    } else {
        let shorter = entries.drop_last();
        let e = entries.last();
        lemma_swept_findings(shorter);
        let items = swept(shorter);
        let out = swept(entries);
        assert(entries.map_values(of) =~= shorter.map_values(of).push(e.finding));
        if items.len() > 0 && extends(items.last(), e) {
            assert(out.drop_last() =~= items.drop_last());
            assert(findings_of(out) =~= findings_of(items).push(e.finding));
        } else {
            assert(out.drop_last() =~= items);
            assert(out.last().findings =~= seq![e.finding]);
            assert(findings_of(out) =~= findings_of(items).push(e.finding));
        }
    }
}

/// The items have the findings that are left after collapsing, each once, and
/// no others.
pub proof fn law_items_have_the_findings(input: Seq<HunkFindingsView>)
    ensures
        findings_of(items_of(input)) == arranged(deduped(flattened(input))).map_values(
            |e: EntryView| e.finding,
        ),
        arranged(deduped(flattened(input))).to_multiset() == deduped(
            flattened(input),
        ).to_multiset(),
{
    let le = |a: EntryView, b: EntryView| entry_le(a, b);
    lemma_swept_findings(arranged(deduped(flattened(input))));
    order::law_permutation(deduped(flattened(input)), le);
}

// --- an item is made of its findings, and of nothing else -----------------

/// A finding on a hunk is about a line of a side: one of its own lines, or where
/// it has none one of the hunk's lines in the new file.
pub open spec fn on_line(hunk: HunkFindingsView, f: FindingView, side: Side, line: int) -> bool {
    match f.focus_lines {
        Some(x) => x.side == side && x.start <= line && (line <= x.end || line == x.start),
        None => side == Side::New && hunk.new_range.start <= line && (line
            < hunk.new_range.start + hunk.new_range.count || line == hunk.new_range.start),
    }
}

/// A finding on a hunk is in an item, and is about this line of it.
pub open spec fn accounts_for(
    item: ItemView,
    hunk: HunkFindingsView,
    f: FindingView,
    line: int,
) -> bool {
    &&& item.findings.contains(f)
    &&& path::parts_of(item.file_path) == path::parts_of(hunk.file_path)
    &&& on_line(hunk, f, item.side, line)
}

spec fn reaches(item: ItemView, e: EntryView, line: int) -> bool {
    &&& item.findings.contains(e.finding)
    &&& path::parts_of(item.file_path) == path::parts_of(e.file_path)
    &&& item.side == effective_range(e).1
    &&& effective_range(e).0.start <= line <= effective_range(e).0.end
}

proof fn lemma_swept_tight(entries: Seq<EntryView>, i: int, line: int)
    requires
        0 <= i < swept(entries).len(),
        swept(entries)[i].range.start <= line <= swept(entries)[i].range.end,
    ensures
        exists|k: int| 0 <= k < entries.len() && reaches(swept(entries)[i], #[trigger] entries[k], line),
    decreases entries.len(),
{
    let shorter = entries.drop_last();
    let e = entries.last();
    let items = swept(shorter);
    let out = swept(entries);
    assert(entries[entries.len() - 1] == e);
    if items.len() > 0 && extends(items.last(), e) {
        let n = items.len() - 1;
        if i < n {
            lemma_swept_tight(shorter, i, line);
            let k = choose|k: int| 0 <= k < shorter.len() && reaches(items[i], #[trigger] shorter[k], line);
            assert(reaches(out[i], entries[k], line));
        } else if line <= items[n].range.end {
            lemma_swept_tight(shorter, n, line);
            let k = choose|k: int| 0 <= k < shorter.len() && reaches(items[n], #[trigger] shorter[k], line);
            let f = shorter[k].finding;
            let m = choose|m: int| 0 <= m < items[n].findings.len() && items[n].findings[m] == f;
            assert(out[i].findings[m] == f);
            assert(reaches(out[i], entries[k], line));
        } else {
            assert(out[i].findings[items[n].findings.len() as int] == e.finding);
            assert(reaches(out[i], entries[entries.len() - 1], line));
        }
    } else if i < items.len() {
        lemma_swept_tight(shorter, i, line);
        let k = choose|k: int| 0 <= k < shorter.len() && reaches(items[i], #[trigger] shorter[k], line);
        assert(reaches(out[i], entries[k], line));
    } else {
        assert(out[i].findings[0] == e.finding);
        assert(reaches(out[i], entries[entries.len() - 1], line));
    }
}

proof fn lemma_deduped_from(flat: Seq<EntryView>, d: int)
    requires
        0 <= d < deduped(flat).len(),
    ensures
        exists|p: int|
            0 <= p < flat.len() && (#[trigger] flat[p]).finding == deduped(flat)[d].finding
                && flat[p].primary == deduped(flat)[d].primary && flat[p].file_path == deduped(
                flat,
            )[d].file_path,
    decreases flat.len(),
{
    let shorter = flat.drop_last();
    let e = flat.last();
    let kept = deduped(shorter);
    lemma_match_index_is(kept, e);
    if d < kept.len() {
        lemma_deduped_from(shorter, d);
        let p = choose|p: int|
            0 <= p < shorter.len() && (#[trigger] shorter[p]).finding == kept[d].finding
                && shorter[p].primary == kept[d].primary && shorter[p].file_path
                == kept[d].file_path;
        assert(flat[p] == shorter[p]);
    } else {
        assert(flat[flat.len() - 1] == e);
    }
}

proof fn lemma_flattened_from(input: Seq<HunkFindingsView>, p: int)
    requires
        0 <= p < flattened(input).len(),
    ensures
        exists|h: int, j: int|
            0 <= h < input.len() && 0 <= j < input[h].findings.len() && flattened(input)[p]
                == entry_of(input[h], #[trigger] input[h].findings[j]),
    decreases input.len(),
{
    let before = flattened(input.drop_last());
    if p < before.len() {
        lemma_flattened_from(input.drop_last(), p);
        let (h, j) = choose|h: int, j: int|
            0 <= h < input.drop_last().len() && 0 <= j < input.drop_last()[h].findings.len()
                && before[p] == entry_of(
                input.drop_last()[h],
                #[trigger] input.drop_last()[h].findings[j],
            );
        assert(input[h] == input.drop_last()[h]);
        assert(flattened(input)[p] == entry_of(input[h], input[h].findings[j]));
    } else {
        let h = input.len() - 1;
        let j = p - before.len();
        assert(flattened(input)[p] == entry_of(input[h], input[h].findings[j]));
    }
}

/// An entry that is left to be grouped is a finding on one of the hunks, at that
/// hunk.
proof fn lemma_arranged_from(input: Seq<HunkFindingsView>, k: int)
    requires
        0 <= k < arranged(deduped(flattened(input))).len(),
    ensures
        ({
            let e = arranged(deduped(flattened(input)))[k];
            exists|h: int, j: int|
                0 <= h < input.len() && 0 <= j < input[h].findings.len()
                    && #[trigger] input[h].findings[j] == e.finding && e.primary == entry_of(
                    input[h],
                    e.finding,
                ).primary && e.file_path == input[h].file_path
        }),
{
    let le = |a: EntryView, b: EntryView| entry_le(a, b);
    let flat = flattened(input);
    let entries = deduped(flat);
    let sorted = arranged(entries);
    let e = sorted[k];
    order::law_permutation(entries, le);
    lemma_same_elements(sorted, entries, k);
    let d = choose|d: int| 0 <= d < entries.len() && entries[d] == e;
    lemma_deduped_from(flat, d);
    let p = choose|p: int|
        0 <= p < flat.len() && (#[trigger] flat[p]).finding == e.finding && flat[p].primary
            == e.primary && flat[p].file_path == e.file_path;
    lemma_flattened_from(input, p);
    let (h, j) = choose|h: int, j: int|
        0 <= h < input.len() && 0 <= j < input[h].findings.len() && flat[p] == entry_of(
            input[h],
            #[trigger] input[h].findings[j],
        );
    assert(input[h].findings[j] == e.finding);
}

/// An item is no wider than its findings make it: every line of its range is a
/// line that one of its findings is about. So findings between which there is a
/// line of the file that no finding on that side is about are never in one item.
pub proof fn law_items_are_no_wider(input: Seq<HunkFindingsView>, i: int, line: int)
    requires
        input_fits(input),
        0 <= i < items_of(input).len(),
        items_of(input)[i].range.start <= line <= items_of(input)[i].range.end,
    ensures
        exists|h: int, j: int|
            0 <= h < input.len() && 0 <= j < input[h].findings.len() && accounts_for(
                items_of(input)[i],
                input[h],
                #[trigger] input[h].findings[j],
                line,
            ),
{
    let entries = deduped(flattened(input));
    let sorted = arranged(entries);
    lemma_arranged_fits(entries);
    lemma_swept_tight(sorted, i, line);
    let k = choose|k: int|
        0 <= k < sorted.len() && reaches(items_of(input)[i], #[trigger] sorted[k], line);
    assert(entry_fits(sorted[k]));
    lemma_arranged_from(input, k);
    let e = sorted[k];
    let (h, j) = choose|h: int, j: int|
        0 <= h < input.len() && 0 <= j < input[h].findings.len()
            && #[trigger] input[h].findings[j] == e.finding && e.primary == entry_of(
            input[h],
            e.finding,
        ).primary && e.file_path == input[h].file_path;
    assert(accounts_for(items_of(input)[i], input[h], input[h].findings[j], line));
}

/// A finding on a hunk is in an item of the hunk's file and of the finding's side.
pub open spec fn belongs(item: ItemView, hunk: HunkFindingsView, f: FindingView) -> bool {
    &&& item.findings.contains(f)
    &&& path::parts_of(item.file_path) == path::parts_of(hunk.file_path)
    &&& item.side == match f.focus_lines {
        Some(x) => x.side,
        None => Side::New,
    }
}

proof fn lemma_swept_from(entries: Seq<EntryView>, i: int, m: int)
    requires
        0 <= i < swept(entries).len(),
        0 <= m < swept(entries)[i].findings.len(),
    ensures
        exists|k: int|
            0 <= k < entries.len() && (#[trigger] entries[k]).finding == swept(entries)[i].findings[m]
                && path::parts_of(entries[k].file_path) == path::parts_of(
                swept(entries)[i].file_path,
            ) && effective_range(entries[k]).1 == swept(entries)[i].side,
    decreases entries.len(),
{
    let shorter = entries.drop_last();
    let e = entries.last();
    let items = swept(shorter);
    assert(entries[entries.len() - 1] == e);
    if i < items.len() && m < items[i].findings.len() {
        lemma_swept_from(shorter, i, m);
        let k = choose|k: int|
            0 <= k < shorter.len() && (#[trigger] shorter[k]).finding == items[i].findings[m]
                && path::parts_of(shorter[k].file_path) == path::parts_of(items[i].file_path)
                && effective_range(shorter[k]).1 == items[i].side;
        assert(entries[k] == shorter[k]);
    }
}

/// Nothing is made up: every finding of an item is one that a hunk of the item's
/// file has, and on the item's side.
pub proof fn law_items_come_from_findings(input: Seq<HunkFindingsView>, i: int, m: int)
    requires
        0 <= i < items_of(input).len(),
        0 <= m < items_of(input)[i].findings.len(),
    ensures
        exists|h: int, j: int|
            0 <= h < input.len() && 0 <= j < input[h].findings.len()
                && #[trigger] input[h].findings[j] == items_of(input)[i].findings[m] && belongs(
                items_of(input)[i],
                input[h],
                input[h].findings[j],
            ),
{
    let sorted = arranged(deduped(flattened(input)));
    let item = items_of(input)[i];
    lemma_swept_from(sorted, i, m);
    let k = choose|k: int|
        0 <= k < sorted.len() && (#[trigger] sorted[k]).finding == item.findings[m]
            && path::parts_of(sorted[k].file_path) == path::parts_of(item.file_path)
            && effective_range(sorted[k]).1 == item.side;
    lemma_arranged_from(input, k);
    let e = sorted[k];
    let (h, j) = choose|h: int, j: int|
        0 <= h < input.len() && 0 <= j < input[h].findings.len()
            && #[trigger] input[h].findings[j] == e.finding && e.primary == entry_of(
            input[h],
            e.finding,
        ).primary && e.file_path == input[h].file_path;
    assert(item.findings.contains(item.findings[m]));
    assert(belongs(item, input[h], input[h].findings[j]));
}

/// A hunk is at this location, is in the item's file, and has a finding that says
/// what one of the item's says.
pub open spec fn located(item: ItemView, place: LocationView, hunk: HunkFindingsView) -> bool {
    &&& place.hunk_id == hunk.hunk_id
    &&& place.new_range == hunk.new_range
    &&& place.old_range == hunk.old_range
    &&& path::parts_of(item.file_path) == path::parts_of(hunk.file_path)
    &&& exists|j: int, m: int|
        0 <= j < hunk.findings.len() && 0 <= m < item.findings.len() && says_same(
            #[trigger] hunk.findings[j],
            #[trigger] item.findings[m],
        )
}

spec fn place_from(e: EntryView, place: LocationView) -> bool {
    exists|c: int| 0 <= c < places_of(e).len() && #[trigger] places_of(e)[c] == place
}

proof fn lemma_with_locations_from(
    locations: Seq<LocationView>,
    places: Seq<LocationView>,
    c: int,
)
    requires
        0 <= c < with_locations(locations, places).len(),
    ensures
        locations.contains(with_locations(locations, places)[c]) || places.contains(
            with_locations(locations, places)[c],
        ),
    decreases places.len(),
{
    let l = with_locations(locations, places)[c];
    if places.len() == 0 {
        assert(locations[c] == l);
    } else {
        let before = with_locations(locations, places.drop_last());
        if c < before.len() {
            lemma_with_locations_from(locations, places.drop_last(), c);
            if places.drop_last().contains(l) {
                let k = choose|k: int| 0 <= k < places.drop_last().len() && places.drop_last()[k] == l;
                assert(places[k] == l);
            }
        } else {
            assert(places[places.len() - 1] == l);
        }
    }
}

spec fn entry_place(item: ItemView, e: EntryView, place: LocationView) -> bool {
    &&& item.findings.contains(e.finding)
    &&& path::parts_of(item.file_path) == path::parts_of(e.file_path)
    &&& place_from(e, place)
}

proof fn lemma_swept_places(entries: Seq<EntryView>, i: int, c: int)
    requires
        0 <= i < swept(entries).len(),
        0 <= c < swept(entries)[i].locations.len(),
    ensures
        exists|k: int|
            0 <= k < entries.len() && entry_place(
                swept(entries)[i],
                #[trigger] entries[k],
                swept(entries)[i].locations[c],
            ),
    decreases entries.len(),
{
    let shorter = entries.drop_last();
    let e = entries.last();
    let items = swept(shorter);
    let out = swept(entries);
    let l = out[i].locations[c];
    let joins = items.len() > 0 && extends(items.last(), e);
    assert(entries[entries.len() - 1] == e);
    if i < items.len() - 1 || (i == items.len() - 1 && !joins) {
        assert(out[i] == items[i]);
        lemma_swept_places(shorter, i, c);
        let k = choose|k: int| 0 <= k < shorter.len() && entry_place(items[i], #[trigger] shorter[k], l);
        assert(entry_place(out[i], entries[k], l));
    } else {
        let before = if joins {
            items[i].locations
        } else {
            Seq::empty()
        };
        lemma_with_locations_from(before, places_of(e), c);
        if places_of(e).contains(l) {
            let q = choose|q: int| 0 <= q < places_of(e).len() && places_of(e)[q] == l;
            assert(place_from(e, l));
            assert(out[i].findings.last() == e.finding);
            assert(entry_place(out[i], entries[entries.len() - 1], l));
        } else {
            let b = choose|b: int| 0 <= b < before.len() && before[b] == l;
            lemma_swept_places(shorter, i, b);
            let k = choose|k: int| 0 <= k < shorter.len() && entry_place(items[i], #[trigger] shorter[k], l);
            let m = choose|m: int|
                0 <= m < items[i].findings.len() && items[i].findings[m] == shorter[k].finding;
            assert(out[i].findings[m] == shorter[k].finding);
            assert(entry_place(out[i], entries[k], l));
        }
    }
}

proof fn lemma_deduped_places(flat: Seq<EntryView>, d: int, c: int)
    requires
        forall|k: int| 0 <= k < flat.len() ==> (#[trigger] flat[k]).merged.len() == 0,
        0 <= d < deduped(flat).len(),
        0 <= c < places_of(deduped(flat)[d]).len(),
    ensures
        exists|p: int|
            0 <= p < flat.len() && (#[trigger] flat[p]).primary == places_of(deduped(flat)[d])[c]
                && says_same(flat[p].finding, deduped(flat)[d].finding) && path::parts_of(
                flat[p].file_path,
            ) == path::parts_of(deduped(flat)[d].file_path),
    decreases flat.len(),
{
    let shorter = flat.drop_last();
    let e = flat.last();
    let kept = deduped(shorter);
    let out = deduped(flat);
    lemma_match_index_is(kept, e);
    let n = match_index(kept, e) as int;
    assert(flat[flat.len() - 1] == e);
    assert forall|k: int| 0 <= k < shorter.len() implies (#[trigger] shorter[k]).merged.len() == 0 by {
        assert(flat[k].merged.len() == 0);
    }
    if d < kept.len() && c < places_of(kept[d]).len() {
        assert(places_of(out[d])[c] == places_of(kept[d])[c]);
        lemma_deduped_places(shorter, d, c);
        let p = choose|p: int|
            0 <= p < shorter.len() && (#[trigger] shorter[p]).primary == places_of(kept[d])[c]
                && says_same(shorter[p].finding, kept[d].finding) && path::parts_of(
                shorter[p].file_path,
            ) == path::parts_of(kept[d].file_path);
        assert(flat[p] == shorter[p]);
    } else {
        assert(places_of(out[d])[c] == e.primary);
    }
}

/// Every location of an item is a hunk of its file with a finding that says what
/// one of the item's says.
pub proof fn law_locations_come_from_hunks(input: Seq<HunkFindingsView>, i: int, c: int)
    requires
        0 <= i < items_of(input).len(),
        0 <= c < items_of(input)[i].locations.len(),
    ensures
        exists|h: int|
            0 <= h < input.len() && located(
                items_of(input)[i],
                items_of(input)[i].locations[c],
                #[trigger] input[h],
            ),
{
    let le = |a: EntryView, b: EntryView| entry_le(a, b);
    let flat = flattened(input);
    let entries = deduped(flat);
    let sorted = arranged(entries);
    let item = items_of(input)[i];
    let l = item.locations[c];
    lemma_swept_places(sorted, i, c);
    let k = choose|k: int| 0 <= k < sorted.len() && entry_place(item, #[trigger] sorted[k], l);
    let e = sorted[k];
    order::law_permutation(entries, le);
    lemma_same_elements(sorted, entries, k);
    let d = choose|d: int| 0 <= d < entries.len() && entries[d] == e;
    let q = choose|q: int| 0 <= q < places_of(e).len() && #[trigger] places_of(e)[q] == l;
    assert forall|p: int| 0 <= p < flat.len() implies (#[trigger] flat[p]).merged.len() == 0 by {
        lemma_flattened_from(input, p);
    }
    lemma_deduped_places(flat, d, q);
    let p = choose|p: int|
        0 <= p < flat.len() && (#[trigger] flat[p]).primary == l && says_same(
            flat[p].finding,
            e.finding,
        ) && path::parts_of(flat[p].file_path) == path::parts_of(e.file_path);
    lemma_flattened_from(input, p);
    let (h, j) = choose|h: int, j: int|
        0 <= h < input.len() && 0 <= j < input[h].findings.len() && flat[p] == entry_of(
            input[h],
            #[trigger] input[h].findings[j],
        );
    let m = choose|m: int| 0 <= m < item.findings.len() && item.findings[m] == e.finding;
    assert(says_same(input[h].findings[j], item.findings[m]));
    assert(located(item, l, input[h]));
}

/// The level of findings taken together is that of one of them, and none is
/// higher; where there are none it is `Skim`.
pub proof fn law_top_level(fs: Seq<FindingView>)
    ensures
        fs.len() == 0 ==> top_level(fs) == Level::Skim,
        fs.len() > 0 ==> exists|i: int|
            0 <= i < fs.len() && (#[trigger] fs[i]).level == top_level(fs),
        forall|i: int|
            0 <= i < fs.len() && (#[trigger] fs[i]).level == Level::Review ==> top_level(fs)
                == Level::Review,
        forall|i: int|
            0 <= i < fs.len() && (#[trigger] fs[i]).level != Level::Skip ==> top_level(fs)
                != Level::Skip,
    decreases fs.len(),
{
    if fs.len() == 1 {
        assert(fs[0].level == top_level(fs));
    } else if fs.len() > 1 {
        let rest = fs.drop_last();
        law_top_level(rest);
        let i = choose|i: int| 0 <= i < rest.len() && (#[trigger] rest[i]).level == top_level(rest);
        assert(fs[i] == rest[i]);
        assert(fs[fs.len() - 1] == fs.last());
        assert forall|k: int|
            0 <= k < fs.len() && (#[trigger] fs[k]).level == Level::Review implies top_level(fs)
            == Level::Review by {
            if k < rest.len() {
                assert(rest[k] == fs[k]);
            }
        }
        assert forall|k: int|
            0 <= k < fs.len() && (#[trigger] fs[k]).level != Level::Skip implies top_level(fs)
            != Level::Skip by {
            if k < rest.len() {
                assert(rest[k] == fs[k]);
            }
        }
    }
}

/// A finding comes before another: by file, those of the old side first, then by
/// first and last line. A finding that points at no lines is about its hunk, in
/// the new file.
pub open spec fn finding_before(
    a: FindingView,
    on_a: LocationView,
    b: FindingView,
    on_b: LocationView,
) -> bool {
    match (a.focus_lines, b.focus_lines) {
        (Some(x), Some(y)) => {
            &&& !(x.side == Side::New && y.side == Side::Old)
            &&& x.side == y.side ==> x.start <= y.start
            &&& x.side == y.side && x.start == y.start && x.start <= x.end && y.start <= y.end
                ==> x.end <= y.end
        },
        (Some(x), None) => x.side == Side::New ==> x.start <= on_b.new_range.start,
        (None, Some(y)) => y.side == Side::New && on_a.new_range.start <= y.start,
        (None, None) => on_a.new_range.start <= on_b.new_range.start,
    }
}

/// The findings of the items, one item after the other, are those that are left
/// after collapsing, in the order of their files and lines.
pub proof fn law_findings_are_in_order(input: Seq<HunkFindingsView>, k: int, l: int)
    requires
        0 <= k < l < arranged(deduped(flattened(input))).len(),
    ensures
        ({
            let es = arranged(deduped(flattened(input)));
            &&& findings_of(items_of(input)).len() == es.len()
            &&& findings_of(items_of(input))[k] == es[k].finding
            &&& findings_of(items_of(input))[l] == es[l].finding
            &&& es.to_multiset() == deduped(flattened(input)).to_multiset()
            &&& path::parts_of(es[k].file_path) == path::parts_of(es[l].file_path)
                ==> finding_before(es[k].finding, es[k].primary, es[l].finding, es[l].primary)
            &&& path::parts_of(es[k].file_path) != path::parts_of(es[l].file_path)
                ==> path::precedes(
                path::parts_of(es[k].file_path),
                path::parts_of(es[l].file_path),
            )
        }),
{
    let le = |a: EntryView, b: EntryView| entry_le(a, b);
    let entries = deduped(flattened(input));
    let es = arranged(entries);
    lemma_swept_findings(es);
    lemma_entry_order();
    order::law_sorted(entries, le);
    order::law_permutation(entries, le);
    assert(le(es[k], es[l]));
}

/// A finding that points at no lines is about a whole hunk: the item that has it
/// covers the new lines of a hunk of its file on which the same is found.
pub proof fn law_whole_hunks_are_covered(input: Seq<HunkFindingsView>, i: int, j: int)
    requires
        input_fits(input),
        0 <= i < input.len(),
        0 <= j < input[i].findings.len(),
        input[i].findings[j].focus_lines is None,
    ensures
        exists|k: int, h: int, l: int|
            0 <= k < items_of(input).len() && 0 <= h < input.len() && 0 <= l
                < input[h].findings.len() && says_same(
                #[trigger] input[h].findings[l],
                input[i].findings[j],
            ) && path::parts_of(input[h].file_path) == path::parts_of(input[i].file_path)
                && #[trigger] covers_hunk(items_of(input)[k], input[h], input[h].findings[l]),
{
    let le = |a: EntryView, b: EntryView| entry_le(a, b);
    let flat = flattened(input);
    let entries = deduped(flat);
    let sorted = arranged(entries);
    let items = items_of(input);
    lemma_entry_order();
    order::law_sorted(entries, le);
    order::law_permutation(entries, le);
    lemma_arranged_fits(entries);
    lemma_swept_holds(sorted);
    lemma_flattened_contains(input, i, j);
    lemma_dedup_represents(flat);
    let e = entry_of(input[i], input[i].findings[j]);
    let p = choose|p: int| 0 <= p < flat.len() && flat[p] == e;
    let d = choose|d: int| 0 <= d < entries.len() && represents(#[trigger] entries[d], flat[p]);
    lemma_same_elements(entries, sorted, d);
    let q = choose|q: int| 0 <= q < sorted.len() && sorted[q] == entries[d];
    let k = choose|k: int| 0 <= k < items.len() && holds(#[trigger] items[k], sorted[q]);
    lemma_arranged_from(input, q);
    let (h, l) = choose|h: int, l: int|
        0 <= h < input.len() && 0 <= l < input[h].findings.len()
            && #[trigger] input[h].findings[l] == sorted[q].finding && sorted[q].primary == entry_of(
            input[h],
            sorted[q].finding,
        ).primary && sorted[q].file_path == input[h].file_path;
    assert(entry_fits(sorted[q]));
    assert(says_same(input[h].findings[l], input[i].findings[j]));
    assert(covers_hunk(items[k], input[h], input[h].findings[l]));
}

/// An item has a finding on a hunk, and covers the new lines of the hunk.
pub open spec fn covers_hunk(item: ItemView, hunk: HunkFindingsView, f: FindingView) -> bool {
    &&& item.findings.contains(f)
    &&& item.side == Side::New
    &&& path::parts_of(item.file_path) == path::parts_of(hunk.file_path)
    &&& item.range.start <= hunk.new_range.start <= item.range.end
    &&& hunk.new_range.start + hunk.new_range.count <= item.range.end + 1
}

} // verus!
