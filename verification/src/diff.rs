//! Diffs between two commits: their model, and how `git diff` output is read.
//!
//! Two outputs of `git` describe a diff. The raw output lists the files with
//! their statuses, renames and copies; the unified output holds the hunks. The
//! two are joined by file path.
use vstd::prelude::*;
use vstd::slice::slice_subrange;

use crate::lang;
use crate::lang::Language;
use crate::path;
use crate::text;

verus! {

/// A complete diff between two commits.
#[derive(Debug)]
pub struct Diff {
    pub base_sha: String,
    pub head_sha: String,
    pub files: Vec<FileDiff>,
}

/// A single file's changes.
#[derive(Debug)]
pub struct FileDiff {
    pub path: String,
    pub old_path: Option<String>,
    pub status: FileStatus,
    pub language: Option<Language>,
    pub hunks: Vec<Hunk>,
    pub old_content: Option<String>,
    pub new_content: Option<String>,
    /// Where the repository lives. Empty for a file that no repository backs.
    pub repo_path: String,
    pub base_sha: String,
    pub head_sha: String,
}

/// What happened to a file.
#[derive(Clone, Copy, Debug, PartialEq, Eq, Structural)]
pub enum FileStatus {
    Added,
    Modified,
    Deleted,
    Renamed { similarity: u8 },
}

impl FileStatus {
    pub fn is_added(&self) -> (r: bool)
        ensures
            r == (*self is Added),
    {
        matches!(self, FileStatus::Added)
    }

    pub fn is_deleted(&self) -> (r: bool)
        ensures
            r == (*self is Deleted),
    {
        matches!(self, FileStatus::Deleted)
    }
}

/// A single contiguous change within a file.
#[derive(Debug)]
pub struct Hunk {
    pub id: HunkId,
    pub old_range: LineRange,
    pub new_range: LineRange,
    /// Pre-image lines: removed lines and context lines, in file order.
    pub old_lines: Vec<String>,
    /// Post-image lines: added lines and context lines, in file order.
    pub new_lines: Vec<String>,
    /// How many lines were added, context left out.
    pub added: u32,
    /// How many lines were removed, context left out.
    pub removed: u32,
    /// Post-image line numbers, counted from one, of the added lines.
    pub added_lines: Vec<u32>,
    /// Pre-image line numbers, counted from one, of the removed lines.
    pub removed_lines: Vec<u32>,
}

/// Stable identifier of a hunk: the file's path, a colon, and the first line
/// of the hunk in the new file.
#[derive(Debug, PartialEq, Eq, Hash)]
pub struct HunkId(pub String);

/// Lines `start`, `start + 1`, and so on, `count` of them.
#[derive(Clone, Copy, Debug, PartialEq, Eq, Structural)]
pub struct LineRange {
    pub start: u32,
    pub count: u32,
}

impl View for HunkId {
    type V = Seq<char>;

    open spec fn view(&self) -> Seq<char> {
        self.0@
    }
}

#[verifier::ext_equal]
pub struct HunkView {
    pub id: Seq<char>,
    pub old_range: LineRange,
    pub new_range: LineRange,
    pub old_lines: Seq<Seq<char>>,
    pub new_lines: Seq<Seq<char>>,
    pub added: u32,
    pub removed: u32,
    pub added_lines: Seq<u32>,
    pub removed_lines: Seq<u32>,
}

impl View for Hunk {
    type V = HunkView;

    open spec fn view(&self) -> HunkView {
        HunkView {
            id: self.id@,
            old_range: self.old_range,
            new_range: self.new_range,
            old_lines: text::views(self.old_lines@),
            new_lines: text::views(self.new_lines@),
            added: self.added,
            removed: self.removed,
            added_lines: self.added_lines@,
            removed_lines: self.removed_lines@,
        }
    }
}

#[verifier::ext_equal]
pub struct FileDiffView {
    pub path: Seq<char>,
    pub old_path: Option<Seq<char>>,
    pub status: FileStatus,
    pub language: Option<Language>,
    pub hunks: Seq<HunkView>,
    pub old_content: Option<Seq<char>>,
    pub new_content: Option<Seq<char>>,
    pub repo_path: Seq<char>,
    pub base_sha: Seq<char>,
    pub head_sha: Seq<char>,
}

impl View for FileDiff {
    type V = FileDiffView;

    open spec fn view(&self) -> FileDiffView {
        FileDiffView {
            path: self.path@,
            old_path: text::opt_view(self.old_path),
            status: self.status,
            language: self.language,
            hunks: text::views(self.hunks@),
            old_content: text::opt_view(self.old_content),
            new_content: text::opt_view(self.new_content),
            repo_path: self.repo_path@,
            base_sha: self.base_sha@,
            head_sha: self.head_sha@,
        }
    }
}

#[verifier::ext_equal]
pub struct DiffView {
    pub base_sha: Seq<char>,
    pub head_sha: Seq<char>,
    pub files: Seq<FileDiffView>,
}

impl View for Diff {
    type V = DiffView;

    open spec fn view(&self) -> DiffView {
        DiffView {
            base_sha: self.base_sha@,
            head_sha: self.head_sha@,
            files: text::views(self.files@),
        }
    }
}

impl Clone for HunkId {
    fn clone(&self) -> (r: Self)
        ensures
            r@ == self@,
    {
        HunkId(self.0.clone())
    }
}

impl Clone for Hunk {
    fn clone(&self) -> (r: Self)
        ensures
            r@ == self@,
    {
        Hunk {
            id: self.id.clone(),
            old_range: self.old_range,
            new_range: self.new_range,
            old_lines: text::clone_all(&self.old_lines),
            new_lines: text::clone_all(&self.new_lines),
            added: self.added,
            removed: self.removed,
            added_lines: self.added_lines.clone(),
            removed_lines: self.removed_lines.clone(),
        }
    }
}

/// The identifier of a hunk of the file at `path` that begins at line
/// `new_start` of the new file.
pub open spec fn hunk_id(path: Seq<char>, new_start: nat) -> Seq<char> {
    path + ":"@ + text::dec(new_start)
}

impl HunkId {
    pub fn for_hunk(path: &str, new_start: u32) -> (r: Self)
        ensures
            r@ == hunk_id(path@, new_start as nat),
    {
        let mut id: String = path.to_string();
        id.append(":");
        id.append(text::decimal(new_start as u64).as_str());
        HunkId(id)
    }

    /// Whether two identifiers are the same.
    pub fn same(&self, other: &HunkId) -> (r: bool)
        ensures
            r == (self@ == other@),
    {
        text::str_same(self.0.as_str(), other.0.as_str())
    }
}


// --- unified output ------------------------------------------------------

/// How many elements stand before the first that `stop` holds of; all of them
/// where there is none.
pub open spec fn before_first(ls: Seq<Seq<char>>, stop: spec_fn(Seq<char>) -> bool) -> nat
    decreases ls.len(),
{
    if ls.len() == 0 || stop(ls[0]) {
        0
    } else {
        1 + before_first(ls.drop_first(), stop)
    }
}

proof fn lemma_before_first(ls: Seq<Seq<char>>, stop: spec_fn(Seq<char>) -> bool, n: int)
    requires
        0 <= n <= ls.len(),
        forall|k: int| 0 <= k < n ==> !stop(#[trigger] ls[k]),
        n < ls.len() ==> stop(ls[n]),
    ensures
        before_first(ls, stop) == n,
    decreases n,
{
    if n > 0 {
        assert(!stop(ls[0]));
        let rest = ls.drop_first();
        assert forall|k: int| 0 <= k < n - 1 implies !stop(#[trigger] rest[k]) by {
            assert(!stop(ls[k + 1]));
        }
        lemma_before_first(rest, stop, n - 1);
    }
}

/// The path without the `a/` or `b/` that git writes before it.
pub open spec fn without_git_prefix(s: Seq<char>) -> Seq<char> {
    if text::begins(s, "a/"@) || text::begins(s, "b/"@) {
        s.skip(2)
    } else {
        s
    }
}

/// Takes the `a/` or `b/` that git writes before a path off it.
pub fn strip_git_prefix(s: &str) -> (r: String)
    ensures
        r@ == without_git_prefix(s@),
{
    let cs: Vec<char> = text::chars(s);
    proof {
        reveal_strlit("a/");
        reveal_strlit("b/");
    }
    if text::starts_with(&cs, "a/") || text::starts_with(&cs, "b/") {
        assert(s@.subrange(2, s@.len() as int) == s@.skip(2));
        text::string(slice_subrange(&cs, 2, cs.len()))
    } else {
        text::string(&cs)
    }
}

/// The path in what follows a `--- ` or `+++ ` marker: all of it, but for the tab
/// that git writes behind a path with white space in it.
pub open spec fn marked_path(rest: Seq<char>) -> Seq<char> {
    without_git_prefix(rest.take(text::upto(rest, '\t') as int))
}

fn read_marked_path(rest: &[char]) -> (r: String)
    ensures
        r@ == marked_path(rest@),
{
    let n: usize = text::position(rest, '\t');
    assert(rest@.subrange(0, n as int) == rest@.take(n as int));
    strip_git_prefix(text::string(slice_subrange(rest, 0, n)).as_str())
}

/// The path that the last of these lines with the marker gives.
pub open spec fn header_path(ls: Seq<Seq<char>>, marker: Seq<char>) -> Seq<char>
    decreases ls.len(),
{
    if ls.len() == 0 {
        Seq::empty()
    } else if text::begins(ls.last(), marker) {
        marked_path(ls.last().skip(4))
    } else {
        header_path(ls.drop_last(), marker)
    }
}

/// A number, or two with a comma between them; the second is one where it is
/// left out.
pub open spec fn range_of(s: Seq<char>) -> Option<(nat, nat)> {
    let n: int = text::upto(s, ',') as int;
    let max = u32::MAX as nat;
    if n < s.len() {
        match (text::number(s.take(n), max), text::number(s.skip(n + 1), max)) {
            (Some(a), Some(b)) => Some((a, b)),
            _ => None,
        }
    } else {
        match text::number(s, max) {
            Some(a) => Some((a, 1)),
            None => None,
        }
    }
}

/// A range with the sign before it.
pub open spec fn signed_range_of(s: Seq<char>, sign: char) -> Option<(nat, nat)> {
    if s.len() > 0 && s[0] == sign {
        range_of(s.skip(1))
    } else {
        None
    }
}

/// The old and new ranges that the two words of a hunk header give.
pub open spec fn ranges_of(header: Seq<char>) -> Option<(nat, nat, nat, nat)> {
    let words = text::words_of(header);
    if words.len() >= 2 {
        match (signed_range_of(words[0], '-'), signed_range_of(words[1], '+')) {
            (Some((a, b)), Some((c, d))) => Some((a, b, c, d)),
            _ => None,
        }
    } else {
        None
    }
}

/// The old and new ranges in a hunk header: what stands between `@@ ` and the
/// next ` @@`.
pub open spec fn hunk_header(s: Seq<char>) -> Option<(nat, nat, nat, nat)> {
    if text::begins(s, "@@ "@) && text::contains(s.skip(3), " @@"@) {
        let close = choose|i: int| text::first_at(s.skip(3), " @@"@, i);
        ranges_of(s.skip(3).take(close))
    } else {
        None
    }
}

fn parse_u32(s: &[char]) -> (r: Option<u32>)
    ensures
        match r {
            Some(n) => text::number(s@, u32::MAX as nat) == Some(n as nat),
            None => text::number(s@, u32::MAX as nat) is None,
        },
{
    match text::parse_number(s, u32::MAX as u64) {
        Some(n) => Some(n as u32),
        None => None,
    }
}

fn parse_signed_range(s: &[char], sign: char) -> (r: Option<(u32, u32)>)
    ensures
        match r {
            Some((a, b)) => signed_range_of(s@, sign) == Some((a as nat, b as nat)),
            None => signed_range_of(s@, sign) is None,
        },
{
    if s.len() == 0 || s[0] != sign {
        return None;
    }
    let body: &[char] = slice_subrange(s, 1, s.len());
    assert(body@ == s@.skip(1));
    let n: usize = text::position(body, ',');
    if n < body.len() {
        assert(body@.subrange(0, n as int) == body@.take(n as int));
        assert(body@.subrange(n + 1, body@.len() as int) == body@.skip(n + 1));
        match (
            parse_u32(slice_subrange(body, 0, n)),
            parse_u32(slice_subrange(body, n + 1, body.len())),
        ) {
            (Some(a), Some(b)) => Some((a, b)),
            _ => None,
        }
    } else {
        match parse_u32(body) {
            Some(a) => Some((a, 1)),
            None => None,
        }
    }
}

fn parse_header(s: &[char]) -> (r: Option<(u32, u32, u32, u32)>)
    ensures
        match r {
            Some((a, b, c, d)) => hunk_header(s@) == Some((a as nat, b as nat, c as nat, d as nat)),
            None => hunk_header(s@) is None,
        },
{
    if !text::starts_with(s, "@@ ") {
        return None;
    }
    proof {
        reveal_strlit("@@ ");
    }
    let body: &[char] = slice_subrange(s, 3, s.len());
    assert(body@ == s@.skip(3));
    let close: usize = match text::find(body, " @@") {
        Some(i) => i,
        None => return None,
    };
    proof {
        let c = choose|i: int| text::first_at(body@, " @@"@, i);
        assert(text::first_at(body@, " @@"@, close as int));
        assert(c == close);
        assert(text::occurs_at(body@, " @@"@, close as int));
    }
    assert(body@.subrange(0, close as int) == body@.take(close as int));
    let words: Vec<Vec<char>> = text::words(slice_subrange(body, 0, close));
    if words.len() < 2 {
        return None;
    }
    let ghost ws = text::words_of(body@.take(close as int));
    assert(ws[0] == words@[0]@ && ws[1] == words@[1]@);
    match (parse_signed_range(&words[0], '-'), parse_signed_range(&words[1], '+')) {
        (Some((a, b)), Some((c, d))) => Some((a, b, c, d)),
        _ => None,
    }
}

/// Reads `@@ -a,b +c,d @@`, with anything behind it, as `(a, b, c, d)`. A
/// count that is left out is one.
pub fn parse_hunk_header(s: &str) -> (r: Option<(u32, u32, u32, u32)>)
    ensures
        match r {
            Some((a, b, c, d)) => hunk_header(s@) == Some((a as nat, b as nat, c as nat, d as nat)),
            None => hunk_header(s@) is None,
        },
{
    parse_header(&text::chars(s))
}

/// What a line of a hunk's body is, by its first character.
pub enum LineKind {
    Added,
    Removed,
    /// In both files. A blank line without its space counts as one.
    Context,
    /// A remark of git, or anything else: in neither file.
    Other,
}

pub open spec fn line_kind(line: Seq<char>) -> LineKind {
    if line.len() == 0 || line[0] == ' ' {
        LineKind::Context
    } else if line[0] == '+' {
        LineKind::Added
    } else if line[0] == '-' {
        LineKind::Removed
    } else {
        LineKind::Other
    }
}

/// The line without the character that says what it is.
pub open spec fn line_text(line: Seq<char>) -> Seq<char> {
    if line.len() == 0 {
        line
    } else {
        line.skip(1)
    }
}

/// The lines of a hunk's body that stand in the old file.
pub open spec fn old_side(body: Seq<Seq<char>>) -> Seq<Seq<char>>
    decreases body.len(),
{
    if body.len() == 0 {
        Seq::empty()
    } else {
        match line_kind(body.last()) {
            LineKind::Removed | LineKind::Context => old_side(body.drop_last()).push(
                line_text(body.last()),
            ),
            _ => old_side(body.drop_last()),
        }
    }
}

/// The lines of a hunk's body that stand in the new file.
pub open spec fn new_side(body: Seq<Seq<char>>) -> Seq<Seq<char>>
    decreases body.len(),
{
    if body.len() == 0 {
        Seq::empty()
    } else {
        match line_kind(body.last()) {
            LineKind::Added | LineKind::Context => new_side(body.drop_last()).push(
                line_text(body.last()),
            ),
            _ => new_side(body.drop_last()),
        }
    }
}

/// The numbers of the added lines, where the hunk begins at line `start` of
/// the new file.
pub open spec fn added_at(body: Seq<Seq<char>>, start: nat) -> Seq<u32>
    decreases body.len(),
{
    if body.len() == 0 {
        Seq::empty()
    } else if line_kind(body.last()) is Added {
        added_at(body.drop_last(), start).push((start + new_side(body.drop_last()).len()) as u32)
    } else {
        added_at(body.drop_last(), start)
    }
}

/// The numbers of the removed lines, where the hunk begins at line `start` of
/// the old file.
pub open spec fn removed_at(body: Seq<Seq<char>>, start: nat) -> Seq<u32>
    decreases body.len(),
{
    if body.len() == 0 {
        Seq::empty()
    } else if line_kind(body.last()) is Removed {
        removed_at(body.drop_last(), start).push((start + old_side(body.drop_last()).len()) as u32)
    } else {
        removed_at(body.drop_last(), start)
    }
}

/// A hunk as it is written: where it begins in either file, and its body.
#[verifier::ext_equal]
pub struct RawHunk {
    pub old_start: nat,
    pub new_start: nat,
    pub body: Seq<Seq<char>>,
}

/// No line of the hunk has a number too large to be held.
pub open spec fn hunk_fits(h: RawHunk) -> bool {
    &&& h.old_start + old_side(h.body).len() <= u32::MAX
    &&& h.new_start + new_side(h.body).len() <= u32::MAX
}

/// The hunk of the file `key` that is written as `h`.
pub open spec fn hunk_of(h: RawHunk, key: Seq<char>) -> HunkView {
    HunkView {
        id: hunk_id(key, h.new_start),
        old_range: LineRange {
            start: h.old_start as u32,
            count: old_side(h.body).len() as u32,
        },
        new_range: LineRange {
            start: h.new_start as u32,
            count: new_side(h.body).len() as u32,
        },
        old_lines: old_side(h.body),
        new_lines: new_side(h.body),
        added: added_at(h.body, h.new_start).len() as u32,
        removed: removed_at(h.body, h.old_start).len() as u32,
        added_lines: added_at(h.body, h.new_start),
        removed_lines: removed_at(h.body, h.old_start),
    }
}

/// A line that begins a hunk.
pub open spec fn is_header(line: Seq<char>) -> bool {
    text::begins(line, "@@ "@)
}

/// A line that ends a hunk's body.
pub open spec fn ends_body(line: Seq<char>) -> bool {
    is_header(line) || text::begins(line, "diff --git "@)
}

/// How many lines the body has that these lines begin with.
pub open spec fn body_len(ls: Seq<Seq<char>>) -> nat {
    before_first(ls, |l: Seq<char>| ends_body(l))
}

/// The hunks in these lines, of which the first is a header. A header that
/// cannot be read ends them.
pub open spec fn raw_hunks(ls: Seq<Seq<char>>) -> Seq<RawHunk>
    decreases ls.len(),
{
    if ls.len() == 0 {
        Seq::empty()
    } else {
        match hunk_header(ls[0]) {
            None => Seq::empty(),
            Some((old_start, _, new_start, _)) => {
                let n: int = body_len(ls.skip(1)) as int;
                let rest = ls.skip(1 + n);
                let hunk = RawHunk { old_start, new_start, body: ls.subrange(1, 1 + n) };
                if n < ls.len() - 1 && is_header(rest[0]) {
                    seq![hunk] + raw_hunks(rest)
                } else {
                    seq![hunk]
                }
            },
        }
    }
}

/// How many lines stand before the first hunk of a file section.
pub open spec fn preamble_len(ls: Seq<Seq<char>>) -> nat {
    before_first(ls, |l: Seq<char>| is_header(l))
}

/// The hunks in the lines of a file section.
pub open spec fn section_hunks(ls: Seq<Seq<char>>) -> Seq<RawHunk> {
    raw_hunks(ls.skip(preamble_len(ls) as int))
}

/// What a file section of a unified diff holds.
#[verifier::ext_equal]
pub struct ParsedFileView {
    pub old_path: Seq<char>,
    pub new_path: Seq<char>,
    pub hunks: Seq<HunkView>,
}

/// The path under which a file is known: the new one, or the old one of a file
/// that was deleted.
pub open spec fn known_path(old_path: Seq<char>, new_path: Seq<char>) -> Seq<char> {
    if new_path == "/dev/null"@ {
        old_path
    } else {
        new_path
    }
}

/// The file section with these lines.
pub open spec fn section_of(ls: Seq<Seq<char>>) -> ParsedFileView {
    let preamble = ls.take(preamble_len(ls) as int);
    let old_path = header_path(preamble, "--- "@);
    let new_path = header_path(preamble, "+++ "@);
    let raw = section_hunks(ls);
    ParsedFileView {
        old_path,
        new_path,
        hunks: raw.map_values(|h: RawHunk| hunk_of(h, known_path(old_path, new_path))),
    }
}

/// No line of the section has a number too large to be held.
pub open spec fn section_fits(ls: Seq<Seq<char>>) -> bool {
    forall|i: int|
        0 <= i < section_hunks(ls).len() ==> hunk_fits(#[trigger] section_hunks(ls)[i])
}

/// One file section of a unified diff.
#[derive(Debug)]
pub struct ParsedFile {
    /// The path behind `--- `, without git's prefix: `/dev/null` where the
    /// file is added.
    pub old_path: String,
    /// The path behind `+++ `, without git's prefix: `/dev/null` where the
    /// file is deleted.
    pub new_path: String,
    pub hunks: Vec<Hunk>,
}

impl View for ParsedFile {
    type V = ParsedFileView;

    open spec fn view(&self) -> ParsedFileView {
        ParsedFileView {
            old_path: self.old_path@,
            new_path: self.new_path@,
            hunks: text::views(self.hunks@),
        }
    }
}

impl ParsedFile {
    /// The path under which the file's hunks are looked up.
    pub fn lookup_key(&self) -> (r: String)
        ensures
            r@ == known_path(self@.old_path, self@.new_path),
    {
        if text::str_same(self.new_path.as_str(), "/dev/null") {
            self.old_path.clone()
        } else {
            self.new_path.clone()
        }
    }
}

/// Reads the body of a hunk from line `from` on. The second result is the
/// first line behind it. `None` where a line number cannot be held.
fn read_body(
    lines: &Vec<Vec<char>>,
    from: usize,
    key: &str,
    old_start: u32,
    new_start: u32,
) -> (r: Option<(Hunk, usize)>)
    requires
        from <= lines@.len(),
    ensures
        ({
            let rest = text::views(lines@).skip(from as int);
            let h = RawHunk {
                old_start: old_start as nat,
                new_start: new_start as nat,
                body: rest.take(body_len(rest) as int),
            };
            match r {
                Some((hunk, end)) => hunk_fits(h) && hunk@ == hunk_of(h, key@) && end == from
                    + body_len(rest) && end <= lines@.len(),
                None => !hunk_fits(h),
            }
        }),
{
    let ghost rest = text::views(lines@).skip(from as int);
    let ghost stop = |l: Seq<char>| ends_body(l);
    let mut old_lines: Vec<String> = Vec::new();
    let mut new_lines: Vec<String> = Vec::new();
    let mut added_lines: Vec<u32> = Vec::new();
    let mut removed_lines: Vec<u32> = Vec::new();
    let mut old_lineno: u32 = old_start;
    let mut new_lineno: u32 = new_start;
    let mut fits: bool = true;
    let mut i: usize = from;
    while i < lines.len() && !text::starts_with(&lines[i], "@@ ") && !text::starts_with(
        &lines[i],
        "diff --git ",
    )
        invariant
            from <= i <= lines.len(),
            rest == text::views(lines@).skip(from as int),
            forall|k: int| 0 <= k < i - from ==> !ends_body(#[trigger] rest[k]),
            ({
                let body = rest.take(i - from);
                if fits {
                    &&& text::views(old_lines@) == old_side(body)
                    &&& text::views(new_lines@) == new_side(body)
                    &&& added_lines@ == added_at(body, new_start as nat)
                    &&& removed_lines@ == removed_at(body, old_start as nat)
                    &&& old_lineno == old_start + old_lines@.len()
                    &&& new_lineno == new_start + new_lines@.len()
                } else {
                    ||| old_start + old_side(body).len() > u32::MAX
                    ||| new_start + new_side(body).len() > u32::MAX
                }
            }),
        decreases lines.len() - i,
    {
        let line: &Vec<char> = &lines[i];
        let ghost body = rest.take(i - from);
        let ghost next = rest.take(i + 1 - from);
        assert(next.drop_last() == body);
        assert(next.last() == line@);
        let old: bool = line.len() == 0 || line[0] == '-' || line[0] == ' ';
        let new: bool = line.len() == 0 || line[0] == '+' || line[0] == ' ';
        if (old && old_lineno == u32::MAX) || (new && new_lineno == u32::MAX) {
            fits = false;
        }
        if fits {
            let rest_of_line: &[char] = if line.len() == 0 {
                line
            } else {
                slice_subrange(line, 1, line.len())
            };
            assert(rest_of_line@ == line_text(line@));
            if new && !old {
                added_lines.push(new_lineno);
            }
            if old && !new {
                removed_lines.push(old_lineno);
            }
            let ghost old_before = old_lines@;
            let ghost new_before = new_lines@;
            if old {
                let l: String = text::string(rest_of_line);
                old_lines.push(l);
                old_lineno = old_lineno + 1;
                proof {
                    text::lemma_views_push(old_before, l);
                }
            }
            if new {
                let l: String = text::string(rest_of_line);
                new_lines.push(l);
                new_lineno = new_lineno + 1;
                proof {
                    text::lemma_views_push(new_before, l);
                }
            }
        }
        i = i + 1;
    }
    proof {
        let n = i - from;
        assert(n < rest.len() ==> rest[n] == lines@[i as int]@);
        assert forall|k: int| 0 <= k < n implies !stop(#[trigger] rest[k]) by {
            assert(!ends_body(rest[k]));
        }
        lemma_before_first(rest, stop, n);
        lemma_counts(rest.take(n), old_start as nat, new_start as nat);
    }
    if !fits {
        return None;
    }
    let hunk = Hunk {
        id: HunkId::for_hunk(key, new_start),
        old_range: LineRange { start: old_start, count: old_lineno - old_start },
        new_range: LineRange { start: new_start, count: new_lineno - new_start },
        added: added_lines.len() as u32,
        removed: removed_lines.len() as u32,
        old_lines,
        new_lines,
        added_lines,
        removed_lines,
    };
    Some((hunk, i))
}

/// No more lines are added than stand in the new file, nor removed than stood
/// in the old one.
proof fn lemma_counts(body: Seq<Seq<char>>, old_start: nat, new_start: nat)
    ensures
        added_at(body, new_start).len() <= new_side(body).len(),
        removed_at(body, old_start).len() <= old_side(body).len(),
    decreases body.len(),
{
    if body.len() > 0 {
        lemma_counts(body.drop_last(), old_start, new_start);
    }
}

/// Reads the hunks of a file section from line `from` on. `None` where a line
/// number cannot be held.
fn read_hunks(lines: &Vec<Vec<char>>, from: usize, key: &str) -> (r: Option<Vec<Hunk>>)
    requires
        from <= lines@.len(),
    ensures
        ({
            let raw = raw_hunks(text::views(lines@).skip(from as int));
            let fits = forall|i: int| 0 <= i < raw.len() ==> hunk_fits(#[trigger] raw[i]);
            match r {
                Some(hunks) => fits && text::views(hunks@) == raw.map_values(
                    |h: RawHunk| hunk_of(h, key@),
                ),
                None => !fits,
            }
        }),
{
    let ghost ls = text::views(lines@);
    let ghost raw = raw_hunks(ls.skip(from as int));
    let ghost mut done: Seq<RawHunk> = Seq::empty();
    let mut hunks: Vec<Hunk> = Vec::new();
    let mut at: usize = from;
    assert(raw == done + raw_hunks(ls.skip(at as int)));
    while at < lines.len()
        invariant
            at <= lines.len(),
            ls == text::views(lines@),
            raw == raw_hunks(text::views(lines@).skip(from as int)),
            raw == done + raw_hunks(ls.skip(at as int)),
            forall|i: int| 0 <= i < done.len() ==> hunk_fits(#[trigger] done[i]),
            text::views(hunks@) == done.map_values(|h: RawHunk| hunk_of(h, key@)),
        decreases lines.len() - at,
    {
        let ghost here = ls.skip(at as int);
        assert(here[0] == lines@[at as int]@);
        match parse_header(&lines[at]) {
            None => {
                assert(raw =~= done);
                at = lines.len();
            },
            Some((old_start, _, new_start, _)) => {
                assert(here.skip(1) == ls.skip(at + 1));
                let ghost n = body_len(here.skip(1)) as int;
                let ghost h = RawHunk {
                    old_start: old_start as nat,
                    new_start: new_start as nat,
                    body: here.subrange(1, 1 + n),
                };
                let body = read_body(lines, at + 1, key, old_start, new_start);
                proof {
                    lemma_before_first_bound(here.skip(1), |l: Seq<char>| ends_body(l));
                    assert(here.skip(1).take(n) == here.subrange(1, 1 + n));
                    assert(raw_hunks(here)[0] == h);
                    assert(raw[done.len() as int] == h);
                }
                match body {
                    None => {
                        return None;
                    },
                    Some((hunk, end)) => {
                        let ghost before = hunks@;
                        hunks.push(hunk);
                        proof {
                            text::lemma_views_push(before, hunk);
                            assert(here.skip(1 + n) == ls.skip(end as int));
                            if end < lines@.len() {
                                assert(here.skip(1 + n)[0] == lines@[end as int]@);
                            }
                            let more = done.push(h);
                            assert(more.map_values(|h: RawHunk| hunk_of(h, key@))
                                =~= done.map_values(|h: RawHunk| hunk_of(h, key@)).push(
                                hunk_of(h, key@),
                            ));
                            done = more;
                        }
                        if end < lines.len() && text::starts_with(&lines[end], "@@ ") {
                            at = end;
                            assert(raw =~= done + raw_hunks(ls.skip(at as int)));
                        } else {
                            at = lines.len();
                            assert(raw =~= done);
                        }
                    },
                }
            },
        }
        if at == lines.len() {
            assert(done + raw_hunks(ls.skip(at as int)) =~= done);
        }
    }
    assert(raw =~= done);
    Some(hunks)
}

proof fn lemma_before_first_bound(ls: Seq<Seq<char>>, stop: spec_fn(Seq<char>) -> bool)
    ensures
        before_first(ls, stop) <= ls.len(),
    decreases ls.len(),
{
    if ls.len() > 0 && !stop(ls[0]) {
        lemma_before_first_bound(ls.drop_first(), stop);
    }
}

/// Reads one file section. `None` where a line number cannot be held.
fn parse_file_section(section: &[char]) -> (r: Option<ParsedFile>)
    ensures
        match r {
            Some(p) => section_fits(text::lines_of(section@)) && p@ == section_of(
                text::lines_of(section@),
            ),
            None => !section_fits(text::lines_of(section@)),
        },
{
    let lines: Vec<Vec<char>> = text::lines(section);
    let ghost ls = text::views(lines@);
    let mut old_path: String = String::new();
    let mut new_path: String = String::new();
    let mut i: usize = 0;
    proof {
        reveal_strlit("--- ");
        reveal_strlit("+++ ");
        assert(old_path@ =~= Seq::<char>::empty());
        assert(new_path@ =~= Seq::<char>::empty());
    }
    while i < lines.len() && !text::starts_with(&lines[i], "@@ ")
        invariant
            i <= lines.len(),
            ls == text::views(lines@),
            "--- "@.len() == 4,
            "+++ "@.len() == 4,
            "--- "@[0] != "+++ "@[0],
            forall|k: int| 0 <= k < i ==> !is_header(#[trigger] ls[k]),
            old_path@ == header_path(ls.take(i as int), "--- "@),
            new_path@ == header_path(ls.take(i as int), "+++ "@),
        decreases lines.len() - i,
    {
        let line: &Vec<char> = &lines[i];
        let ghost next = ls.take(i + 1);
        assert(next.drop_last() == ls.take(i as int));
        assert(next.last() == line@);
        if text::starts_with(line, "--- ") {
            assert(line@.subrange(4, line@.len() as int) == line@.skip(4));
            old_path = read_marked_path(slice_subrange(line, 4, line.len()));
            assert(!text::begins(line@, "+++ "@)) by {
                assert(line@.subrange(0, 4)[0] == "--- "@[0]);
            }
        } else if text::starts_with(line, "+++ ") {
            assert(line@.subrange(4, line@.len() as int) == line@.skip(4));
            new_path = read_marked_path(slice_subrange(line, 4, line.len()));
        }
        i = i + 1;
    }
    proof {
        let stop = |l: Seq<char>| is_header(l);
        assert(i < ls.len() ==> ls[i as int] == lines@[i as int]@);
        assert forall|k: int| 0 <= k < i implies !stop(#[trigger] ls[k]) by {
            assert(!is_header(ls[k]));
        }
        lemma_before_first(ls, stop, i as int);
    }
    let key: &str = if text::str_same(new_path.as_str(), "/dev/null") {
        old_path.as_str()
    } else {
        new_path.as_str()
    };
    let ghost raw = section_hunks(ls);
    match read_hunks(&lines, i, key) {
        None => {
            assert(!section_fits(ls));
            None
        },
        Some(hunks) => {
            let p = ParsedFile { old_path, new_path, hunks };
            assert(p@.hunks =~= section_of(ls).hunks);
            assert(section_fits(ls));
            Some(p)
        },
    }
}

/// A file section begins at position `p` of a unified diff.
pub open spec fn is_section_start(s: Seq<char>, p: int) -> bool {
    text::occurs_at(s, "diff --git "@, p) && (p == 0 || s[p - 1] == '\n')
}

/// The positions below `n` at which file sections begin.
pub open spec fn section_starts(s: Seq<char>, n: nat) -> Seq<int>
    decreases n,
{
    if n == 0 {
        Seq::empty()
    } else if is_section_start(s, n - 1) {
        section_starts(s, (n - 1) as nat).push(n - 1)
    } else {
        section_starts(s, (n - 1) as nat)
    }
}

/// The file sections of a unified diff: each reaches to the next, the last to
/// the end.
pub open spec fn sections_of(s: Seq<char>) -> Seq<Seq<char>> {
    let starts = section_starts(s, s.len());
    Seq::new(
        starts.len(),
        |i: int|
            s.subrange(
                starts[i],
                if i + 1 < starts.len() {
                    starts[i + 1]
                } else {
                    s.len() as int
                },
            ),
    )
}

proof fn lemma_section_starts(s: Seq<char>, n: nat)
    ensures
        forall|i: int|
            0 <= i < section_starts(s, n).len() ==> 0 <= #[trigger] section_starts(s, n)[i] < n,
        forall|i: int, j: int|
            0 <= i < j < section_starts(s, n).len() ==> section_starts(s, n)[i] < section_starts(
                s,
                n,
            )[j],
    decreases n,
{
    if n > 0 {
        lemma_section_starts(s, (n - 1) as nat);
        let shorter = section_starts(s, (n - 1) as nat);
        let all = section_starts(s, n);
        assert forall|i: int| 0 <= i < all.len() implies 0 <= #[trigger] all[i] < n by {
            assert(i < shorter.len() ==> all[i] == shorter[i]);
        }
        assert forall|i: int, j: int| 0 <= i < j < all.len() implies all[i] < all[j] by {
            assert(all[i] == shorter[i]);
            assert(j < shorter.len() ==> all[j] == shorter[j]);
        }
    }
}

fn file_sections(s: &[char]) -> (r: Vec<Vec<char>>)
    ensures
        text::views(r@) == sections_of(s@),
{
    let needle: Vec<char> = text::chars("diff --git ");
    let mut starts: Vec<usize> = Vec::new();
    let mut i: usize = 0;
    while i < s.len()
        invariant
            i <= s.len(),
            needle@ == "diff --git "@,
            starts@.map_values(|p: usize| p as int) == section_starts(s@, i as nat),
        decreases s.len() - i,
    {
        let ghost before = starts@;
        if (i == 0 || s[i - 1] == '\n') && text::stands_at(s, &needle, i) {
            starts.push(i);
            assert(starts@.map_values(|p: usize| p as int) =~= before.map_values(
                |p: usize| p as int,
            ).push(i as int));
        }
        i = i + 1;
    }
    let ghost all = section_starts(s@, s@.len());
    proof {
        lemma_section_starts(s@, s@.len());
        assert(all == starts@.map_values(|p: usize| p as int));
        assert forall|k: int| 0 <= k < starts@.len() implies starts@[k] as int == all[k] by {}
    }
    let mut out: Vec<Vec<char>> = Vec::new();
    let mut k: usize = 0;
    while k < starts.len()
        invariant
            k <= starts.len() == all.len(),
            all == section_starts(s@, s@.len()),
            forall|j: int| 0 <= j < starts@.len() ==> starts@[j] as int == #[trigger] all[j],
            forall|j: int| 0 <= j < all.len() ==> 0 <= #[trigger] all[j] < s@.len(),
            forall|j: int, l: int| 0 <= j < l < all.len() ==> all[j] < all[l],
            text::views(out@) == sections_of(s@).take(k as int),
        decreases starts.len() - k,
    {
        let end: usize = if k + 1 < starts.len() {
            starts[k + 1]
        } else {
            s.len()
        };
        assert(starts@[k as int] as int == all[k as int]);
        assert(k + 1 < starts@.len() ==> starts@[k + 1] as int == all[k + 1]);
        let ghost before = out@;
        let section: Vec<char> = vstd::slice::slice_to_vec(slice_subrange(s, starts[k], end));
        out.push(section);
        proof {
            text::lemma_views_push(before, section);
            assert(sections_of(s@)[k as int] == section@);
            assert(sections_of(s@).take(k + 1) =~= sections_of(s@).take(k as int).push(section@));
        }
        k = k + 1;
    }
    assert(sections_of(s@).take(k as int) =~= sections_of(s@));
    out
}

/// Splits a unified diff into its file sections, each of which begins with
/// `diff --git `.
pub fn split_into_file_sections(s: &str) -> (r: Vec<String>)
    ensures
        text::views(r@) == sections_of(s@),
{
    let sections: Vec<Vec<char>> = file_sections(&text::chars(s));
    let ghost all = text::views(sections@);
    let mut out: Vec<String> = Vec::new();
    let mut i: usize = 0;
    while i < sections.len()
        invariant
            i <= sections.len(),
            all == text::views(sections@),
            text::views(out@) == all.take(i as int),
        decreases sections.len() - i,
    {
        let ghost before = out@;
        let section: String = text::string(&sections[i]);
        out.push(section);
        proof {
            text::lemma_views_push(before, section);
            assert(all.take(i + 1) =~= all.take(i as int).push(section@));
        }
        i = i + 1;
    }
    assert(all.take(i as int) =~= all);
    out
}

/// What the file sections of a unified diff hold, in order.
pub open spec fn unified_of(s: Seq<char>) -> Seq<ParsedFileView> {
    sections_of(s).map_values(|t: Seq<char>| section_of(text::lines_of(t)))
}

/// No line of the diff has a number too large to be held.
pub open spec fn unified_fits(s: Seq<char>) -> bool {
    forall|i: int|
        0 <= i < sections_of(s).len() ==> section_fits(text::lines_of(#[trigger] sections_of(s)[i]))
}

/// Reads a unified diff into the hunks of its files. `None` where a line
/// number is too large to be held.
pub fn checked_parse_unified_diff(s: &str) -> (r: Option<Vec<ParsedFile>>)
    ensures
        match r {
            Some(files) => unified_fits(s@) && text::views(files@) == unified_of(s@),
            None => !unified_fits(s@),
        },
{
    let sections: Vec<Vec<char>> = file_sections(&text::chars(s));
    let ghost all = sections_of(s@);
    let mut out: Vec<ParsedFile> = Vec::new();
    let mut i: usize = 0;
    while i < sections.len()
        invariant
            i <= sections.len(),
            all == sections_of(s@),
            all == text::views(sections@),
            forall|k: int| 0 <= k < i ==> section_fits(text::lines_of(#[trigger] all[k])),
            text::views(out@) == unified_of(s@).take(i as int),
        decreases sections.len() - i,
    {
        assert(all[i as int] == sections@[i as int]@);
        match parse_file_section(&sections[i]) {
            None => {
                return None;
            },
            Some(p) => {
                let ghost before = out@;
                out.push(p);
                proof {
                    text::lemma_views_push(before, p);
                    assert(unified_of(s@).take(i + 1) =~= unified_of(s@).take(i as int).push(p@));
                }
            },
        }
        i = i + 1;
    }
    assert(unified_of(s@).take(i as int) =~= unified_of(s@));
    Some(out)
}

/// Reads a unified diff into the hunks of its files.
///
/// The parser is forgiving: a line inside a hunk that it does not recognise is
/// left out. A section without hunks (a binary file, a change of mode, a pure
/// rename) still gives a file.
pub fn parse_unified_diff(s: &str) -> (r: Vec<ParsedFile>)
    requires
        unified_fits(s@),
    ensures
        text::views(r@) == unified_of(s@),
{
    match checked_parse_unified_diff(s) {
        Some(files) => files,
        None => Vec::new(),
    }
}


// --- raw output ----------------------------------------------------------

/// Why the output of `git diff` cannot be read.
#[derive(Debug)]
pub enum DiffError {
    /// Where an entry of the raw output should begin, something else stands.
    UnexpectedToken(String),
    /// A status code is empty.
    EmptyStatus,
    /// A status code that git does not document.
    UnknownStatus(String),
    /// An entry of the raw output has no path.
    MissingPath,
    /// A rename or copy in the raw output has no new path.
    MissingNewPath,
    /// A line number of the unified output is too large to be held.
    LineNumbers,
}

pub enum DiffErrorView {
    UnexpectedToken(Seq<char>),
    EmptyStatus,
    UnknownStatus(Seq<char>),
    MissingPath,
    MissingNewPath,
    LineNumbers,
}

impl View for DiffError {
    type V = DiffErrorView;

    open spec fn view(&self) -> DiffErrorView {
        match self {
            DiffError::UnexpectedToken(t) => DiffErrorView::UnexpectedToken(t@),
            DiffError::EmptyStatus => DiffErrorView::EmptyStatus,
            DiffError::UnknownStatus(c) => DiffErrorView::UnknownStatus(c@),
            DiffError::MissingPath => DiffErrorView::MissingPath,
            DiffError::MissingNewPath => DiffErrorView::MissingNewPath,
            DiffError::LineNumbers => DiffErrorView::LineNumbers,
        }
    }
}

/// An entry of the raw output.
#[derive(Debug)]
pub struct RawEntry {
    pub status: FileStatus,
    /// The current path; the old one where the file is deleted.
    pub path: String,
    /// The previous path of a file that was renamed or copied.
    pub old_path: Option<String>,
}

#[verifier::ext_equal]
pub struct RawEntryView {
    pub status: FileStatus,
    pub path: Seq<char>,
    pub old_path: Option<Seq<char>>,
}

impl View for RawEntry {
    type V = RawEntryView;

    open spec fn view(&self) -> RawEntryView {
        RawEntryView {
            status: self.status,
            path: self.path@,
            old_path: text::opt_view(self.old_path),
        }
    }
}

/// The similarity score behind the letter of a status code; zero where there
/// is none.
pub open spec fn similarity_of(code: Seq<char>) -> u8 {
    match text::number(code.skip(1), 255) {
        Some(n) => n as u8,
        None => 0,
    }
}

/// The status that a status code means, and how many paths follow it. A change
/// of type counts as a modification, a copy as a rename.
pub open spec fn status_of(code: Seq<char>) -> Result<(FileStatus, int), DiffErrorView> {
    if code.len() == 0 {
        Err(DiffErrorView::EmptyStatus)
    } else if code[0] == 'A' {
        Ok((FileStatus::Added, 1))
    } else if code[0] == 'M' || code[0] == 'T' {
        Ok((FileStatus::Modified, 1))
    } else if code[0] == 'D' {
        Ok((FileStatus::Deleted, 1))
    } else if code[0] == 'R' || code[0] == 'C' {
        Ok((FileStatus::Renamed { similarity: similarity_of(code) }, 2))
    } else {
        Err(DiffErrorView::UnknownStatus(code))
    }
}

fn parse_status_code(code: &[char]) -> (r: Result<(FileStatus, usize), DiffError>)
    ensures
        match (r, status_of(code@)) {
            (Ok((s, n)), Ok((t, m))) => s == t && n == m,
            (Err(e), Err(f)) => e@ == f,
            _ => false,
        },
{
    if code.len() == 0 {
        return Err(DiffError::EmptyStatus);
    }
    assert(code@.subrange(1, code@.len() as int) == code@.skip(1));
    let similarity: u8 = match text::parse_number(slice_subrange(code, 1, code.len()), 255) {
        Some(n) => n as u8,
        None => 0,
    };
    let first: char = code[0];
    if first == 'A' {
        Ok((FileStatus::Added, 1))
    } else if first == 'M' || first == 'T' {
        Ok((FileStatus::Modified, 1))
    } else if first == 'D' {
        Ok((FileStatus::Deleted, 1))
    } else if first == 'R' || first == 'C' {
        Ok((FileStatus::Renamed { similarity }, 2))
    } else {
        Err(DiffError::UnknownStatus(text::string(code)))
    }
}

/// The elements that are not empty, in order.
pub open spec fn nonempty(ts: Seq<Seq<char>>) -> Seq<Seq<char>>
    decreases ts.len(),
{
    if ts.len() == 0 {
        Seq::empty()
    } else if ts.last().len() == 0 {
        nonempty(ts.drop_last())
    } else {
        nonempty(ts.drop_last()).push(ts.last())
    }
}

/// The entries that these tokens of the raw output make up. Each begins with a
/// header, a colon and the modes, hashes and status code, and goes on with one
/// path, or two for a rename or copy.
pub open spec fn entries_of(ts: Seq<Seq<char>>) -> Result<Seq<RawEntryView>, DiffErrorView>
    decreases ts.len(),
{
    if ts.len() == 0 {
        Ok(Seq::empty())
    } else if !text::begins(ts[0], ":"@) {
        Err(DiffErrorView::UnexpectedToken(ts[0]))
    } else {
        match status_of(text::words_of(ts[0]).last()) {
            Err(e) => Err(e),
            Ok((status, paths)) => if ts.len() < 2 {
                Err(DiffErrorView::MissingPath)
            } else if paths == 2 {
                if ts.len() < 3 {
                    Err(DiffErrorView::MissingNewPath)
                } else {
                    preceded(
                        RawEntryView { status, path: ts[2], old_path: Some(ts[1]) },
                        entries_of(ts.skip(3)),
                    )
                }
            } else {
                preceded(
                    RawEntryView { status, path: ts[1], old_path: None },
                    entries_of(ts.skip(2)),
                )
            },
        }
    }
}

pub open spec fn preceded(
    e: RawEntryView,
    rest: Result<Seq<RawEntryView>, DiffErrorView>,
) -> Result<Seq<RawEntryView>, DiffErrorView> {
    match rest {
        Ok(es) => Ok(seq![e] + es),
        Err(f) => Err(f),
    }
}

/// The entries of the raw output `s`, whose tokens a NUL character ends.
pub open spec fn raw_entries_of(s: Seq<char>) -> Result<Seq<RawEntryView>, DiffErrorView> {
    entries_of(nonempty(text::split(s, '\0')))
}

/// Puts what was read before in front.
spec fn prefixed(
    before: Seq<RawEntryView>,
    rest: Result<Seq<RawEntryView>, DiffErrorView>,
) -> Result<Seq<RawEntryView>, DiffErrorView> {
    match rest {
        Ok(es) => Ok(before + es),
        Err(f) => Err(f),
    }
}

/// Reads the raw output of `git diff`.
pub fn parse_raw_entries(s: &str) -> (r: Result<Vec<RawEntry>, DiffError>)
    ensures
        match (r, raw_entries_of(s@)) {
            (Ok(es), Ok(fs)) => text::views(es@) == fs,
            (Err(e), Err(f)) => e@ == f,
            _ => false,
        },
{
    let pieces: Vec<Vec<char>> = text::split_at_each(&text::chars(s), '\0');
    let ghost all = text::views(pieces@);
    let mut tokens: Vec<&Vec<char>> = Vec::new();
    let mut i: usize = 0;
    while i < pieces.len()
        invariant
            i <= pieces.len(),
            all == text::views(pieces@),
            text::views(tokens@) == nonempty(all.take(i as int)),
        decreases pieces.len() - i,
    {
        assert(all.take(i + 1).drop_last() == all.take(i as int));
        assert(all.take(i + 1).last() == pieces@[i as int]@);
        if pieces[i].len() > 0 {
            let ghost before = tokens@;
            tokens.push(&pieces[i]);
            proof {
                text::lemma_views_push(before, &pieces@[i as int]);
            }
        }
        i = i + 1;
    }
    assert(all.take(i as int) == all);
    let ghost ts = text::views(tokens@);
    let mut entries: Vec<RawEntry> = Vec::new();
    let mut at: usize = 0;
    proof {
        reveal_strlit(":");
        assert(ts.skip(0) == ts);
        assert(prefixed(text::views(entries@), entries_of(ts)) =~= entries_of(ts));
    }
    while at < tokens.len()
        invariant
            at <= tokens.len(),
            ts == text::views(tokens@),
            raw_entries_of(s@) == entries_of(ts),
            entries_of(ts) == prefixed(text::views(entries@), entries_of(ts.skip(at as int))),
            ":"@ == seq![':'],
        decreases tokens.len() - at,
    {
        let header: &Vec<char> = tokens[at];
        let ghost rest = ts.skip(at as int);
        assert(rest[0] == header@);
        if !text::starts_with(header, ":") {
            return Err(DiffError::UnexpectedToken(text::string(header)));
        }
        let words: Vec<Vec<char>> = text::words(header);
        proof {
            assert(header@.subrange(0, 1)[0] == ':');
            assert(words@.len() > 0) by {
                assert(text::word_len(header@) > 0);
                lemma_word_len_bound(header@);
                assert(text::words_of(header@).len() > 0);
            }
        }
        let last: usize = words.len() - 1;
        assert(text::words_of(header@).last() == words@[last as int]@);
        let (status, paths): (FileStatus, usize) = match parse_status_code(&words[last]) {
            Ok(p) => p,
            Err(e) => return Err(e),
        };
        if tokens.len() - at < 2 {
            return Err(DiffError::MissingPath);
        }
        assert(rest[1] == tokens@[at + 1]@);
        let ghost before = entries@;
        let entry: RawEntry;
        if paths == 2 {
            if tokens.len() - at < 3 {
                return Err(DiffError::MissingNewPath);
            }
            assert(rest[2] == tokens@[at + 2]@);
            assert(rest.skip(3) == ts.skip(at + 3));
            entry =
            RawEntry {
                status,
                path: text::string(tokens[at + 2]),
                old_path: Some(text::string(tokens[at + 1])),
            };
            at = at + 3;
        } else {
            assert(rest.skip(2) == ts.skip(at + 2));
            entry = RawEntry { status, path: text::string(tokens[at + 1]), old_path: None };
            at = at + 2;
        }
        entries.push(entry);
        proof {
            text::lemma_views_push(before, entry);
            let after = entries_of(ts.skip(at as int));
            assert(entries_of(rest) == preceded(entry@, after));
            if after is Ok {
                assert(text::views(before) + (seq![entry@] + after->Ok_0) =~= text::views(
                    entries@,
                ) + after->Ok_0);
            }
        }
    }
    assert(text::views(entries@) + Seq::<RawEntryView>::empty() =~= text::views(entries@));
    Ok(entries)
}

proof fn lemma_word_len_bound(s: Seq<char>)
    ensures
        text::word_len(s) <= s.len(),
    decreases s.len(),
{
    if s.len() > 0 && !text::is_space(s[0]) {
        lemma_word_len_bound(s.drop_first());
    }
}

// --- the diff ------------------------------------------------------------

/// The hunks of the last of these sections that is of the file at `path`.
pub open spec fn hunks_for(sections: Seq<ParsedFileView>, path: Seq<char>) -> Seq<HunkView>
    decreases sections.len(),
{
    if sections.len() == 0 {
        Seq::empty()
    } else if path::parts_of(known_path(sections.last().old_path, sections.last().new_path))
        == path::parts_of(path) {
        sections.last().hunks
    } else {
        hunks_for(sections.drop_last(), path)
    }
}

/// An entry before the one at `j` is of the same file.
pub open spec fn listed_before(entries: Seq<RawEntryView>, j: int) -> bool {
    exists|i: int|
        0 <= i < j && path::parts_of(#[trigger] entries[i].path) == path::parts_of(entries[j].path)
}

/// Where the diff comes from: the repository and the two commits.
#[verifier::ext_equal]
pub struct OriginView {
    pub repo_path: Seq<char>,
    pub base_sha: Seq<char>,
    pub head_sha: Seq<char>,
}

/// The file of entry `j`. Its hunks are those of the section of its path; an
/// entry that lists the same file again has none.
pub open spec fn file_of(
    origin: OriginView,
    entries: Seq<RawEntryView>,
    sections: Seq<ParsedFileView>,
    j: int,
) -> FileDiffView {
    FileDiffView {
        path: entries[j].path,
        old_path: entries[j].old_path,
        status: entries[j].status,
        language: lang::detected(entries[j].path),
        hunks: if listed_before(entries, j) {
            Seq::empty()
        } else {
            hunks_for(sections, entries[j].path)
        },
        old_content: None,
        new_content: None,
        repo_path: origin.repo_path,
        base_sha: origin.base_sha,
        head_sha: origin.head_sha,
    }
}

/// The diff that the two outputs of git describe.
pub open spec fn diff_of(origin: OriginView, raw: Seq<char>, unified: Seq<char>) -> Result<
    DiffView,
    DiffErrorView,
> {
    match raw_entries_of(raw) {
        Err(e) => Err(e),
        Ok(entries) => if unified_fits(unified) {
            Ok(
                DiffView {
                    base_sha: origin.base_sha,
                    head_sha: origin.head_sha,
                    files: Seq::new(
                        entries.len(),
                        |j: int| file_of(origin, entries, unified_of(unified), j),
                    ),
                },
            )
        } else {
            Err(DiffErrorView::LineNumbers)
        },
    }
}

fn take_hunks(sections: &Vec<ParsedFile>, path: &str) -> (r: Vec<Hunk>)
    ensures
        text::views(r@) == hunks_for(text::views(sections@), path@),
{
    let ghost all = text::views(sections@);
    let mut i: usize = sections.len();
    assert(all.take(i as int) == all);
    while i > 0
        invariant
            i <= sections.len(),
            all == text::views(sections@),
            hunks_for(all, path@) == hunks_for(all.take(i as int), path@),
        decreases i,
    {
        let section: &ParsedFile = &sections[i - 1];
        assert(all.take(i as int).last() == section@);
        assert(all.take(i as int).drop_last() == all.take(i - 1));
        if path::same(section.lookup_key().as_str(), path) {
            return clone_hunks(&section.hunks);
        }
        i = i - 1;
    }
    let none: Vec<Hunk> = Vec::new();
    assert(text::views(none@) =~= Seq::<HunkView>::empty());
    none
}

pub(crate) fn clone_hunks(hunks: &Vec<Hunk>) -> (r: Vec<Hunk>)
    ensures
        text::views(r@) == text::views(hunks@),
{
    let ghost all = text::views(hunks@);
    let mut out: Vec<Hunk> = Vec::new();
    let mut i: usize = 0;
    while i < hunks.len()
        invariant
            i <= hunks.len(),
            all == text::views(hunks@),
            text::views(out@) == all.take(i as int),
        decreases hunks.len() - i,
    {
        let ghost before = out@;
        let h: Hunk = hunks[i].clone();
        out.push(h);
        proof {
            text::lemma_views_push(before, h);
            assert(all.take(i + 1) =~= all.take(i as int).push(h@));
        }
        i = i + 1;
    }
    assert(all.take(i as int) =~= all);
    out
}

fn is_listed_before(entries: &Vec<RawEntry>, j: usize) -> (r: bool)
    requires
        j < entries@.len(),
    ensures
        r == listed_before(text::views(entries@), j as int),
{
    let ghost all = text::views(entries@);
    let mut i: usize = 0;
    while i < j
        invariant
            i <= j < entries.len(),
            all == text::views(entries@),
            forall|k: int|
                0 <= k < i ==> path::parts_of(#[trigger] all[k].path) != path::parts_of(
                    all[j as int].path,
                ),
        decreases j - i,
    {
        if path::same(entries[i].path.as_str(), entries[j].path.as_str()) {
            assert(path::parts_of(all[i as int].path) == path::parts_of(all[j as int].path));
            return true;
        }
        i = i + 1;
    }
    false
}

/// Joins the two outputs of `git diff` between the commits `base_sha` and
/// `head_sha` of the repository at `repo_path`: `raw`, the output with
/// `--raw -z`, and `unified`, the output with the hunks.
pub fn extract(
    repo_path: &str,
    base_sha: &str,
    head_sha: &str,
    raw: &str,
    unified: &str,
) -> (r: Result<Diff, DiffError>)
    ensures
        ({
            let origin = OriginView {
                repo_path: repo_path@,
                base_sha: base_sha@,
                head_sha: head_sha@,
            };
            match (r, diff_of(origin, raw@, unified@)) {
                (Ok(d), Ok(e)) => d@ == e,
                (Err(e), Err(f)) => e@ == f,
                _ => false,
            }
        }),
{
    let entries: Vec<RawEntry> = match parse_raw_entries(raw) {
        Ok(es) => es,
        Err(e) => return Err(e),
    };
    let sections: Vec<ParsedFile> = match checked_parse_unified_diff(unified) {
        Some(ps) => ps,
        None => return Err(DiffError::LineNumbers),
    };
    let ghost origin = OriginView {
        repo_path: repo_path@,
        base_sha: base_sha@,
        head_sha: head_sha@,
    };
    let ghost es = text::views(entries@);
    let ghost all = Seq::new(es.len(), |j: int| file_of(origin, es, unified_of(unified@), j));
    let mut files: Vec<FileDiff> = Vec::new();
    let mut j: usize = 0;
    while j < entries.len()
        invariant
            j <= entries.len(),
            es == text::views(entries@),
            text::views(sections@) == unified_of(unified@),
            origin == (OriginView {
                repo_path: repo_path@,
                base_sha: base_sha@,
                head_sha: head_sha@,
            }),
            all == Seq::new(es.len(), |j: int| file_of(origin, es, unified_of(unified@), j)),
            text::views(files@) == all.take(j as int),
        decreases entries.len() - j,
    {
        let entry: &RawEntry = &entries[j];
        let hunks: Vec<Hunk> = if is_listed_before(&entries, j) {
            Vec::new()
        } else {
            take_hunks(&sections, entry.path.as_str())
        };
        let file = FileDiff {
            path: entry.path.clone(),
            old_path: match &entry.old_path {
                Some(p) => Some(p.clone()),
                None => None,
            },
            status: entry.status,
            language: Language::detect(entry.path.as_str()),
            hunks,
            old_content: None,
            new_content: None,
            repo_path: repo_path.to_string(),
            base_sha: base_sha.to_string(),
            head_sha: head_sha.to_string(),
        };
        assert(file@.hunks =~= file_of(origin, es, unified_of(unified@), j as int).hunks);
        assert(file@ =~= all[j as int]);
        let ghost before = files@;
        files.push(file);
        proof {
            text::lemma_views_push(before, file);
            assert(all.take(j + 1) =~= all.take(j as int).push(file@));
        }
        j = j + 1;
    }
    assert(all.take(j as int) =~= all);
    Ok(Diff { base_sha: base_sha.to_string(), head_sha: head_sha.to_string(), files })
}

/// A file at a commit.
#[derive(Debug)]
pub struct Revision {
    pub sha: String,
    pub path: String,
}

#[verifier::ext_equal]
pub struct RevisionView {
    pub sha: Seq<char>,
    pub path: Seq<char>,
}

impl View for Revision {
    type V = RevisionView;

    open spec fn view(&self) -> RevisionView {
        RevisionView { sha: self.sha@, path: self.path@ }
    }
}

/// The revision whose content a file still lacks on the old side. A file that
/// no repository backs lacks none, nor does one that was added.
pub open spec fn wanted_old(f: FileDiffView) -> Option<RevisionView> {
    if f.base_sha.len() > 0 && !(f.status is Added) && f.old_content is None {
        Some(
            RevisionView {
                sha: f.base_sha,
                path: match f.old_path {
                    Some(p) => p,
                    None => f.path,
                },
            },
        )
    } else {
        None
    }
}

/// The revision whose content a file still lacks on the new side. A file that
/// no repository backs lacks none, nor does one that was deleted.
pub open spec fn wanted_new(f: FileDiffView) -> Option<RevisionView> {
    if f.base_sha.len() > 0 && !(f.status is Deleted) && f.new_content is None {
        Some(RevisionView { sha: f.head_sha, path: f.path })
    } else {
        None
    }
}

/// A file with what was loaded of its wanted contents.
pub open spec fn with_content(
    f: FileDiffView,
    old_content: Option<Seq<char>>,
    new_content: Option<Seq<char>>,
) -> FileDiffView {
    FileDiffView {
        old_content: if wanted_old(f) is Some {
            old_content
        } else {
            f.old_content
        },
        new_content: if wanted_new(f) is Some {
            new_content
        } else {
            f.new_content
        },
        ..f
    }
}

impl FileDiff {
    /// A file that no repository backs: it lacks no content.
    pub fn for_test(
        path: String,
        status: FileStatus,
        language: Option<Language>,
        hunks: Vec<Hunk>,
    ) -> (r: Self)
        ensures
            r@ == (FileDiffView {
                path: path@,
                old_path: None,
                status,
                language,
                hunks: text::views(hunks@),
                old_content: None,
                new_content: None,
                repo_path: Seq::empty(),
                base_sha: Seq::empty(),
                head_sha: Seq::empty(),
            }),
    {
        FileDiff {
            path,
            old_path: None,
            status,
            language,
            hunks,
            old_content: None,
            new_content: None,
            repo_path: String::new(),
            base_sha: String::new(),
            head_sha: String::new(),
        }
    }

    /// The revisions whose contents the file still lacks, old side first.
    pub fn wanted_content(&self) -> (r: (Option<Revision>, Option<Revision>))
        ensures
            text::opt_view(r.0) == wanted_old(self@),
            text::opt_view(r.1) == wanted_new(self@),
    {
        let backed: bool = text::chars(self.base_sha.as_str()).len() > 0;
        let old = if backed && !self.status.is_added() && self.old_content.is_none() {
            let p: String = match &self.old_path {
                Some(p) => p.clone(),
                None => self.path.clone(),
            };
            Some(Revision { sha: self.base_sha.clone(), path: p })
        } else {
            None
        };
        let new = if backed && !self.status.is_deleted() && self.new_content.is_none() {
            Some(Revision { sha: self.head_sha.clone(), path: self.path.clone() })
        } else {
            None
        };
        (old, new)
    }

    /// Puts in the contents that were loaded for the file, each where the file
    /// still lacks it. `None` says that a content could not be loaded.
    pub fn ensure_content(&mut self, old_content: Option<String>, new_content: Option<String>)
        ensures
            final(self)@ == with_content(
                old(self)@,
                text::opt_view(old_content),
                text::opt_view(new_content),
            ),
    {
        let (old, new) = self.wanted_content();
        if old.is_some() {
            self.old_content = old_content;
        }
        if new.is_some() {
            self.new_content = new_content;
        }
    }
}


// --- laws ----------------------------------------------------------------

/// The lines that do not change: those whose numbers, counted from `start`, are
/// not among the changed ones.
pub open spec fn context(lines: Seq<Seq<char>>, changed: Seq<u32>, start: nat) -> Seq<Seq<char>>
    decreases lines.len(),
{
    if lines.len() == 0 {
        Seq::empty()
    } else {
        let before = context(lines.drop_last(), changed, start);
        if changed.contains((start + lines.len() - 1) as u32) {
            before
        } else {
            before.push(lines.last())
        }
    }
}

/// A hunk is consistent: its ranges and counts are those of its lines, the two
/// sides have the same context, and the numbers of the added and removed lines
/// rise and stay inside the ranges.
pub open spec fn hunk_consistent(h: HunkView) -> bool {
    &&& h.old_range.count == h.old_lines.len()
    &&& h.new_range.count == h.new_lines.len()
    &&& h.added == h.added_lines.len()
    &&& h.removed == h.removed_lines.len()
    &&& h.new_lines.len() - h.added == h.old_lines.len() - h.removed
    &&& context(h.new_lines, h.added_lines, h.new_range.start as nat) == context(
        h.old_lines,
        h.removed_lines,
        h.old_range.start as nat,
    )
    &&& numbers_in(h.added_lines, h.new_range)
    &&& numbers_in(h.removed_lines, h.old_range)
}

/// The numbers rise and stay inside the range.
pub open spec fn numbers_in(ns: Seq<u32>, range: LineRange) -> bool {
    &&& forall|i: int|
        0 <= i < ns.len() ==> range.start <= #[trigger] ns[i] < range.start + range.count
    &&& forall|i: int, j: int| 0 <= i < j < ns.len() ==> ns[i] < ns[j]
}

/// Every hunk that is read from a unified diff is consistent and named after
/// its file and first line.
pub proof fn law_hunks_are_consistent(s: Seq<char>, i: int, j: int)
    requires
        unified_fits(s),
        0 <= i < unified_of(s).len(),
        0 <= j < unified_of(s)[i].hunks.len(),
    ensures
        ({
            let file = unified_of(s)[i];
            let h = file.hunks[j];
            hunk_consistent(h) && h.id == hunk_id(
                known_path(file.old_path, file.new_path),
                h.new_range.start as nat,
            )
        }),
{
    let ls = text::lines_of(sections_of(s)[i]);
    let raw = section_hunks(ls);
    assert(section_fits(ls));
    assert(hunk_fits(raw[j]));
    lemma_consistent(raw[j].body, raw[j].old_start, raw[j].new_start);
    lemma_same_context(raw[j].body, raw[j].old_start, raw[j].new_start);
}

proof fn lemma_context_grows(lines: Seq<Seq<char>>, changed: Seq<u32>, start: nat, n: u32)
    requires
        start + lines.len() <= n,
    ensures
        context(lines, changed.push(n), start) == context(lines, changed, start),
    decreases lines.len(),
{
    if lines.len() > 0 {
        lemma_context_grows(lines.drop_last(), changed, start, n);
        let last = (start + lines.len() - 1) as u32;
        if changed.contains(last) {
            let k = choose|k: int| 0 <= k < changed.len() && changed[k] == last;
            assert(changed.push(n)[k] == last);
        }
        if changed.push(n).contains(last) {
            let k = choose|k: int| 0 <= k < changed.push(n).len() && changed.push(n)[k] == last;
            assert(changed[k] == last);
        }
    }
}

proof fn lemma_same_context(body: Seq<Seq<char>>, old_start: nat, new_start: nat)
    requires
        old_start + old_side(body).len() <= u32::MAX,
        new_start + new_side(body).len() <= u32::MAX,
    ensures
        context(new_side(body), added_at(body, new_start), new_start) == context(
            old_side(body),
            removed_at(body, old_start),
            old_start,
        ),
    decreases body.len(),
{
    if body.len() > 0 {
        let shorter = body.drop_last();
        let (old, new) = (old_side(shorter), new_side(shorter));
        let (removed, added) = (removed_at(shorter, old_start), added_at(shorter, new_start));
        lemma_same_context(shorter, old_start, new_start);
        lemma_consistent(shorter, old_start, new_start);
        let t = line_text(body.last());
        match line_kind(body.last()) {
            LineKind::Added => {
                let n = (new_start + new.len()) as u32;
                lemma_context_grows(new, added, new_start, n);
                assert(new.push(t).drop_last() =~= new);
                assert(added.push(n)[added.len() as int] == n);
            },
            LineKind::Removed => {
                let n = (old_start + old.len()) as u32;
                lemma_context_grows(old, removed, old_start, n);
                assert(old.push(t).drop_last() =~= old);
                assert(removed.push(n)[removed.len() as int] == n);
            },
            LineKind::Context => {
                assert(new.push(t).drop_last() =~= new);
                assert(old.push(t).drop_last() =~= old);
                assert(!added.contains((new_start + new.len()) as u32));
                assert(!removed.contains((old_start + old.len()) as u32));
            },
            LineKind::Other => {},
        }
    }
}

proof fn lemma_consistent(body: Seq<Seq<char>>, old_start: nat, new_start: nat)
    requires
        old_start + old_side(body).len() <= u32::MAX,
        new_start + new_side(body).len() <= u32::MAX,
    ensures
        new_side(body).len() - added_at(body, new_start).len() == old_side(body).len()
            - removed_at(body, old_start).len(),
        numbers_in(
            added_at(body, new_start),
            LineRange { start: new_start as u32, count: new_side(body).len() as u32 },
        ),
        numbers_in(
            removed_at(body, old_start),
            LineRange { start: old_start as u32, count: old_side(body).len() as u32 },
        ),
        added_at(body, new_start).len() <= new_side(body).len(),
        removed_at(body, old_start).len() <= old_side(body).len(),
    decreases body.len(),
{
    if body.len() > 0 {
        lemma_consistent(body.drop_last(), old_start, new_start);
    }
}

/// A file section begins with `diff --git `, and nothing behind the first of
/// them is lost: the sections together are the rest of the text.
pub proof fn law_sections_cover(s: Seq<char>)
    ensures
        forall|i: int|
            0 <= i < sections_of(s).len() ==> text::begins(
                #[trigger] sections_of(s)[i],
                "diff --git "@,
            ),
        sections_of(s).len() > 0 ==> text::concat(sections_of(s)) == s.skip(
            section_starts(s, s.len())[0],
        ),
{
    let starts = section_starts(s, s.len());
    lemma_section_starts(s, s.len());
    lemma_starts_are_starts(s, s.len());
    let needle = "diff --git "@;
    assert forall|i: int| 0 <= i < sections_of(s).len() implies text::begins(
        #[trigger] sections_of(s)[i],
        needle,
    ) by {
        lemma_section_begins(s, i);
    }
    if starts.len() > 0 {
        lemma_concat_sections(s, starts.len() as int);
        let all = sections_of(s);
        assert(all.take(all.len() as int) == all);
        assert(s.subrange(starts[0], s.len() as int) == s.skip(starts[0]));
    }
}

proof fn lemma_starts_are_starts(s: Seq<char>, n: nat)
    ensures
        forall|i: int|
            0 <= i < section_starts(s, n).len() ==> is_section_start(
                s,
                #[trigger] section_starts(s, n)[i],
            ),
    decreases n,
{
    if n > 0 {
        lemma_starts_are_starts(s, (n - 1) as nat);
        let shorter = section_starts(s, (n - 1) as nat);
        assert forall|i: int| 0 <= i < section_starts(s, n).len() implies is_section_start(
            s,
            #[trigger] section_starts(s, n)[i],
        ) by {
            assert(i < shorter.len() ==> section_starts(s, n)[i] == shorter[i]);
        }
    }
}

/// The next section begins behind the words that this one begins with.
proof fn lemma_section_begins(s: Seq<char>, i: int)
    requires
        0 <= i < sections_of(s).len(),
    ensures
        text::begins(sections_of(s)[i], "diff --git "@),
{
    let starts = section_starts(s, s.len());
    lemma_section_starts(s, s.len());
    lemma_starts_are_starts(s, s.len());
    let needle = "diff --git "@;
    let a = starts[i];
    let end = if i + 1 < starts.len() {
        starts[i + 1]
    } else {
        s.len() as int
    };
    assert(is_section_start(s, a));
    assert(a + needle.len() <= end) by {
        if i + 1 < starts.len() {
            assert(is_section_start(s, end));
            if end < a + needle.len() {
                reveal_strlit("diff --git ");
                let k = end - 1 - a;
                assert(s[end - 1] == '\n');
                assert(s.subrange(a, a + needle.len())[k] == needle[k]);
                assert(needle[k] != '\n');
            }
        }
    }
    assert(s.subrange(a, end).subrange(0, 0int + needle.len()) =~= s.subrange(a, a + needle.len()));
}

proof fn lemma_concat_sections(s: Seq<char>, n: int)
    requires
        0 < n <= sections_of(s).len(),
    ensures
        text::concat(sections_of(s).take(n)) == s.subrange(
            section_starts(s, s.len())[0],
            if n < sections_of(s).len() {
                section_starts(s, s.len())[n]
            } else {
                s.len() as int
            },
        ),
    decreases n,
{
    let starts = section_starts(s, s.len());
    lemma_section_starts(s, s.len());
    let part = sections_of(s).take(n);
    assert(part.drop_last() == sections_of(s).take(n - 1));
    assert(part.last() == sections_of(s)[n - 1]);
    if n > 1 {
        lemma_concat_sections(s, n - 1);
        let end = if n < starts.len() {
            starts[n]
        } else {
            s.len() as int
        };
        assert(starts[0] < starts[n - 1]);
        assert(s.subrange(starts[0], starts[n - 1]) + s.subrange(starts[n - 1], end)
            =~= s.subrange(starts[0], end));
    } else {
        assert(sections_of(s).take(0) =~= Seq::<Seq<char>>::empty());
        assert(text::concat(sections_of(s).take(0)) =~= Seq::<char>::empty());
    }
}

/// Once both contents are loaded a file lacks none, and loading again changes
/// nothing.
pub proof fn law_content_is_loaded_once(
    f: FileDiffView,
    old_content: Seq<char>,
    new_content: Seq<char>,
    again_old: Option<Seq<char>>,
    again_new: Option<Seq<char>>,
)
    ensures
        ({
            let g = with_content(f, Some(old_content), Some(new_content));
            wanted_old(g) is None && wanted_new(g) is None && with_content(g, again_old, again_new)
                == g
        }),
{
}

/// Loading content leaves everything else of a file alone, and a file that no
/// repository backs takes none.
pub proof fn law_content_only(
    f: FileDiffView,
    old_content: Option<Seq<char>>,
    new_content: Option<Seq<char>>,
)
    ensures
        ({
            let g = with_content(f, old_content, new_content);
            &&& g.path == f.path && g.status == f.status && g.language == f.language && g.hunks
                == f.hunks
            &&& f.base_sha.len() == 0 ==> g == f
        }),
{
}

// --- the join ------------------------------------------------------------

/// The section is of the file at `path`: that is its new path, or where the file
/// is gone its old one.
pub open spec fn section_is_of(section: ParsedFileView, path: Seq<char>) -> bool {
    if section.new_path == "/dev/null"@ {
        path::parts_of(section.old_path) == path::parts_of(path)
    } else {
        path::parts_of(section.new_path) == path::parts_of(path)
    }
}

proof fn lemma_hunks_for(sections: Seq<ParsedFileView>, path: Seq<char>, s: int)
    requires
        0 <= s < sections.len(),
        section_is_of(sections[s], path),
        forall|t: int| s < t < sections.len() ==> !section_is_of(#[trigger] sections[t], path),
    ensures
        hunks_for(sections, path) == sections[s].hunks,
    decreases sections.len(),
{
    if s < sections.len() - 1 {
        assert(!section_is_of(sections[sections.len() - 1], path));
        lemma_hunks_for(sections.drop_last(), path, s);
    }
}

proof fn lemma_hunks_for_none(sections: Seq<ParsedFileView>, path: Seq<char>)
    ensures
        hunks_for(sections, path).len() > 0 ==> exists|s: int|
            0 <= s < sections.len() && section_is_of(#[trigger] sections[s], path)
                && sections[s].hunks == hunks_for(sections, path),
    decreases sections.len(),
{
    if sections.len() > 0 {
        let last = sections.len() - 1;
        if !section_is_of(sections[last], path) {
            lemma_hunks_for_none(sections.drop_last(), path);
            if hunks_for(sections, path).len() > 0 {
                let s = choose|s: int|
                    0 <= s < last && section_is_of(#[trigger] sections.drop_last()[s], path)
                        && sections.drop_last()[s].hunks == hunks_for(sections, path);
                assert(section_is_of(sections[s], path));
            }
        }
    }
}

/// No hunk is lost in the join: whatever the status of a file, the first entry of
/// its path gets exactly the hunks of the last section of that path.
pub proof fn law_no_hunk_is_lost(
    origin: OriginView,
    raw: Seq<char>,
    unified: Seq<char>,
    entries: Seq<RawEntryView>,
    s: int,
    j: int,
)
    requires
        raw_entries_of(raw) == Ok::<Seq<RawEntryView>, DiffErrorView>(entries),
        unified_fits(unified),
        0 <= s < unified_of(unified).len(),
        0 <= j < entries.len(),
        section_is_of(unified_of(unified)[s], entries[j].path),
        forall|t: int|
            s < t < unified_of(unified).len() ==> !section_is_of(
                #[trigger] unified_of(unified)[t],
                entries[j].path,
            ),
        forall|i: int|
            0 <= i < j ==> path::parts_of((#[trigger] entries[i]).path) != path::parts_of(
                entries[j].path,
            ),
    ensures
        diff_of(origin, raw, unified) matches Ok(d) && d.files.len() == entries.len()
            && d.files[j].hunks == unified_of(unified)[s].hunks,
{
    lemma_hunks_for(unified_of(unified), entries[j].path, s);
}

/// The files of a diff are the entries of the raw output, one for one, and a file
/// has no hunks but those of a section of its path.
pub proof fn law_files_are_the_entries(
    origin: OriginView,
    raw: Seq<char>,
    unified: Seq<char>,
    entries: Seq<RawEntryView>,
    j: int,
)
    requires
        raw_entries_of(raw) == Ok::<Seq<RawEntryView>, DiffErrorView>(entries),
        unified_fits(unified),
        0 <= j < entries.len(),
    ensures
        diff_of(origin, raw, unified) matches Ok(d) && {
            &&& d.base_sha == origin.base_sha
            &&& d.head_sha == origin.head_sha
            &&& d.files.len() == entries.len()
            &&& d.files[j].path == entries[j].path
            &&& d.files[j].old_path == entries[j].old_path
            &&& d.files[j].status == entries[j].status
            &&& d.files[j].repo_path == origin.repo_path
            &&& d.files[j].base_sha == origin.base_sha
            &&& d.files[j].head_sha == origin.head_sha
            &&& d.files[j].old_content is None
            &&& d.files[j].new_content is None
            &&& d.files[j].language == lang::detected(entries[j].path)
            &&& (exists|i: int|
                0 <= i < j && path::parts_of((#[trigger] entries[i]).path) == path::parts_of(
                    entries[j].path,
                )) ==> d.files[j].hunks.len() == 0
            &&& d.files[j].hunks.len() > 0 ==> exists|s: int|
                0 <= s < unified_of(unified).len() && section_is_of(
                    #[trigger] unified_of(unified)[s],
                    entries[j].path,
                ) && unified_of(unified)[s].hunks == d.files[j].hunks
        },
{
    lemma_hunks_for_none(unified_of(unified), entries[j].path);
    if exists|i: int|
        0 <= i < j && path::parts_of((#[trigger] entries[i]).path) == path::parts_of(
            entries[j].path,
        ) {
        let i = choose|i: int|
            0 <= i < j && path::parts_of((#[trigger] entries[i]).path) == path::parts_of(
                entries[j].path,
            );
        assert(path::parts_of(entries[i].path) == path::parts_of(entries[j].path));
        assert(listed_before(entries, j));
    }
}

/// The two outputs of git make up a diff exactly where the entries can be read and
/// the lines be numbered; an entry that cannot be read is told first.
pub proof fn law_what_is_no_diff(origin: OriginView, raw: Seq<char>, unified: Seq<char>)
    ensures
        diff_of(origin, raw, unified) is Ok <==> raw_entries_of(raw) is Ok && unified_fits(unified),
        raw_entries_of(raw) matches Err(e) ==> diff_of(origin, raw, unified) == Err::<
            DiffView,
            DiffErrorView,
        >(e),
        raw_entries_of(raw) is Ok && !unified_fits(unified) ==> diff_of(origin, raw, unified)
            == Err::<DiffView, DiffErrorView>(DiffErrorView::LineNumbers),
{
}

// --- what is written is read ---------------------------------------------

/// A range as git writes it: its first line and, unless it is one and left out,
/// how many lines it has.
pub open spec fn written_range(start: nat, count: nat, short: bool) -> Seq<char> {
    if short {
        text::dec(start)
    } else {
        text::dec(start) + seq![','] + text::dec(count)
    }
}

/// A hunk header as git writes it.
pub open spec fn written_header(old: Seq<char>, new: Seq<char>, behind: Seq<char>) -> Seq<char> {
    "@@ "@ + seq!['-'] + old + seq![' ', '+'] + new + " @@"@ + behind
}

/// A character of a range: neither white space nor a sign of its own.
spec fn is_plain(c: char) -> bool {
    text::is_digit(c) || c == ','
}

proof fn lemma_range(start: nat, count: nat, short: bool)
    requires
        start <= u32::MAX,
        count <= u32::MAX,
        short ==> count == 1,
    ensures
        range_of(written_range(start, count, short)) == Some((start, count)),
        forall|i: int|
            0 <= i < written_range(start, count, short).len() ==> is_plain(
                #[trigger] written_range(start, count, short)[i],
            ),
{
    let a = text::dec(start);
    let b = text::dec(count);
    let s = written_range(start, count, short);
    text::lemma_dec(start);
    text::lemma_dec(count);
    text::law_number_of_dec(start, u32::MAX as nat);
    text::law_number_of_dec(count, u32::MAX as nat);
    if short {
        assert forall|k: int| 0 <= k < s.len() implies s[k] != ',' by {
            assert(text::is_digit(a[k]));
        }
        text::lemma_upto(s, ',', s.len() as int);
    } else {
        assert(s[a.len() as int] == ',');
        assert forall|k: int| 0 <= k < a.len() implies s[k] != ',' by {
            assert(s[k] == a[k]);
            assert(text::is_digit(a[k]));
        }
        text::lemma_upto(s, ',', a.len() as int);
        assert(s.take(a.len() as int) =~= a);
        assert(s.skip(a.len() as int + 1) =~= b);
        assert forall|i: int| 0 <= i < s.len() implies is_plain(#[trigger] s[i]) by {
            if i < a.len() {
                assert(s[i] == a[i]);
            } else if i > a.len() {
                assert(s[i] == b[i - a.len() - 1]);
            }
        }
    }
}

proof fn lemma_header_words(w0: Seq<char>, w1: Seq<char>)
    requires
        w0.len() > 0,
        w1.len() > 0,
        forall|i: int| 0 <= i < w0.len() ==> !text::is_space(#[trigger] w0[i]),
        forall|i: int| 0 <= i < w1.len() ==> !text::is_space(#[trigger] w1[i]),
    ensures
        text::words_of(w0 + seq![' '] + w1) == seq![w0, w1],
{
    text::law_words(w0, ' ', w1);
    text::law_words(w1, ' ', w1);
    assert(seq![w0] + seq![w1] =~= seq![w0, w1]);
}

proof fn lemma_header_close(inner: Seq<char>, behind: Seq<char>)
    requires
        forall|i: int| 0 <= i < inner.len() ==> #[trigger] inner[i] != '@',
    ensures
        text::first_at(inner + " @@"@ + behind, " @@"@, inner.len() as int),
        forall|e: int|
            text::first_at(inner + " @@"@ + behind, " @@"@, e) ==> e == inner.len(),
{
    reveal_strlit(" @@");
    let body = inner + " @@"@ + behind;
    let close = inner.len() as int;
    assert(body.subrange(close, close + 3) =~= " @@"@);
    assert forall|j: int| 0 <= j < close implies !text::occurs_at(body, " @@"@, j) by {
        if text::occurs_at(body, " @@"@, j) {
            assert(body.subrange(j, j + 3)[1] == '@');
            assert(body[j + 1] == '@');
            if j + 1 < close {
                assert(body[j + 1] == inner[j + 1]);
            }
        }
    }
    assert forall|e: int| text::first_at(body, " @@"@, e) implies e == close by {
        assert(text::occurs_at(body, " @@"@, e));
        assert(text::occurs_at(body, " @@"@, close));
    }
}

proof fn lemma_header_shape(old: Seq<char>, new: Seq<char>, behind: Seq<char>)
    requires
        forall|i: int| 0 <= i < old.len() ==> is_plain(#[trigger] old[i]),
        forall|i: int| 0 <= i < new.len() ==> is_plain(#[trigger] new[i]),
    ensures
        is_header(written_header(old, new, behind)),
        hunk_header(written_header(old, new, behind)) == ranges_of(
            seq!['-'] + old + seq![' '] + (seq!['+'] + new),
        ),
        text::words_of(seq!['-'] + old + seq![' '] + (seq!['+'] + new)) == seq![
            seq!['-'] + old,
            seq!['+'] + new,
        ],
{
    reveal_strlit("@@ ");
    let line = written_header(old, new, behind);
    let w0 = seq!['-'] + old;
    let w1 = seq!['+'] + new;
    let inner = w0 + seq![' '] + w1;
    let body = inner + " @@"@ + behind;
    assert(line =~= "@@ "@ + body);
    assert(line.subrange(0, 3) =~= "@@ "@);
    assert(line.skip(3) =~= body);
    assert forall|j: int| 0 <= j < inner.len() implies #[trigger] inner[j] != '@' by {
        if 0 < j < w0.len() {
            assert(inner[j] == old[j - 1]);
        } else if j > w0.len() + 1 {
            assert(inner[j] == new[j - w0.len() - 2]);
        }
    }
    lemma_header_close(inner, behind);
    assert(text::occurs_at(body, " @@"@, inner.len() as int));
    assert(text::contains(body, " @@"@));
    assert(body.take(inner.len() as int) =~= inner);
    assert forall|i: int| 0 <= i < w0.len() implies !text::is_space(#[trigger] w0[i]) by {
        if i > 0 {
            assert(is_plain(old[i - 1]));
        }
    }
    assert forall|i: int| 0 <= i < w1.len() implies !text::is_space(#[trigger] w1[i]) by {
        if i > 0 {
            assert(is_plain(new[i - 1]));
        }
    }
    lemma_header_words(w0, w1);
}

/// The two ranges of a hunk header are read as they are written, whatever stands
/// behind them.
pub proof fn law_header_is_read(
    a: nat,
    b: nat,
    short_old: bool,
    c: nat,
    d: nat,
    short_new: bool,
    behind: Seq<char>,
)
    requires
        a <= u32::MAX,
        b <= u32::MAX,
        c <= u32::MAX,
        d <= u32::MAX,
        short_old ==> b == 1,
        short_new ==> d == 1,
    ensures
        ({
            let line = written_header(
                written_range(a, b, short_old),
                written_range(c, d, short_new),
                behind,
            );
            is_header(line) && hunk_header(line) == Some((a, b, c, d))
        }),
{
    let old = written_range(a, b, short_old);
    let new = written_range(c, d, short_new);
    lemma_range(a, b, short_old);
    lemma_range(c, d, short_new);
    lemma_header_shape(old, new, behind);
    assert((seq!['-'] + old).skip(1) =~= old);
    assert((seq!['+'] + new).skip(1) =~= new);
}

/// A line of a body that is added is in the new file, one that is removed in the
/// old one, and any other in both; each is the next line of its file. A remark is
/// in neither.
pub proof fn law_body_lines(h: RawHunk, line: Seq<char>, rest: Seq<char>, key: Seq<char>)
    requires
        hunk_fits(RawHunk { body: h.body.push(line), ..h }),
    ensures
        ({
            let before = hunk_of(h, key);
            let after = hunk_of(RawHunk { body: h.body.push(line), ..h }, key);
            &&& after.id == before.id
            &&& after.old_range.start == h.old_start
            &&& after.new_range.start == h.new_start
            &&& after.old_range.count == after.old_lines.len()
            &&& after.new_range.count == after.new_lines.len()
            &&& after.added == after.added_lines.len()
            &&& after.removed == after.removed_lines.len()
            &&& line == seq!['+'] + rest ==> {
                &&& after.new_lines == before.new_lines.push(rest)
                &&& after.old_lines == before.old_lines
                &&& after.added_lines == before.added_lines.push(
                    (h.new_start + before.new_lines.len()) as u32,
                )
                &&& after.removed_lines == before.removed_lines
            }
            &&& line == seq!['-'] + rest ==> {
                &&& after.old_lines == before.old_lines.push(rest)
                &&& after.new_lines == before.new_lines
                &&& after.removed_lines == before.removed_lines.push(
                    (h.old_start + before.old_lines.len()) as u32,
                )
                &&& after.added_lines == before.added_lines
            }
            &&& line == seq![' '] + rest || (line.len() == 0 && rest.len() == 0) ==> {
                &&& after.old_lines == before.old_lines.push(rest)
                &&& after.new_lines == before.new_lines.push(rest)
                &&& after.added_lines == before.added_lines
                &&& after.removed_lines == before.removed_lines
            }
            &&& line.len() > 0 && line[0] != '+' && line[0] != '-' && line[0] != ' ' ==> {
                &&& after.old_lines == before.old_lines
                &&& after.new_lines == before.new_lines
                &&& after.added_lines == before.added_lines
                &&& after.removed_lines == before.removed_lines
            }
        }),
{
    let body = h.body.push(line);
    let g = RawHunk { body, ..h };
    assert(body.drop_last() =~= h.body);
    assert((seq!['+'] + rest).skip(1) =~= rest);
    assert((seq!['-'] + rest).skip(1) =~= rest);
    assert((seq![' '] + rest).skip(1) =~= rest);
    if line.len() == 0 && rest.len() == 0 {
        assert(line =~= rest);
    }
    lemma_changed_counts(body, h.new_start);
    lemma_changed_counts(body, h.old_start);
}

proof fn lemma_changed_counts(body: Seq<Seq<char>>, start: nat)
    ensures
        added_at(body, start).len() <= new_side(body).len(),
        removed_at(body, start).len() <= old_side(body).len(),
    decreases body.len(),
{
    if body.len() > 0 {
        lemma_changed_counts(body.drop_last(), start);
    }
}

/// A body without lines leaves a hunk without any.
pub proof fn law_empty_body(old_start: nat, new_start: nat, key: Seq<char>)
    ensures
        ({
            let h = hunk_of(RawHunk { old_start, new_start, body: Seq::empty() }, key);
            h.old_lines.len() == 0 && h.new_lines.len() == 0 && h.added_lines.len() == 0
                && h.removed_lines.len() == 0
        }),
{
}

/// A hunk reaches from its header to the next header, or to the end of its
/// section; whatever stands before the first header is no hunk.
pub proof fn law_hunks_are_read(
    preamble: Seq<Seq<char>>,
    header: Seq<char>,
    ranges: (nat, nat, nat, nat),
    body: Seq<Seq<char>>,
    rest: Seq<Seq<char>>,
)
    requires
        forall|i: int|
            0 <= i < preamble.len() ==> !text::begins(#[trigger] preamble[i], "@@ "@),
        text::begins(header, "@@ "@),
        hunk_header(header) == Some(ranges),
        forall|i: int|
            0 <= i < body.len() ==> !text::begins(#[trigger] body[i], "@@ "@) && !text::begins(
                body[i],
                "diff --git "@,
            ),
        rest.len() > 0 ==> text::begins(rest[0], "@@ "@),
    ensures
        section_hunks(preamble + seq![header] + body + rest) == seq![
            RawHunk { old_start: ranges.0, new_start: ranges.2, body },
        ] + (if rest.len() > 0 {
            section_hunks(rest)
        } else {
            Seq::empty()
        }),
        section_hunks(preamble) == Seq::<RawHunk>::empty(),
{
    let ls = preamble + seq![header] + body + rest;
    let stop = |l: Seq<char>| is_header(l);
    let end = |l: Seq<char>| ends_body(l);
    let p = preamble.len() as int;
    assert forall|k: int| 0 <= k < p implies !stop(#[trigger] ls[k]) by {
        assert(ls[k] == preamble[k]);
    }
    assert(ls[p] == header);
    lemma_before_first(ls, stop, p);
    let tail = ls.skip(p);
    assert(tail =~= seq![header] + body + rest);
    assert(tail[0] == header);
    let n = body.len() as int;
    let after = tail.skip(1);
    assert(after =~= body + rest);
    assert forall|k: int| 0 <= k < n implies !end(#[trigger] after[k]) by {
        assert(after[k] == body[k]);
    }
    if rest.len() > 0 {
        assert(after[n] == rest[0]);
        assert(end(after[n]));
    }
    lemma_before_first(after, end, n);
    assert(body_len(after) == n);
    assert(tail.skip(1 + n) =~= rest);
    assert(tail.subrange(1, 1 + n) =~= body);
    if rest.len() > 0 {
        assert(stop(rest[0]));
        lemma_before_first(rest, stop, 0);
        assert(rest.skip(0) =~= rest);
    } else {
        assert(seq![RawHunk { old_start: ranges.0, new_start: ranges.2, body }]
            =~= seq![RawHunk { old_start: ranges.0, new_start: ranges.2, body }]
            + Seq::<RawHunk>::empty());
    }
    assert forall|k: int| 0 <= k < p implies !stop(#[trigger] preamble[k]) by {}
    lemma_before_first(preamble, stop, p);
    assert(preamble.skip(p) =~= Seq::<Seq<char>>::empty());
}

proof fn lemma_header_path(ls: Seq<Seq<char>>, marker: Seq<char>, i: int)
    requires
        0 <= i < ls.len(),
        text::begins(ls[i], marker),
        forall|j: int| i < j < ls.len() ==> !text::begins(#[trigger] ls[j], marker),
    ensures
        header_path(ls, marker) == marked_path(ls[i].skip(4)),
    decreases ls.len(),
{
    if i < ls.len() - 1 {
        assert(!text::begins(ls[ls.len() - 1], marker));
        let rest = ls.drop_last();
        assert forall|j: int| i < j < rest.len() implies !text::begins(#[trigger] rest[j], marker) by {
            assert(!text::begins(ls[j], marker));
        }
        lemma_header_path(rest, marker, i);
    }
}

/// What may stand behind a path in a header: nothing, or a tab and anything.
pub open spec fn is_path_end(s: Seq<char>) -> bool {
    s.len() == 0 || s[0] == '\t'
}

proof fn lemma_marked_path(prefix: Seq<char>, path: Seq<char>, end: Seq<char>)
    requires
        prefix == "a/"@ || prefix == "b/"@,
        !path.contains('\t'),
        is_path_end(end),
    ensures
        marked_path(prefix + path + end) == path,
        marked_path("/dev/null"@ + end) == "/dev/null"@,
{
    reveal_strlit("a/");
    reveal_strlit("b/");
    reveal_strlit("/dev/null");
    let s = prefix + path + end;
    let n = 2 + path.len();
    assert forall|k: int| 0 <= k < n implies s[k] != '\t' by {
        if k < 2 {
            assert(s[k] == prefix[k]);
        } else {
            assert(s[k] == path[k - 2]);
            assert(path.contains(path[k - 2]));
        }
    }
    if end.len() > 0 {
        assert(s[n as int] == '\t');
    }
    text::lemma_upto(s, '\t', n as int);
    let t = s.take(n as int);
    assert(t =~= prefix + path);
    assert(t.subrange(0, 2) =~= prefix);
    assert(t.skip(2) =~= path);
    let d = "/dev/null"@ + end;
    assert forall|k: int| 0 <= k < 9 implies d[k] != '\t' by {
        assert(d[k] == "/dev/null"@[k]);
        assert(k == 0 || k == 1 || k == 2 || k == 3 || k == 4 || k == 5 || k == 6 || k == 7 || k
            == 8);
    }
    if end.len() > 0 {
        assert(d[9] == '\t');
    }
    text::lemma_upto(d, '\t', 9);
    assert(d.take(9) =~= "/dev/null"@);
    let u = "/dev/null"@;
    assert(u.subrange(0, 2)[0] == '/');
    assert("a/"@[0] == 'a' && "b/"@[0] == 'b');
}

/// The paths of a file section are those behind `--- ` and `+++ `, without the
/// letter that git puts before each; of a file that is added or deleted, one of
/// them is `/dev/null`.
pub proof fn law_section_paths(
    preamble: Seq<Seq<char>>,
    rest: Seq<Seq<char>>,
    i: int,
    path: Seq<char>,
    end: Seq<char>,
)
    requires
        forall|j: int|
            0 <= j < preamble.len() ==> !text::begins(#[trigger] preamble[j], "@@ "@),
        rest.len() > 0 ==> text::begins(rest[0], "@@ "@),
        0 <= i < preamble.len(),
        !path.contains('\t'),
        is_path_end(end),
    ensures
        ({
            let old_last = forall|j: int|
                i < j < preamble.len() ==> !text::begins(#[trigger] preamble[j], "--- "@);
            let new_last = forall|j: int|
                i < j < preamble.len() ==> !text::begins(#[trigger] preamble[j], "+++ "@);
            let section = section_of(preamble + rest);
            &&& preamble[i] == "--- "@ + "a/"@ + path + end && old_last ==> section.old_path == path
            &&& preamble[i] == "+++ "@ + "b/"@ + path + end && new_last ==> section.new_path == path
            &&& preamble[i] == "--- "@ + "/dev/null"@ + end && old_last ==> section.old_path
                == "/dev/null"@
            &&& preamble[i] == "+++ "@ + "/dev/null"@ + end && new_last ==> section.new_path
                == "/dev/null"@
        }),
{
    reveal_strlit("--- ");
    reveal_strlit("+++ ");
    let ls = preamble + rest;
    let stop = |l: Seq<char>| is_header(l);
    let p = preamble.len() as int;
    assert forall|k: int| 0 <= k < p implies !stop(#[trigger] ls[k]) by {
        assert(ls[k] == preamble[k]);
    }
    if rest.len() > 0 {
        assert(ls[p] == rest[0]);
    }
    lemma_before_first(ls, stop, p);
    assert(ls.take(p) =~= preamble);
    lemma_marked_path("a/"@, path, end);
    lemma_marked_path("b/"@, path, end);
    let x = preamble[i];
    if x == "--- "@ + "a/"@ + path + end || x == "--- "@ + "/dev/null"@ + end {
        assert(x.subrange(0, 4) =~= "--- "@);
        assert(text::begins(x, "--- "@));
        assert(x == "--- "@ + "a/"@ + path + end ==> x.skip(4) =~= "a/"@ + path + end);
        assert(x == "--- "@ + "/dev/null"@ + end ==> x.skip(4) =~= "/dev/null"@ + end);
        if forall|j: int| i < j < preamble.len() ==> !text::begins(#[trigger] preamble[j], "--- "@) {
            lemma_header_path(preamble, "--- "@, i);
        }
    }
    if x == "+++ "@ + "b/"@ + path + end || x == "+++ "@ + "/dev/null"@ + end {
        assert(x.subrange(0, 4) =~= "+++ "@);
        assert(text::begins(x, "+++ "@));
        assert(x == "+++ "@ + "b/"@ + path + end ==> x.skip(4) =~= "b/"@ + path + end);
        assert(x == "+++ "@ + "/dev/null"@ + end ==> x.skip(4) =~= "/dev/null"@ + end);
        if forall|j: int| i < j < preamble.len() ==> !text::begins(#[trigger] preamble[j], "+++ "@) {
            lemma_header_path(preamble, "+++ "@, i);
        }
    }
}

proof fn lemma_nonempty_add(a: Seq<Seq<char>>, b: Seq<Seq<char>>)
    ensures
        nonempty(a + b) == nonempty(a) + nonempty(b),
    decreases b.len(),
{
    if b.len() == 0 {
        assert(a + b =~= a);
        assert(nonempty(b) =~= Seq::<Seq<char>>::empty());
        assert(nonempty(a) + nonempty(b) =~= nonempty(a));
    } else {
        assert((a + b).drop_last() =~= a + b.drop_last());
        assert((a + b).last() == b.last());
        lemma_nonempty_add(a, b.drop_last());
        assert(nonempty(a + b) =~= nonempty(a) + nonempty(b));
    }
}

proof fn lemma_token(t: Seq<char>, rest: Seq<char>)
    requires
        t.len() > 0,
        !t.contains('\0'),
    ensures
        nonempty(text::split(t + seq!['\0'] + rest, '\0')) == seq![t] + nonempty(
            text::split(rest, '\0'),
        ),
{
    text::law_split(t, '\0', rest);
    lemma_nonempty_add(seq![t], text::split(rest, '\0'));
    assert(seq![t].drop_last() =~= Seq::<Seq<char>>::empty());
    assert(nonempty(seq![t].drop_last()) =~= Seq::<Seq<char>>::empty());
    assert(nonempty(seq![t]) =~= seq![t]);
}

/// The entry of a changed file is read as it is written: a header that ends with
/// a status code, and the path; two paths, the old one first, where the file was
/// renamed or copied. The entries that follow are read as if it were not there.
pub proof fn law_entries_are_read(
    header: Seq<char>,
    code: Seq<char>,
    a: Seq<char>,
    b: Seq<char>,
    rest: Seq<char>,
)
    requires
        header.len() > 0,
        header[0] == ':',
        !header.contains('\0'),
        text::words_of(header).last() == code,
        code.len() > 0,
        a.len() > 0,
        !a.contains('\0'),
        b.len() > 0,
        !b.contains('\0'),
    ensures
        ({
            let one = raw_entries_of(header + seq!['\0'] + (a + seq!['\0'] + rest));
            let two = raw_entries_of(
                header + seq!['\0'] + (a + seq!['\0'] + (b + seq!['\0'] + rest)),
            );
            let more = raw_entries_of(rest);
            &&& more is Ok && (code[0] == 'A' || code[0] == 'M' || code[0] == 'T' || code[0] == 'D')
                ==> one == Ok::<Seq<RawEntryView>, DiffErrorView>(
                seq![
                    RawEntryView {
                        status: if code[0] == 'A' {
                            FileStatus::Added
                        } else if code[0] == 'D' {
                            FileStatus::Deleted
                        } else {
                            FileStatus::Modified
                        },
                        path: a,
                        old_path: None,
                    },
                ] + more->Ok_0,
            )
            &&& more is Ok && (code[0] == 'R' || code[0] == 'C') ==> two == Ok::<
                Seq<RawEntryView>,
                DiffErrorView,
            >(
                seq![
                    RawEntryView {
                        status: FileStatus::Renamed {
                            similarity: match text::number(code.skip(1), 255) {
                                Some(n) => n as u8,
                                None => 0,
                            },
                        },
                        path: b,
                        old_path: Some(a),
                    },
                ] + more->Ok_0,
            )
            &&& code[0] != 'A' && code[0] != 'M' && code[0] != 'T' && code[0] != 'D' && code[0]
                != 'R' && code[0] != 'C' ==> one == Err::<Seq<RawEntryView>, DiffErrorView>(
                DiffErrorView::UnknownStatus(code),
            )
            &&& more is Err && (code[0] == 'A' || code[0] == 'M' || code[0] == 'T' || code[0]
                == 'D') ==> one == more
        }),
        raw_entries_of(Seq::<char>::empty()) == Ok::<Seq<RawEntryView>, DiffErrorView>(
            Seq::<RawEntryView>::empty(),
        ),
{
    reveal_strlit(":");
    let none = Seq::<char>::empty();
    text::law_split(none, '\0', none);
    assert(nonempty(seq![none].drop_last()) =~= Seq::<Seq<char>>::empty());
    assert(nonempty(text::split(none, '\0')) =~= Seq::<Seq<char>>::empty());
    let ts = nonempty(text::split(rest, '\0'));
    lemma_token(a, rest);
    lemma_token(b, rest);
    lemma_token(a, b + seq!['\0'] + rest);
    lemma_token(header, a + seq!['\0'] + rest);
    lemma_token(header, a + seq!['\0'] + (b + seq!['\0'] + rest));
    let one = seq![header] + (seq![a] + ts);
    let two = seq![header] + (seq![a] + (seq![b] + ts));
    assert(header.subrange(0, 1) =~= ":"@);
    assert(one[0] == header && one[1] == a);
    assert(two[0] == header && two[1] == a && two[2] == b);
    assert(one.skip(2) =~= ts);
    assert(two.skip(3) =~= ts);
}

/// The content of a file is wanted from the commit before the change, under the
/// path it had there, unless it was added; and from the commit after it, unless it
/// was deleted. Nothing is wanted twice, or where no repository backs the file.
pub proof fn law_wanted_contents(f: FileDiffView)
    ensures
        wanted_old(f) is Some <==> f.base_sha.len() > 0 && f.status != FileStatus::Added
            && f.old_content is None,
        wanted_new(f) is Some <==> f.base_sha.len() > 0 && f.status != FileStatus::Deleted
            && f.new_content is None,
        wanted_old(f) matches Some(r) ==> r.sha == f.base_sha && (f.old_path matches Some(p)
            ==> r.path == p) && (f.old_path is None ==> r.path == f.path),
        wanted_new(f) matches Some(r) ==> r.sha == f.head_sha && r.path == f.path,
{
}

/// Hunks of one file that begin on different lines have different identifiers.
pub proof fn law_hunk_ids(path: Seq<char>, a: nat, b: nat)
    ensures
        hunk_id(path, a) == hunk_id(path, b) ==> a == b,
        text::begins(hunk_id(path, a), path),
{
    let x = hunk_id(path, a);
    let n = path.len() as int;
    reveal_strlit(":");
    assert(x.skip(n + 1) =~= text::dec(a));
    assert(hunk_id(path, b).skip(n + 1) =~= text::dec(b));
    assert(x.subrange(0, n) =~= path);
    text::law_decimal(a, b);
}

} // verus!
