//! Generated files, by their path.
//!
//! A file is generated where its path matches one of a set of globs, or where
//! `.gitattributes` marks it `linguist-generated`.
use vstd::prelude::*;

use crate::classifiers;
use crate::classify::{Category, Classifier, Finding, FindingView, Level};
use crate::diff::{FileDiff, FileDiffView, Hunk, HunkView};
use crate::path;
use crate::text;

verus! {

/// A glob of `globset`.
#[verifier::external_type_specification]
#[verifier::external_body]
pub struct ExGlob(globset::Glob);

/// A set of globs of `globset`.
#[verifier::external_type_specification]
#[verifier::external_body]
pub struct ExGlobSet(globset::GlobSet);

/// What a set of globs is built from.
#[verifier::external_type_specification]
#[verifier::external_body]
pub struct ExGlobSetBuilder(globset::GlobSetBuilder);

/// Why a glob or a set of globs cannot be had.
#[verifier::external_type_specification]
#[verifier::external_body]
pub struct ExGlobError(globset::Error);

/// The pattern that a `globset::Glob` holds.
pub uninterp spec fn glob_holds(glob: globset::Glob) -> Seq<char>;

/// The patterns that a `globset::GlobSetBuilder` holds.
pub uninterp spec fn builder_holds(builder: globset::GlobSetBuilder) -> Seq<Seq<char>>;

/// The patterns that a `globset::GlobSet` holds.
pub uninterp spec fn set_holds(set: globset::GlobSet) -> Seq<Seq<char>>;

/// Whether `globset::Glob::new` takes a pattern.
pub uninterp spec fn glob_valid(pattern: Seq<char>) -> bool;

/// Whether `globset::GlobSetBuilder::build` makes a set of these patterns.
pub uninterp spec fn set_builds(patterns: Seq<Seq<char>>) -> bool;

/// Whether a glob matches a path whose parts are separated by `/`.
pub uninterp spec fn glob_matches(pattern: Seq<char>, path: Seq<char>) -> bool;

/// `globset::Glob::new`: it takes some patterns and not others, by the pattern
/// alone, and the glob holds the pattern.
#[verifier::external_body]
fn new_glob(pattern: &str) -> (r: Result<globset::Glob, globset::Error>)
    ensures
        match r {
            Ok(g) => glob_valid(pattern@) && glob_holds(g) == pattern@,
            Err(_) => !glob_valid(pattern@),
        },
{
    globset::Glob::new(pattern)
}

/// `globset::GlobSetBuilder::new`: the builder holds nothing.
#[verifier::external_body]
fn new_builder() -> (r: globset::GlobSetBuilder)
    ensures
        builder_holds(r) == Seq::<Seq<char>>::empty(),
{
    globset::GlobSetBuilder::new()
}

/// `globset::GlobSetBuilder::add`: the glob comes behind what the builder holds.
#[verifier::external_body]
fn add_glob(builder: &mut globset::GlobSetBuilder, glob: globset::Glob)
    ensures
        builder_holds(*final(builder)) == builder_holds(*old(builder)).push(glob_holds(glob)),
{
    builder.add(glob);
}

/// `globset::GlobSetBuilder::build`: it succeeds or not by the patterns alone,
/// and the set holds what the builder holds.
#[verifier::external_body]
fn build_set(builder: &globset::GlobSetBuilder) -> (r: Result<globset::GlobSet, globset::Error>)
    ensures
        match r {
            Ok(s) => set_builds(builder_holds(*builder)) && set_holds(s) == builder_holds(*builder),
            Err(_) => !set_builds(builder_holds(*builder)),
        },
{
    builder.build()
}

/// `globset::GlobSet::is_match`: whether any glob of the set matches the path.
/// Which paths a glob matches is not said here, only that it depends on the glob
/// and the path alone.
#[verifier::external_body]
fn set_matches(set: &globset::GlobSet, path: &str) -> (r: bool)
    ensures
        r == (exists|i: int|
            0 <= i < set_holds(*set).len() && glob_matches(
                #[trigger] set_holds(*set)[i],
                path@,
            )),
{
    set.is_match(path)
}

/// One of the globs matches the path.
pub open spec fn any_matches(patterns: Seq<Seq<char>>, path: Seq<char>) -> bool {
    exists|i: int| 0 <= i < patterns.len() && glob_matches(#[trigger] patterns[i], path)
}

/// The globs that are known from the start.
pub const DEFAULT_GLOBS: [&'static str; 10] = [
    "*.lock",
    "package-lock.json",
    "*_pb2.py",
    "*.pb.go",
    "dist/**",
    "build/**",
    "vendor/**",
    "*.min.js",
    "*.min.css",
    "*.generated.*",
];

/// The globs that are known from the start.
pub open spec fn default_globs() -> Seq<Seq<char>> {
    seq![
        "*.lock"@,
        "package-lock.json"@,
        "*_pb2.py"@,
        "*.pb.go"@,
        "dist/**"@,
        "build/**"@,
        "vendor/**"@,
        "*.min.js"@,
        "*.min.css"@,
        "*.generated.*"@,
    ]
}

/// Skips every hunk of a generated file.
pub struct Generated {
    globset: globset::GlobSet,
    paths: Vec<String>,
}

/// Why the rule cannot be had.
#[derive(Debug)]
pub enum GlobError {
    /// A pattern is no glob.
    Invalid(String),
    /// The globs make no set.
    NoSet,
}

/// The path is among these.
pub open spec fn is_listed(paths: Seq<Seq<char>>, path: Seq<char>) -> bool {
    exists|i: int|
        0 <= i < paths.len() && path::parts_of(#[trigger] paths[i]) == path::parts_of(path)
}

/// The finding on a file: it is listed, or a glob matches its path.
pub open spec fn generated_verdict(listed: bool, matched: bool) -> Option<FindingView> {
    if listed || matched {
        Some(
            classifiers::finding_of(
                Level::Skip,
                Category::Generated,
                if listed {
                    "generated file (marked linguist-generated)"@
                } else {
                    "generated file (matches generated_globs)"@
                },
                "generated"@,
                None,
            ),
        )
    } else {
        None
    }
}

/// The finding on a file that is listed or whose path is matched.
pub fn judge(listed: bool, matched: bool) -> (r: Option<Finding>)
    ensures
        text::opt_view(r) == generated_verdict(listed, matched),
{
    if listed || matched {
        let rationale: &str = if listed {
            "generated file (marked linguist-generated)"
        } else {
            "generated file (matches generated_globs)"
        };
        Some(
            classifiers::finding(
                Level::Skip,
                Category::Generated,
                rationale.to_string(),
                "generated",
                None,
            ),
        )
    } else {
        None
    }
}

/// Whether the path is among these.
pub fn lists(paths: &Vec<String>, path: &str) -> (r: bool)
    ensures
        r == is_listed(text::views(paths@), path@),
{
    let ghost all = text::views(paths@);
    let mut i: usize = 0;
    while i < paths.len()
        invariant
            i <= paths.len(),
            all == text::views(paths@),
            forall|k: int|
                0 <= k < i ==> path::parts_of(#[trigger] all[k]) != path::parts_of(path@),
        decreases paths.len() - i,
    {
        assert(all[i as int] == paths@[i as int]@);
        if path::same(paths[i].as_str(), path) {
            return true;
        }
        i = i + 1;
    }
    false
}

/// Adds a pattern to the builder.
fn add_pattern(builder: &mut globset::GlobSetBuilder, pattern: &str) -> (r: Result<(), GlobError>)
    ensures
        match r {
            Ok(_) => glob_valid(pattern@) && builder_holds(*final(builder)) == builder_holds(
                *old(builder),
            ).push(pattern@),
            Err(GlobError::Invalid(p)) => !glob_valid(pattern@) && p@ == pattern@,
            Err(GlobError::NoSet) => false,
        },
{
    match new_glob(pattern) {
        Ok(g) => {
            add_glob(builder, g);
            Ok(())
        },
        Err(_) => Err(GlobError::Invalid(pattern.to_string())),
    }
}

/// All patterns are globs.
pub open spec fn all_valid(patterns: Seq<Seq<char>>) -> bool {
    forall|i: int| 0 <= i < patterns.len() ==> glob_valid(#[trigger] patterns[i])
}

/// The pattern is the first that is no glob.
pub open spec fn first_invalid(patterns: Seq<Seq<char>>, pattern: Seq<char>) -> bool {
    exists|i: int|
        0 <= i < patterns.len() && #[trigger] patterns[i] == pattern && !glob_valid(pattern)
            && all_valid(patterns.take(i))
}

impl Generated {
    /// The globs of the rule.
    pub closed spec fn patterns(&self) -> Seq<Seq<char>> {
        set_holds(self.globset)
    }

    /// The paths that are marked.
    pub closed spec fn marked(&self) -> Seq<Seq<char>> {
        text::views(self.paths@)
    }

    /// Knows the globs that are known from the start, and these, and the marked
    /// paths.
    pub fn new(extra_globs: Vec<String>, paths: Vec<String>) -> (r: Result<Self, GlobError>)
        ensures
            ({
                let all = default_globs() + text::views(extra_globs@);
                match r {
                    Ok(g) => all_valid(all) && set_builds(all) && g.patterns() == all && g.marked()
                        == text::views(paths@),
                    Err(GlobError::Invalid(p)) => first_invalid(all, p@),
                    Err(GlobError::NoSet) => all_valid(all) && !set_builds(all),
                }
            }),
    {
        let ghost extra = text::views(extra_globs@);
        let ghost all = default_globs() + extra;
        let known: [&'static str; 10] = DEFAULT_GLOBS;
        assert(text::views(known@) =~= default_globs());
        let mut builder: globset::GlobSetBuilder = new_builder();
        let mut i: usize = 0;
        while i < 10
            invariant
                i <= 10,
                text::views(known@) == default_globs(),
                extra == text::views(extra_globs@),
                all == default_globs() + extra,
                builder_holds(builder) == all.take(i as int),
                all_valid(all.take(i as int)),
            decreases 10 - i,
        {
            let ghost p = all[i as int];
            assert(p == text::views(known@)[i as int]);
            assert(all.take(i + 1) =~= all.take(i as int).push(p));
            match add_pattern(&mut builder, known[i]) {
                Ok(_) => {},
                Err(e) => {
                    return Err(e);
                },
            }
            i = i + 1;
        }
        let mut k: usize = 0;
        while k < extra_globs.len()
            invariant
                k <= extra_globs.len(),
                extra == text::views(extra_globs@),
                all == default_globs() + extra,
                builder_holds(builder) == all.take(10 + k),
                all_valid(all.take(10 + k)),
            decreases extra_globs.len() - k,
        {
            let ghost p = all[10 + k];
            assert(p == extra_globs@[k as int]@);
            assert(all.take(10 + k + 1) =~= all.take(10 + k).push(p));
            match add_pattern(&mut builder, extra_globs[k].as_str()) {
                Ok(_) => {},
                Err(e) => {
                    return Err(e);
                },
            }
            k = k + 1;
        }
        assert(all.take(10 + k) =~= all);
        match build_set(&builder) {
            Ok(globset) => Ok(Generated { globset, paths }),
            Err(_) => Err(GlobError::NoSet),
        }
    }
}

impl Classifier for Generated {
    open spec fn label(&self) -> Seq<char> {
        "generated"@
    }

    open spec fn place(&self) -> int {
        0
    }

    open spec fn verdict(&self, file: FileDiffView, hunk: HunkView) -> Seq<FindingView> {
        classifiers::listed(
            generated_verdict(
                is_listed(self.marked(), file.path),
                any_matches(self.patterns(), file.path),
            ),
        )
    }

    open spec fn effect(&self, file: FileDiffView, hunk: HunkView) -> FileDiffView {
        file
    }

    fn name(&self) -> (r: &'static str) {
        "generated"
    }

    fn priority(&self) -> (r: i32) {
        0
    }

    fn classify(&self, file: &mut FileDiff, hunk: &Hunk) -> (r: Vec<Finding>) {
        let matched: bool = set_matches(&self.globset, file.path.as_str());
        let listed: bool = lists(&self.paths, file.path.as_str());
        classifiers::list(judge(listed, matched))
    }
}

// --- `.gitattributes` ----------------------------------------------------

/// The attributes mark a file as generated: the last that says something about
/// it does.
pub open spec fn marks(attributes: Seq<Seq<char>>) -> bool
    decreases attributes.len(),
{
    if attributes.len() == 0 {
        false
    } else {
        let a = attributes.last();
        if a == "-linguist-generated"@ || a == "linguist-generated=false"@ {
            false
        } else if a == "linguist-generated"@ || a == "linguist-generated=true"@ {
            true
        } else {
            marks(attributes.drop_last())
        }
    }
}

/// The pattern is a path and no glob.
pub open spec fn is_literal(pattern: Seq<char>) -> bool {
    !pattern.contains('*') && !pattern.contains('?') && !pattern.contains('[')
}

/// The path that a line of `.gitattributes` marks as generated.
pub open spec fn line_marks(line: Seq<char>) -> Option<Seq<char>> {
    let words = text::words_of(text::trimmed(line));
    if words.len() > 0 && !(text::begins(text::trimmed(line), "#"@)) && marks(words.drop_first())
        && is_literal(words[0]) {
        Some(words[0])
    } else {
        None
    }
}

/// The paths that these lines mark as generated, each once.
pub open spec fn marked_in(lines: Seq<Seq<char>>) -> Seq<Seq<char>>
    decreases lines.len(),
{
    if lines.len() == 0 {
        Seq::empty()
    } else {
        let before = marked_in(lines.drop_last());
        match line_marks(lines.last()) {
            Some(p) => if is_listed(before, p) {
                before
            } else {
                before.push(p)
            },
            None => before,
        }
    }
}

fn attributes_mark(words: &Vec<Vec<char>>) -> (r: bool)
    requires
        words@.len() > 0,
    ensures
        r == marks(text::views(words@).drop_first()),
{
    let ghost attributes = text::views(words@).drop_first();
    let mut marked: bool = false;
    let mut i: usize = 1;
    assert(attributes.take(0) =~= Seq::<Seq<char>>::empty());
    while i < words.len()
        invariant
            1 <= i <= words.len(),
            attributes == text::views(words@).drop_first(),
            marked == marks(attributes.take(i - 1)),
        decreases words.len() - i,
    {
        let a: String = text::string(&words[i]);
        assert(attributes[i - 1] == a@);
        assert(attributes.take(i as int).drop_last() == attributes.take(i - 1));
        assert(attributes.take(i as int).last() == a@);
        if text::str_same(a.as_str(), "-linguist-generated") || text::str_same(
            a.as_str(),
            "linguist-generated=false",
        ) {
            marked = false;
        } else if text::str_same(a.as_str(), "linguist-generated") || text::str_same(
            a.as_str(),
            "linguist-generated=true",
        ) {
            marked = true;
        }
        i = i + 1;
    }
    assert(attributes.take(i - 1) == attributes);
    marked
}

fn read_line(line: &Vec<char>) -> (r: Option<String>)
    ensures
        text::opt_view(r) == line_marks(line@),
{
    let t: &[char] = text::trim(line);
    if text::starts_with(t, "#") {
        return None;
    }
    let words: Vec<Vec<char>> = text::words(t);
    if words.len() == 0 {
        return None;
    }
    let ghost ws = text::words_of(text::trimmed(line@));
    assert(ws[0] == words@[0]@);
    if !attributes_mark(&words) {
        return None;
    }
    if text::rposition(&words[0], '*').is_some() || text::rposition(&words[0], '?').is_some()
        || text::rposition(&words[0], '[').is_some() {
        return None;
    }
    Some(text::string(&words[0]))
}

/// The paths that a `.gitattributes` file marks `linguist-generated`, each
/// once. Patterns that are no plain paths are left out.
pub fn read_gitattributes_generated(content: &str) -> (r: Vec<String>)
    ensures
        text::views(r@) == marked_in(text::lines_of(content@)),
{
    let lines: Vec<Vec<char>> = text::lines(&text::chars(content));
    let ghost all = text::lines_of(content@);
    let mut out: Vec<String> = Vec::new();
    let mut i: usize = 0;
    assert(text::views(out@) =~= marked_in(all.take(0)));
    while i < lines.len()
        invariant
            i <= lines.len(),
            all == text::views(lines@),
            text::views(out@) == marked_in(all.take(i as int)),
        decreases lines.len() - i,
    {
        assert(all.take(i + 1).drop_last() == all.take(i as int));
        assert(all.take(i + 1).last() == lines@[i as int]@);
        match read_line(&lines[i]) {
            Some(p) => {
                if !lists(&out, p.as_str()) {
                    let ghost before = out@;
                    out.push(p);
                    proof {
                        text::lemma_views_push(before, p);
                    }
                }
            },
            None => {},
        }
        i = i + 1;
    }
    assert(all.take(i as int) == all);
    out
}

/// No path is marked twice, and a marked path is no glob.
pub proof fn law_marked_paths(lines: Seq<Seq<char>>)
    ensures
        forall|i: int, j: int|
            0 <= i < j < marked_in(lines).len() ==> path::parts_of(
                #[trigger] marked_in(lines)[i],
            ) != path::parts_of(#[trigger] marked_in(lines)[j]),
        forall|i: int|
            0 <= i < marked_in(lines).len() ==> is_literal(#[trigger] marked_in(lines)[i]),
    decreases lines.len(),
{
    if lines.len() > 0 {
        law_marked_paths(lines.drop_last());
        let before = marked_in(lines.drop_last());
        let after = marked_in(lines);
        if after.len() > before.len() {
            let p = after.last();
            assert forall|i: int, j: int| 0 <= i < j < after.len() implies path::parts_of(
                #[trigger] after[i],
            ) != path::parts_of(#[trigger] after[j]) by {
                assert(after[i] == before[i]);
                if j < before.len() {
                    assert(after[j] == before[j]);
                } else {
                    assert(path::parts_of(before[i]) != path::parts_of(p));
                }
            }
            assert forall|i: int| 0 <= i < after.len() implies is_literal(#[trigger] after[i]) by {
                if i < before.len() {
                    assert(after[i] == before[i]);
                }
            }
        }
    }
}

/// A file is skipped as generated exactly where it is marked, by whatever
/// spelling of its path, or where one of the globs matches its path.
pub proof fn law_generated_files(globs: Seq<Seq<char>>, paths: Seq<Seq<char>>, path: Seq<char>)
    ensures
        ({
            let verdict = generated_verdict(is_listed(paths, path), any_matches(globs, path));
            &&& verdict is Some <==> {
                ||| exists|i: int|
                    0 <= i < globs.len() && glob_matches(#[trigger] globs[i], path)
                ||| exists|i: int|
                    0 <= i < paths.len() && path::parts_of(#[trigger] paths[i]) == path::parts_of(
                        path,
                    )
            }
            &&& verdict matches Some(f) ==> {
                &&& f.level == Level::Skip
                &&& f.category == Category::Generated
                &&& f.focus_lines is None
                &&& f.rationale == "generated file (marked linguist-generated)"@ <==> exists|i: int|
                    0 <= i < paths.len() && path::parts_of(#[trigger] paths[i]) == path::parts_of(
                        path,
                    )
            }
        }),
{
    reveal_strlit("generated file (marked linguist-generated)");
    reveal_strlit("generated file (matches generated_globs)");
    assert("generated file (marked linguist-generated)"@.len() == 42);
    assert("generated file (matches generated_globs)"@.len() == 40);
}

/// The files that common tools write are matched from the start.
pub proof fn law_known_globs(glob: Seq<char>)
    ensures
        default_globs().contains(glob) <==> {
            ||| glob == "*.lock"@
            ||| glob == "package-lock.json"@
            ||| glob == "*_pb2.py"@
            ||| glob == "*.pb.go"@
            ||| glob == "dist/**"@
            ||| glob == "build/**"@
            ||| glob == "vendor/**"@
            ||| glob == "*.min.js"@
            ||| glob == "*.min.css"@
            ||| glob == "*.generated.*"@
        },
{
    let all = default_globs();
    assert(all[0] == "*.lock"@ && all[1] == "package-lock.json"@ && all[2] == "*_pb2.py"@);
    assert(all[3] == "*.pb.go"@ && all[4] == "dist/**"@ && all[5] == "build/**"@);
    assert(all[6] == "vendor/**"@ && all[7] == "*.min.js"@ && all[8] == "*.min.css"@);
    assert(all[9] == "*.generated.*"@);
    if all.contains(glob) {
        let i = choose|i: int| 0 <= i < all.len() && all[i] == glob;
        assert(i == 0 || i == 1 || i == 2 || i == 3 || i == 4 || i == 5 || i == 6 || i == 7 || i
            == 8 || i == 9);
    }
}

/// The attribute says that a file is generated.
pub open spec fn says_generated(a: Seq<char>) -> bool {
    a == "linguist-generated"@ || a == "linguist-generated=true"@
}

/// The attribute says that a file is not generated.
pub open spec fn says_written(a: Seq<char>) -> bool {
    a == "-linguist-generated"@ || a == "linguist-generated=false"@
}

/// The last attribute of a line that says whether a file is generated decides;
/// where none does, it is not.
pub proof fn law_last_attribute_decides(attributes: Seq<Seq<char>>, i: int)
    requires
        -1 <= i < attributes.len(),
        i >= 0 ==> says_generated(attributes[i]) || says_written(attributes[i]),
        forall|j: int|
            i < j < attributes.len() ==> !says_generated(#[trigger] attributes[j])
                && !says_written(attributes[j]),
    ensures
        marks(attributes) <==> i >= 0 && says_generated(attributes[i]),
    decreases attributes.len(),
{
    reveal_strlit("linguist-generated");
    reveal_strlit("linguist-generated=true");
    reveal_strlit("-linguist-generated");
    reveal_strlit("linguist-generated=false");
    assert("linguist-generated"@.len() == 18 && "linguist-generated=true"@.len() == 23);
    assert("-linguist-generated"@.len() == 19 && "linguist-generated=false"@.len() == 24);
    if attributes.len() > 0 && i < attributes.len() - 1 {
        assert(!says_generated(attributes[attributes.len() - 1]));
        law_last_attribute_decides(attributes.drop_last(), i);
    }
}

proof fn lemma_marked_in(lines: Seq<Seq<char>>)
    ensures
        forall|i: int|
            0 <= i < lines.len() && line_marks(#[trigger] lines[i]) is Some ==> is_listed(
                marked_in(lines),
                line_marks(lines[i]).unwrap(),
            ),
        forall|j: int|
            0 <= j < marked_in(lines).len() ==> exists|i: int|
                0 <= i < lines.len() && line_marks(#[trigger] lines[i]) == Some(
                    #[trigger] marked_in(lines)[j],
                ),
    decreases lines.len(),
{
    if lines.len() > 0 {
        let rest = lines.drop_last();
        let before = marked_in(rest);
        let after = marked_in(lines);
        let last = lines.len() - 1;
        lemma_marked_in(rest);
        assert forall|i: int|
            0 <= i < lines.len() && line_marks(#[trigger] lines[i]) is Some implies is_listed(
            after,
            line_marks(lines[i]).unwrap(),
        ) by {
            let p = line_marks(lines[i]).unwrap();
            if i < last {
                assert(rest[i] == lines[i]);
                let k = choose|k: int|
                    0 <= k < before.len() && path::parts_of(#[trigger] before[k])
                        == path::parts_of(p);
                assert(after[k] == before[k]);
            } else if is_listed(before, p) {
            } else {
                assert(after[before.len() as int] == p);
            }
        }
        assert forall|j: int| 0 <= j < after.len() implies exists|i: int|
            0 <= i < lines.len() && line_marks(#[trigger] lines[i]) == Some(#[trigger] after[j]) by {
            if j < before.len() {
                assert(after[j] == before[j]);
                let i = choose|i: int|
                    0 <= i < rest.len() && line_marks(#[trigger] rest[i]) == Some(before[j]);
                assert(lines[i] == rest[i]);
            } else {
                assert(line_marks(lines[last]) == Some(after[j]));
            }
        }
    }
}

/// A line marks the path that it begins with: one without wildcards, where the
/// line is no comment and its attributes say so. No path that a line marks is
/// lost, and no other is added.
pub proof fn law_no_mark_is_lost(lines: Seq<Seq<char>>, i: int, j: int)
    requires
        0 <= i < lines.len(),
        0 <= j < marked_in(lines).len(),
    ensures
        ({
            let words = text::words_of(text::trimmed(lines[i]));
            words.len() > 0 && !text::begins(text::trimmed(lines[i]), "#"@) && marks(
                words.drop_first(),
            ) && !words[0].contains('*') && !words[0].contains('?') && !words[0].contains('[')
                ==> exists|k: int|
                0 <= k < marked_in(lines).len() && path::parts_of(#[trigger] marked_in(lines)[k])
                    == path::parts_of(words[0])
        }),
        exists|k: int|
            0 <= k < lines.len() && ({
                let words = text::words_of(text::trimmed(#[trigger] lines[k]));
                &&& words.len() > 0
                &&& words[0] == marked_in(lines)[j]
                &&& marks(words.drop_first())
                &&& !text::begins(text::trimmed(lines[k]), "#"@)
            }),
{
    lemma_marked_in(lines);
    let k = choose|k: int|
        0 <= k < lines.len() && line_marks(#[trigger] lines[k]) == Some(marked_in(lines)[j]);
    assert(text::words_of(text::trimmed(lines[k]))[0] == marked_in(lines)[j]);
}

} // verus!
