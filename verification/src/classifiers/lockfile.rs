//! Lockfiles, by the name of the file.
use vstd::prelude::*;

use crate::classifiers;
use crate::classify::{Category, Classification, Classifier, Finding, FindingView, Level};
use crate::diff::{FileDiff, FileDiffView, Hunk, HunkView};
use crate::path;
use crate::text;

verus! {

/// The names that are known from the start.
pub const DEFAULT_NAMES: [&'static str; 9] = [
    "Cargo.lock",
    "package-lock.json",
    "yarn.lock",
    "pnpm-lock.yaml",
    "Gemfile.lock",
    "poetry.lock",
    "Pipfile.lock",
    "composer.lock",
    "go.sum",
];

/// The names that are known from the start.
pub open spec fn default_names() -> Seq<Seq<char>> {
    seq![
        "Cargo.lock"@,
        "package-lock.json"@,
        "yarn.lock"@,
        "pnpm-lock.yaml"@,
        "Gemfile.lock"@,
        "poetry.lock"@,
        "Pipfile.lock"@,
        "composer.lock"@,
        "go.sum"@,
    ]
}

/// Skips every hunk of a file whose name is that of a lockfile.
pub struct Lockfile {
    names: Vec<String>,
}

/// The finding on a file, if its name is among these.
pub open spec fn lockfile_verdict(names: Seq<Seq<char>>, file: FileDiffView) -> Option<
    FindingView,
> {
    match path::name_of(file.path) {
        Some(name) => if names.contains(name) {
            Some(
                classifiers::finding_of(
                    Level::Skip,
                    Category::Lockfile,
                    "lockfile update ("@ + name + ")"@,
                    "lockfile"@,
                    None,
                ),
            )
        } else {
            None
        },
        None => None,
    }
}

impl Lockfile {
    /// The names of lockfiles.
    pub closed spec fn known(&self) -> Seq<Seq<char>> {
        text::views(self.names@)
    }

    /// Knows the names that are known from the start, and these.
    pub fn new(extra: Vec<String>) -> (r: Self)
        ensures
            r.known() == default_names() + text::views(extra@),
    {
        let ghost more = text::views(extra@);
        let mut extra: Vec<String> = extra;
        let mut names: Vec<String> = Vec::new();
        let mut i: usize = 0;
        let known: [&'static str; 9] = DEFAULT_NAMES;
        assert(text::views(known@) =~= default_names());
        while i < 9
            invariant
                i <= 9,
                text::views(known@) == default_names(),
                text::views(names@) == default_names().take(i as int),
            decreases 9 - i,
        {
            let ghost before = names@;
            let name: String = known[i].to_string();
            names.push(name);
            proof {
                text::lemma_views_push(before, name);
                assert(text::views(known@)[i as int] == known@[i as int]@);
                assert(default_names().take(i + 1) =~= default_names().take(i as int).push(name@));
            }
            i = i + 1;
        }
        assert(default_names().take(9) =~= default_names());
        names.append(&mut extra);
        assert(text::views(names@) =~= default_names() + more);
        Lockfile { names }
    }

    fn knows(&self, name: &Vec<char>) -> (r: bool)
        ensures
            r == self.known().contains(name@),
    {
        let ghost all = self.known();
        let mut i: usize = 0;
        while i < self.names.len()
            invariant
                i <= self.names.len(),
                all == text::views(self.names@),
                all == self.known(),
                forall|k: int| 0 <= k < i ==> all[k] != name@,
            decreases self.names.len() - i,
        {
            assert(all[i as int] == self.names@[i as int]@);
            if text::same(&text::chars(self.names[i].as_str()), name) {
                return true;
            }
            i = i + 1;
        }
        false
    }

    pub fn classify(&self, file: &mut FileDiff, hunk: &Hunk) -> (r: Option<Classification>)
        ensures
            text::opt_view(r) == lockfile_verdict(self.known(), old(file)@),
            final(file)@ == old(file)@,
    {
        let name: Vec<char> = match path::file_name(file.path.as_str()) {
            Some(n) => n,
            None => return None,
        };
        if !self.knows(&name) {
            return None;
        }
        let mut rationale: String = "lockfile update (".to_string();
        rationale.append(text::string(&name).as_str());
        rationale.append(")");
        Some(
            classifiers::finding(Level::Skip, Category::Lockfile, rationale, "lockfile", None),
        )
    }
}

impl Classifier for Lockfile {
    open spec fn label(&self) -> Seq<char> {
        "lockfile"@
    }

    open spec fn place(&self) -> int {
        1
    }

    open spec fn verdict(&self, file: FileDiffView, hunk: HunkView) -> Seq<FindingView> {
        classifiers::listed(lockfile_verdict(self.known(), file))
    }

    open spec fn effect(&self, file: FileDiffView, hunk: HunkView) -> FileDiffView {
        file
    }

    fn name(&self) -> (r: &'static str) {
        "lockfile"
    }

    fn priority(&self) -> (r: i32) {
        1
    }

    fn classify(&self, file: &mut FileDiff, hunk: &Hunk) -> (r: Vec<Finding>) {
        classifiers::list(Lockfile::classify(self, file, hunk))
    }
}

/// A file is skipped as a lockfile exactly where its name, in whatever directory
/// it is, is one of the names.
pub proof fn law_lockfiles_by_name(
    names: Seq<Seq<char>>,
    file: FileDiffView,
    dir: Seq<char>,
    name: Seq<char>,
)
    requires
        name.len() > 0,
        !name.contains('/'),
        name != "."@,
        name != ".."@,
        file.path == name || file.path == dir + seq!['/'] + name,
    ensures
        lockfile_verdict(names, file) is Some <==> exists|i: int|
            0 <= i < names.len() && #[trigger] names[i] == name,
        lockfile_verdict(names, file) matches Some(f) ==> f.level == Level::Skip && f.category
            == Category::Lockfile && f.focus_lines is None && f.rationale == "lockfile update ("@ + name
            + ")"@,
{
    path::law_parts(dir, name);
}

/// The lockfiles of the common package managers are known from the start.
pub proof fn law_known_lockfiles(name: Seq<char>)
    ensures
        default_names().contains(name) <==> {
            ||| name == "Cargo.lock"@
            ||| name == "package-lock.json"@
            ||| name == "yarn.lock"@
            ||| name == "pnpm-lock.yaml"@
            ||| name == "Gemfile.lock"@
            ||| name == "poetry.lock"@
            ||| name == "Pipfile.lock"@
            ||| name == "composer.lock"@
            ||| name == "go.sum"@
        },
{
    let all = default_names();
    assert(all[0] == "Cargo.lock"@ && all[1] == "package-lock.json"@ && all[2] == "yarn.lock"@);
    assert(all[3] == "pnpm-lock.yaml"@ && all[4] == "Gemfile.lock"@ && all[5] == "poetry.lock"@);
    assert(all[6] == "Pipfile.lock"@ && all[7] == "composer.lock"@ && all[8] == "go.sum"@);
    if all.contains(name) {
        let i = choose|i: int| 0 <= i < all.len() && all[i] == name;
        assert(i == 0 || i == 1 || i == 2 || i == 3 || i == 4 || i == 5 || i == 6 || i == 7 || i
            == 8);
    }
}

} // verus!
