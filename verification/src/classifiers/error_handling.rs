//! Error handling that is removed.
//!
//! - Rust: the `?` operator.
//! - Python: `try` statements and `except` clauses.
//! - TypeScript and JavaScript: `try` statements and `catch` clauses.
//!
//! To add error handling is benign. The lines are those of the old file: the
//! construct is in no other.
use vstd::prelude::*;

use crate::ast;
use crate::ast::{SyntaxTree, Visit, VisitView};
use crate::classifiers;
use crate::classifiers::control_flow::{Hit, HitView};
use crate::classify::{
    Category, Classification, Classifier, Finding, FindingView, FocusLines, Level, Side,
};
use crate::diff::{FileDiff, FileDiffView, Hunk, HunkView};
use crate::lang::Language;
use crate::text;

verus! {

/// Asks for review where error handling is removed.
pub struct ErrorHandlingDeleted;

/// What a node of this kind is called, if it handles errors.
pub open spec fn label_of(language: Language, kind: Seq<char>) -> Option<Seq<char>> {
    match language {
        Language::Rust => if kind == "try_expression"@ {
            Some("? operator"@)
        } else {
            None
        },
        Language::Python => if kind == "try_statement"@ {
            Some("try/except block"@)
        } else if kind == "except_clause"@ {
            Some("except clause"@)
        } else {
            None
        },
        _ => if kind == "try_statement"@ {
            Some("try/catch block"@)
        } else if kind == "catch_clause"@ {
            Some("catch clause"@)
        } else {
            None
        },
    }
}

fn error_handler_label(language: Language, kind: &str) -> (r: Option<&'static str>)
    ensures
        text::opt_view(r) == label_of(language, kind@),
{
    match language {
        Language::Rust => if text::str_same(kind, "try_expression") {
            Some("? operator")
        } else {
            None
        },
        Language::Python => if text::str_same(kind, "try_statement") {
            Some("try/except block")
        } else if text::str_same(kind, "except_clause") {
            Some("except clause")
        } else {
            None
        },
        _ => if text::str_same(kind, "try_statement") {
            Some("try/catch block")
        } else if text::str_same(kind, "catch_clause") {
            Some("catch clause")
        } else {
            None
        },
    }
}

/// The first construct among these nodes whose first line is removed. A line that
/// is removed inside it does not count.
pub open spec fn first_removed(
    language: Language,
    vs: Seq<VisitView>,
    removed: Seq<u32>,
) -> Option<HitView>
    decreases vs.len(),
{
    if vs.len() == 0 {
        None
    } else {
        let n = vs[0].node;
        match label_of(language, n.kind) {
            Some(label) if removed.contains(n.start_line) => Some(
                HitView { label, start: n.start_line, end: n.end_line },
            ),
            _ => first_removed(language, vs.drop_first(), removed),
        }
    }
}

/// The first construct of the old tree whose first line is removed.
pub fn find_removed_error_handler(
    language: Language,
    old_tree: &SyntaxTree,
    removed_lines: &[u32],
) -> (r: Option<Hit>)
    ensures
        text::opt_view(r) == first_removed(language, ast::preorder(old_tree@), removed_lines@),
{
    let all: Vec<Visit<'_>> = ast::walk(&old_tree.root);
    let ghost vs = ast::preorder(old_tree@);
    let mut i: usize = 0;
    assert(vs.skip(0) == vs);
    while i < all.len()
        invariant
            i <= all.len(),
            vs == ast::preorder(old_tree@),
            vs == text::views(all@),
            first_removed(language, vs, removed_lines@) == first_removed(
                language,
                vs.skip(i as int),
                removed_lines@,
            ),
        decreases all.len() - i,
    {
        assert(vs.skip(i as int)[0] == all@[i as int]@);
        assert(vs.skip(i as int).drop_first() == vs.skip(i + 1));
        let (start, end): (u32, u32) = ast::node_lines(all[i].node);
        match error_handler_label(language, all[i].node.kind()) {
            Some(label) => {
                if ast::has_line(removed_lines, start) {
                    return Some(Hit { label, start, end });
                }
            },
            None => {},
        }
        i = i + 1;
    }
    None
}

/// The finding on a hunk: a construct of the old file whose first line is
/// removed.
pub open spec fn handling_verdict(file: FileDiffView, hunk: HunkView) -> Option<FindingView> {
    match (file.language, file.old_content) {
        (Some(l), Some(old)) => match ast::syntax_of(l, old) {
            Some(t) => match first_removed(l, ast::preorder(t), hunk.removed_lines) {
                Some(h) => Some(
                    classifiers::finding_of(
                        Level::Review,
                        Category::ErrorHandlingDeleted,
                        classifiers::phrase(
                            "removed "@ + h.label,
                            " at old lines "@,
                            h.start,
                            h.end,
                        ),
                        "error_handling"@,
                        classifiers::focus(h.start, h.end, Side::Old),
                    ),
                ),
                None => None,
            },
            None => None,
        },
        _ => None,
    }
}

proof fn lemma_nothing_removed(language: Language, vs: Seq<VisitView>, removed: Seq<u32>)
    requires
        removed.len() == 0,
    ensures
        first_removed(language, vs, removed) is None,
    decreases vs.len(),
{
    if vs.len() > 0 {
        lemma_nothing_removed(language, vs.drop_first(), removed);
    }
}

/// Where no line is removed the rule makes no finding: it never fires on what
/// is only added.
pub proof fn law_additions_are_benign(file: FileDiffView, hunk: HunkView)
    requires
        hunk.removed_lines.len() == 0,
    ensures
        handling_verdict(file, hunk) is None,
{
    match (file.language, file.old_content) {
        (Some(l), Some(old)) => match ast::syntax_of(l, old) {
            Some(t) => lemma_nothing_removed(l, ast::preorder(t), hunk.removed_lines),
            None => {},
        },
        _ => {},
    }
}

proof fn lemma_head_is_removed(language: Language, vs: Seq<VisitView>, removed: Seq<u32>)
    ensures
        first_removed(language, vs, removed) matches Some(h) ==> removed.contains(h.start),
    decreases vs.len(),
{
    if vs.len() > 0 {
        lemma_head_is_removed(language, vs.drop_first(), removed);
    }
}

/// What the rule finds has its first line removed: an edit inside a construct is
/// no finding.
pub proof fn law_head_is_removed(file: FileDiffView, hunk: HunkView)
    ensures
        handling_verdict(file, hunk) matches Some(f) ==> (f.focus_lines matches Some(l)
            && hunk.removed_lines.contains(l.start)),
{
    match (file.language, file.old_content) {
        (Some(l), Some(old)) => match ast::syntax_of(l, old) {
            Some(t) => lemma_head_is_removed(l, ast::preorder(t), hunk.removed_lines),
            None => {},
        },
        _ => {},
    }
}

/// What the rule finds is on the old side, and the new file does not matter.
pub proof fn law_old_side_only(
    file: FileDiffView,
    hunk: HunkView,
    new_content: Option<Seq<char>>,
)
    ensures
        handling_verdict(file, hunk) matches Some(f) ==> (f.focus_lines matches Some(l) && l.side
            == Side::Old),
        handling_verdict(FileDiffView { new_content, ..file }, hunk) == handling_verdict(
            file,
            hunk,
        ),
{
}

impl ErrorHandlingDeleted {
    pub fn new() -> (r: Self)
        ensures
            r == ErrorHandlingDeleted,
    {
        ErrorHandlingDeleted
    }

    pub fn classify(&self, file: &mut FileDiff, hunk: &Hunk) -> (r: Option<Classification>)
        ensures
            text::opt_view(r) == handling_verdict(old(file)@, hunk@),
            final(file)@ == old(file)@,
    {
        let language: Language = match file.language {
            Some(l) => l,
            None => return None,
        };
        if hunk.removed_lines.len() == 0 {
            proof {
                law_additions_are_benign(file@, hunk@);
            }
            return None;
        }
        let tree: SyntaxTree = match &file.old_content {
            Some(c) => match ast::parse(language, c.as_str()) {
                Some(t) => t,
                None => return None,
            },
            None => return None,
        };
        match find_removed_error_handler(language, &tree, &hunk.removed_lines) {
            Some(h) => {
                let mut what: String = "removed ".to_string();
                what.append(h.label);
                Some(
                    classifiers::finding(
                        Level::Review,
                        Category::ErrorHandlingDeleted,
                        classifiers::say(what.as_str(), " at old lines ", h.start, h.end),
                        "error_handling",
                        Some(FocusLines { start: h.start, end: h.end, side: Side::Old }),
                    ),
                )
            },
            None => None,
        }
    }
}

impl Default for ErrorHandlingDeleted {
    fn default() -> (r: Self)
        ensures
            r == ErrorHandlingDeleted,
    {
        ErrorHandlingDeleted
    }
}

impl Classifier for ErrorHandlingDeleted {
    open spec fn label(&self) -> Seq<char> {
        "error_handling"@
    }

    open spec fn place(&self) -> int {
        140
    }

    open spec fn verdict(&self, file: FileDiffView, hunk: HunkView) -> Seq<FindingView> {
        classifiers::listed(handling_verdict(file, hunk))
    }

    open spec fn effect(&self, file: FileDiffView, hunk: HunkView) -> FileDiffView {
        file
    }

    fn name(&self) -> (r: &'static str) {
        "error_handling"
    }

    fn priority(&self) -> (r: i32) {
        140
    }

    fn classify(&self, file: &mut FileDiff, hunk: &Hunk) -> (r: Vec<Finding>) {
        classifiers::list(ErrorHandlingDeleted::classify(self, file, hunk))
    }
}

// --- what the rule finds -------------------------------------------------

/// The grammar of the language calls a construct that handles errors by this
/// kind; a reader calls it by this name.
pub open spec fn is_handler(language: Language, kind: Seq<char>, name: Seq<char>) -> bool {
    match language {
        Language::Rust => kind == "try_expression"@ && name == "? operator"@,
        Language::Python => {
            ||| kind == "try_statement"@ && name == "try/except block"@
            ||| kind == "except_clause"@ && name == "except clause"@
        },
        Language::JavaScript | Language::TypeScript => {
            ||| kind == "try_statement"@ && name == "try/catch block"@
            ||| kind == "catch_clause"@ && name == "catch clause"@
        },
    }
}

/// The node handles errors, and its first line is one of these.
pub open spec fn loses_its_head(
    language: Language,
    n: ast::NodeView,
    removed: Seq<u32>,
    name: Seq<char>,
) -> bool {
    is_handler(language, n.kind, name) && removed.contains(n.start_line)
}

proof fn lemma_handler(language: Language, kind: Seq<char>, name: Seq<char>)
    ensures
        is_handler(language, kind, name) <==> label_of(language, kind) == Some(name),
{
    reveal_strlit("try_statement");
    reveal_strlit("except_clause");
    reveal_strlit("catch_clause");
    assert("try_statement"@[0] == 't' && "except_clause"@[0] == 'e');
}

proof fn lemma_first_removed(
    language: Language,
    vs: Seq<VisitView>,
    removed: Seq<u32>,
    k: int,
    name: Seq<char>,
)
    requires
        0 <= k < vs.len(),
        loses_its_head(language, vs[k].node, removed, name),
        forall|j: int, other: Seq<char>|
            0 <= j < k ==> !#[trigger] loses_its_head(language, vs[j].node, removed, other),
    ensures
        first_removed(language, vs, removed) == Some(
            HitView { label: name, start: vs[k].node.start_line, end: vs[k].node.end_line },
        ),
    decreases k,
{
    if k == 0 {
        lemma_handler(language, vs[0].node.kind, name);
    } else {
        match label_of(language, vs[0].node.kind) {
            Some(l) => {
                lemma_handler(language, vs[0].node.kind, l);
                assert(!loses_its_head(language, vs[0].node, removed, l));
            },
            None => {},
        }
        let rest = vs.drop_first();
        assert forall|j: int, other: Seq<char>| 0 <= j < k - 1 implies !#[trigger] loses_its_head(
            language,
            rest[j].node,
            removed,
            other,
        ) by {
            assert(!loses_its_head(language, vs[j + 1].node, removed, other));
        }
        lemma_first_removed(language, rest, removed, k - 1, name);
    }
}

proof fn lemma_none_removed(language: Language, vs: Seq<VisitView>, removed: Seq<u32>)
    requires
        forall|j: int, other: Seq<char>|
            0 <= j < vs.len() ==> !#[trigger] loses_its_head(language, vs[j].node, removed, other),
    ensures
        first_removed(language, vs, removed) is None,
    decreases vs.len(),
{
    if vs.len() > 0 {
        match label_of(language, vs[0].node.kind) {
            Some(l) => {
                lemma_handler(language, vs[0].node.kind, l);
                assert(!loses_its_head(language, vs[0].node, removed, l));
            },
            None => {},
        }
        let rest = vs.drop_first();
        assert forall|j: int, other: Seq<char>|
            0 <= j < rest.len() implies !#[trigger] loses_its_head(
            language,
            rest[j].node,
            removed,
            other,
        ) by {
            assert(!loses_its_head(language, vs[j + 1].node, removed, other));
        }
        lemma_none_removed(language, rest, removed);
    }
}

/// Where the first line of a construct that handled errors is removed, the first
/// such construct of the old file is to be reviewed, by its name and over all of
/// its lines.
pub proof fn law_removed_handlers_are_found(
    file: FileDiffView,
    hunk: HunkView,
    language: Language,
    content: Seq<char>,
    tree: ast::NodeView,
    k: int,
    name: Seq<char>,
)
    requires
        file.language == Some(language),
        file.old_content == Some(content),
        ast::syntax_of(language, content) == Some(tree),
        0 <= k < ast::preorder(tree).len(),
        loses_its_head(language, ast::preorder(tree)[k].node, hunk.removed_lines, name),
        forall|j: int, other: Seq<char>|
            0 <= j < k ==> !#[trigger] loses_its_head(
                language,
                ast::preorder(tree)[j].node,
                hunk.removed_lines,
                other,
            ),
    ensures
        ({
            let n = ast::preorder(tree)[k].node;
            handling_verdict(file, hunk) matches Some(f) && f.level == Level::Review && f.category
                == Category::ErrorHandlingDeleted && f.focus_lines == Some(
                FocusLines { start: n.start_line, end: n.end_line, side: Side::Old },
            ) && f.rationale == "removed "@ + name + " at old lines "@ + text::dec(
                n.start_line as nat,
            ) + "–"@ + text::dec(n.end_line as nat)
        }),
{
    lemma_first_removed(language, ast::preorder(tree), hunk.removed_lines, k, name);
}

/// Where every construct of the old file that handled errors keeps its first
/// line, the rule says nothing.
pub proof fn law_kept_handlers_are_passed(
    file: FileDiffView,
    hunk: HunkView,
    language: Language,
    content: Seq<char>,
    tree: ast::NodeView,
)
    requires
        file.language == Some(language),
        file.old_content == Some(content),
        ast::syntax_of(language, content) == Some(tree),
        forall|j: int, other: Seq<char>|
            0 <= j < ast::preorder(tree).len() ==> !#[trigger] loses_its_head(
                language,
                ast::preorder(tree)[j].node,
                hunk.removed_lines,
                other,
            ),
    ensures
        handling_verdict(file, hunk) is None,
{
    lemma_none_removed(language, ast::preorder(tree), hunk.removed_lines);
}

} // verus!
