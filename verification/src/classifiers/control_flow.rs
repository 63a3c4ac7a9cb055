//! Branches, loops and returns that are added, removed or changed.
//!
//! The rule looks at the first line of a construct: a change there adds,
//! removes or edits its head, not merely what is inside it.
use vstd::prelude::*;

use crate::ast;
use crate::ast::{SyntaxTree, Visit, VisitView};
use crate::classifiers;
use crate::classify::{
    Category, Classification, Classifier, Finding, FindingView, FocusLines, Level, Side,
};
use crate::diff::{FileDiff, FileDiffView, Hunk, HunkView};
use crate::lang::Language;
use crate::text;

verus! {

/// Asks for review where the head of a branch, a loop or a return changes.
pub struct ControlFlow;

/// What a node of this kind is called, if it steers the flow of control.
pub open spec fn label_of(language: Language, kind: Seq<char>) -> Option<Seq<char>> {
    match language {
        Language::Rust => if kind == "if_expression"@ {
            Some("if-branch"@)
        } else if kind == "match_expression"@ {
            Some("match"@)
        } else if kind == "for_expression"@ {
            Some("for-loop"@)
        } else if kind == "while_expression"@ {
            Some("while-loop"@)
        } else if kind == "loop_expression"@ {
            Some("loop"@)
        } else if kind == "return_expression"@ {
            Some("return"@)
        } else {
            None
        },
        Language::Python => if kind == "if_statement"@ {
            Some("if-branch"@)
        } else if kind == "match_statement"@ {
            Some("match"@)
        } else if kind == "for_statement"@ {
            Some("for-loop"@)
        } else if kind == "while_statement"@ {
            Some("while-loop"@)
        } else if kind == "return_statement"@ {
            Some("return"@)
        } else {
            None
        },
        _ => if kind == "if_statement"@ {
            Some("if-branch"@)
        } else if kind == "switch_statement"@ {
            Some("switch"@)
        } else if kind == "for_statement"@ || kind == "for_in_statement"@ || kind
            == "for_of_statement"@ {
            Some("for-loop"@)
        } else if kind == "while_statement"@ {
            Some("while-loop"@)
        } else if kind == "do_statement"@ {
            Some("do-loop"@)
        } else if kind == "return_statement"@ {
            Some("return"@)
        } else {
            None
        },
    }
}

fn control_flow_label(language: Language, kind: &str) -> (r: Option<&'static str>)
    ensures
        text::opt_view(r) == label_of(language, kind@),
{
    match language {
        Language::Rust => if text::str_same(kind, "if_expression") {
            Some("if-branch")
        } else if text::str_same(kind, "match_expression") {
            Some("match")
        } else if text::str_same(kind, "for_expression") {
            Some("for-loop")
        } else if text::str_same(kind, "while_expression") {
            Some("while-loop")
        } else if text::str_same(kind, "loop_expression") {
            Some("loop")
        } else if text::str_same(kind, "return_expression") {
            Some("return")
        } else {
            None
        },
        Language::Python => if text::str_same(kind, "if_statement") {
            Some("if-branch")
        } else if text::str_same(kind, "match_statement") {
            Some("match")
        } else if text::str_same(kind, "for_statement") {
            Some("for-loop")
        } else if text::str_same(kind, "while_statement") {
            Some("while-loop")
        } else if text::str_same(kind, "return_statement") {
            Some("return")
        } else {
            None
        },
        _ => if text::str_same(kind, "if_statement") {
            Some("if-branch")
        } else if text::str_same(kind, "switch_statement") {
            Some("switch")
        } else if text::str_same(kind, "for_statement") || text::str_same(kind, "for_in_statement")
            || text::str_same(kind, "for_of_statement") {
            Some("for-loop")
        } else if text::str_same(kind, "while_statement") {
            Some("while-loop")
        } else if text::str_same(kind, "do_statement") {
            Some("do-loop")
        } else if text::str_same(kind, "return_statement") {
            Some("return")
        } else {
            None
        },
    }
}

/// A construct that was found: what it is called, and its lines.
#[verifier::ext_equal]
pub struct HitView {
    pub label: Seq<char>,
    pub start: u32,
    pub end: u32,
}

/// A construct that was found: what it is called, and its lines.
pub struct Hit {
    pub label: &'static str,
    pub start: u32,
    pub end: u32,
}

impl View for Hit {
    type V = HitView;

    open spec fn view(&self) -> HitView {
        HitView { label: self.label@, start: self.start, end: self.end }
    }
}

/// The first construct among these nodes that begins on one of the lines.
pub open spec fn first_hit(
    language: Language,
    vs: Seq<VisitView>,
    lines: Seq<u32>,
) -> Option<HitView>
    decreases vs.len(),
{
    if vs.len() == 0 {
        None
    } else {
        let n = vs[0].node;
        match label_of(language, n.kind) {
            Some(label) if lines.contains(n.start_line) => Some(
                HitView { label, start: n.start_line, end: n.end_line },
            ),
            _ => first_hit(language, vs.drop_first(), lines),
        }
    }
}

/// The first construct of the tree that begins on one of the lines.
pub fn find_control_flow_node(language: Language, tree: &SyntaxTree, lines: &[u32]) -> (r: Option<
    Hit,
>)
    ensures
        text::opt_view(r) == first_hit(language, ast::preorder(tree@), lines@),
{
    let all: Vec<Visit<'_>> = ast::walk(&tree.root);
    let ghost vs = ast::preorder(tree@);
    let mut i: usize = 0;
    assert(vs.skip(0) == vs);
    while i < all.len()
        invariant
            i <= all.len(),
            vs == ast::preorder(tree@),
            vs == text::views(all@),
            first_hit(language, vs, lines@) == first_hit(language, vs.skip(i as int), lines@),
        decreases all.len() - i,
    {
        assert(vs.skip(i as int)[0] == all@[i as int]@);
        assert(vs.skip(i as int).drop_first() == vs.skip(i + 1));
        let (start, end): (u32, u32) = ast::node_lines(all[i].node);
        match control_flow_label(language, all[i].node.kind()) {
            Some(label) => {
                if ast::has_line(lines, start) {
                    return Some(Hit { label, start, end });
                }
            },
            None => {},
        }
        i = i + 1;
    }
    None
}

/// The first construct in a text that begins on one of the lines.
pub open spec fn hit_in(
    language: Language,
    content: Option<Seq<char>>,
    lines: Seq<u32>,
) -> Option<HitView> {
    match content {
        Some(c) => match ast::syntax_of(language, c) {
            Some(t) => first_hit(language, ast::preorder(t), lines),
            None => None,
        },
        None => None,
    }
}

/// The finding on a hunk: a construct that begins on an added line, or else one
/// that began on a removed line.
pub open spec fn flow_verdict(file: FileDiffView, hunk: HunkView) -> Option<FindingView> {
    match file.language {
        None => None,
        Some(l) => match hit_in(l, file.new_content, hunk.added_lines) {
            Some(h) => Some(
                classifiers::finding_of(
                    Level::Review,
                    Category::ControlFlow,
                    classifiers::phrase(h.label, " at lines "@, h.start, h.end),
                    "control_flow"@,
                    classifiers::focus(h.start, h.end, Side::New),
                ),
            ),
            None => match hit_in(l, file.old_content, hunk.removed_lines) {
                Some(h) => Some(
                    classifiers::finding_of(
                        Level::Review,
                        Category::ControlFlow,
                        classifiers::phrase(h.label, " removed at old lines "@, h.start, h.end),
                        "control_flow"@,
                        classifiers::focus(h.start, h.end, Side::Old),
                    ),
                ),
                None => None,
            },
        },
    }
}

/// Without lines there is nothing to find.
proof fn lemma_no_lines(language: Language, vs: Seq<VisitView>, lines: Seq<u32>)
    requires
        lines.len() == 0,
    ensures
        first_hit(language, vs, lines) is None,
    decreases vs.len(),
{
    if vs.len() > 0 {
        lemma_no_lines(language, vs.drop_first(), lines);
    }
}

proof fn lemma_hit_begins_on_a_line(language: Language, vs: Seq<VisitView>, lines: Seq<u32>)
    ensures
        first_hit(language, vs, lines) matches Some(h) ==> lines.contains(h.start),
    decreases vs.len(),
{
    if vs.len() > 0 {
        lemma_hit_begins_on_a_line(language, vs.drop_first(), lines);
    }
}

proof fn lemma_hit_in(language: Language, content: Option<Seq<char>>, lines: Seq<u32>)
    ensures
        hit_in(language, content, lines) matches Some(h) ==> lines.contains(h.start),
{
    match content {
        Some(c) => match ast::syntax_of(language, c) {
            Some(t) => lemma_hit_begins_on_a_line(language, ast::preorder(t), lines),
            None => {},
        },
        None => {},
    }
}

/// What the rule finds begins on a line that changes on that side: a change
/// inside a construct is no finding.
pub proof fn law_focus_begins_on_a_change(file: FileDiffView, hunk: HunkView)
    ensures
        flow_verdict(file, hunk) matches Some(f) ==> (f.focus_lines matches Some(l)
            && classifiers::changed_lines(hunk, l.side).contains(l.start)),
{
    match file.language {
        Some(l) => {
            lemma_hit_in(l, file.new_content, hunk.added_lines);
            lemma_hit_in(l, file.old_content, hunk.removed_lines);
        },
        None => {},
    }
}

fn look(language: Language, content: &Option<String>, lines: &Vec<u32>) -> (r: Option<Hit>)
    ensures
        text::opt_view(r) == hit_in(language, text::opt_view(*content), lines@),
{
    if lines.len() == 0 {
        proof {
            match text::opt_view(*content) {
                Some(c) => match ast::syntax_of(language, c) {
                    Some(t) => lemma_no_lines(language, ast::preorder(t), lines@),
                    None => {},
                },
                None => {},
            }
        }
        return None;
    }
    match content {
        Some(c) => match ast::parse(language, c.as_str()) {
            Some(tree) => find_control_flow_node(language, &tree, lines),
            None => None,
        },
        None => None,
    }
}

impl ControlFlow {
    pub fn new() -> (r: Self)
        ensures
            r == ControlFlow,
    {
        ControlFlow
    }

    pub fn classify(&self, file: &mut FileDiff, hunk: &Hunk) -> (r: Option<Classification>)
        ensures
            text::opt_view(r) == flow_verdict(old(file)@, hunk@),
            final(file)@ == old(file)@,
    {
        let language: Language = match file.language {
            Some(l) => l,
            None => return None,
        };
        match look(language, &file.new_content, &hunk.added_lines) {
            Some(h) => Some(
                classifiers::finding(
                    Level::Review,
                    Category::ControlFlow,
                    classifiers::say(h.label, " at lines ", h.start, h.end),
                    "control_flow",
                    Some(FocusLines { start: h.start, end: h.end, side: Side::New }),
                ),
            ),
            None => match look(language, &file.old_content, &hunk.removed_lines) {
                Some(h) => Some(
                    classifiers::finding(
                        Level::Review,
                        Category::ControlFlow,
                        classifiers::say(h.label, " removed at old lines ", h.start, h.end),
                        "control_flow",
                        Some(FocusLines { start: h.start, end: h.end, side: Side::Old }),
                    ),
                ),
                None => None,
            },
        }
    }
}

impl Default for ControlFlow {
    fn default() -> (r: Self)
        ensures
            r == ControlFlow,
    {
        ControlFlow
    }
}

impl Classifier for ControlFlow {
    open spec fn label(&self) -> Seq<char> {
        "control_flow"@
    }

    open spec fn place(&self) -> int {
        130
    }

    open spec fn verdict(&self, file: FileDiffView, hunk: HunkView) -> Seq<FindingView> {
        classifiers::listed(flow_verdict(file, hunk))
    }

    open spec fn effect(&self, file: FileDiffView, hunk: HunkView) -> FileDiffView {
        file
    }

    fn name(&self) -> (r: &'static str) {
        "control_flow"
    }

    fn priority(&self) -> (r: i32) {
        130
    }

    fn classify(&self, file: &mut FileDiff, hunk: &Hunk) -> (r: Vec<Finding>) {
        classifiers::list(ControlFlow::classify(self, file, hunk))
    }
}

// --- what the rule finds -------------------------------------------------

/// The grammar of the language calls a construct by this kind; a reader calls it
/// by this name.
pub open spec fn is_construct(language: Language, kind: Seq<char>, name: Seq<char>) -> bool {
    match language {
        Language::Rust => {
            ||| kind == "if_expression"@ && name == "if-branch"@
            ||| kind == "match_expression"@ && name == "match"@
            ||| kind == "for_expression"@ && name == "for-loop"@
            ||| kind == "while_expression"@ && name == "while-loop"@
            ||| kind == "loop_expression"@ && name == "loop"@
            ||| kind == "return_expression"@ && name == "return"@
        },
        Language::Python => {
            ||| kind == "if_statement"@ && name == "if-branch"@
            ||| kind == "match_statement"@ && name == "match"@
            ||| kind == "for_statement"@ && name == "for-loop"@
            ||| kind == "while_statement"@ && name == "while-loop"@
            ||| kind == "return_statement"@ && name == "return"@
        },
        Language::JavaScript | Language::TypeScript => {
            ||| kind == "if_statement"@ && name == "if-branch"@
            ||| kind == "switch_statement"@ && name == "switch"@
            ||| kind == "for_statement"@ && name == "for-loop"@
            ||| kind == "for_in_statement"@ && name == "for-loop"@
            ||| kind == "for_of_statement"@ && name == "for-loop"@
            ||| kind == "while_statement"@ && name == "while-loop"@
            ||| kind == "do_statement"@ && name == "do-loop"@
            ||| kind == "return_statement"@ && name == "return"@
        },
    }
}

/// The node is a construct of this name, and its first line is one of these.
pub open spec fn begins_on(
    language: Language,
    n: ast::NodeView,
    lines: Seq<u32>,
    name: Seq<char>,
) -> bool {
    is_construct(language, n.kind, name) && lines.contains(n.start_line)
}

/// The first construct of a text that begins on one of these lines is this one.
pub open spec fn is_first(
    language: Language,
    content: Option<Seq<char>>,
    lines: Seq<u32>,
    k: int,
    name: Seq<char>,
) -> bool {
    &&& content matches Some(c)
    &&& ast::syntax_of(language, c) matches Some(t)
    &&& 0 <= k < ast::preorder(t).len()
    &&& begins_on(language, ast::preorder(t)[k].node, lines, name)
    &&& forall|j: int, other: Seq<char>|
        0 <= j < k ==> !#[trigger] begins_on(language, ast::preorder(t)[j].node, lines, other)
}

/// No construct of a text begins on one of these lines.
pub open spec fn none_begins(
    language: Language,
    content: Option<Seq<char>>,
    lines: Seq<u32>,
) -> bool {
    forall|c: Seq<char>, t: ast::NodeView, k: int, name: Seq<char>|
        content == Some(c) && ast::syntax_of(language, c) == Some(t) && 0 <= k < ast::preorder(
            t,
        ).len() ==> !#[trigger] found_at(language, c, t, lines, k, name)
}

/// The node at a place of the tree of a text is a construct that begins on one
/// of these lines.
pub open spec fn found_at(
    language: Language,
    content: Seq<char>,
    tree: ast::NodeView,
    lines: Seq<u32>,
    k: int,
    name: Seq<char>,
) -> bool {
    begins_on(language, ast::preorder(tree)[k].node, lines, name)
}

proof fn lemma_construct(language: Language, kind: Seq<char>, name: Seq<char>)
    ensures
        is_construct(language, kind, name) <==> label_of(language, kind) == Some(name),
{
    reveal_strlit("if_expression");
    reveal_strlit("match_expression");
    reveal_strlit("for_expression");
    reveal_strlit("while_expression");
    reveal_strlit("loop_expression");
    reveal_strlit("return_expression");
    reveal_strlit("if_statement");
    reveal_strlit("match_statement");
    reveal_strlit("for_statement");
    reveal_strlit("while_statement");
    reveal_strlit("return_statement");
    reveal_strlit("switch_statement");
    reveal_strlit("for_in_statement");
    reveal_strlit("for_of_statement");
    reveal_strlit("do_statement");
    assert("if_expression"@.len() == 13 && "if_expression"@[0] == 'i');
    assert("match_expression"@.len() == 16 && "match_expression"@[0] == 'm');
    assert("for_expression"@.len() == 14 && "for_expression"@[0] == 'f');
    assert("while_expression"@.len() == 16 && "while_expression"@[0] == 'w');
    assert("loop_expression"@.len() == 15 && "loop_expression"@[0] == 'l');
    assert("return_expression"@.len() == 17 && "return_expression"@[0] == 'r');
    assert("if_statement"@.len() == 12 && "if_statement"@[0] == 'i');
    assert("match_statement"@.len() == 15 && "match_statement"@[0] == 'm');
    assert("for_statement"@.len() == 13 && "for_statement"@[0] == 'f');
    assert("while_statement"@.len() == 15 && "while_statement"@[0] == 'w');
    assert("return_statement"@.len() == 16 && "return_statement"@[0] == 'r');
    assert("switch_statement"@.len() == 16 && "switch_statement"@[0] == 's');
    assert("for_in_statement"@.len() == 16 && "for_in_statement"@[0] == 'f');
    assert("for_of_statement"@.len() == 16 && "for_of_statement"@[0] == 'f');
    assert("do_statement"@.len() == 12 && "do_statement"@[0] == 'd');
}

proof fn lemma_first_hit(
    language: Language,
    vs: Seq<VisitView>,
    lines: Seq<u32>,
    k: int,
    name: Seq<char>,
)
    requires
        0 <= k < vs.len(),
        begins_on(language, vs[k].node, lines, name),
        forall|j: int, other: Seq<char>|
            0 <= j < k ==> !#[trigger] begins_on(language, vs[j].node, lines, other),
    ensures
        first_hit(language, vs, lines) == Some(
            HitView { label: name, start: vs[k].node.start_line, end: vs[k].node.end_line },
        ),
    decreases k,
{
    if k == 0 {
        lemma_construct(language, vs[0].node.kind, name);
    } else {
        match label_of(language, vs[0].node.kind) {
            Some(l) => {
                lemma_construct(language, vs[0].node.kind, l);
                assert(!begins_on(language, vs[0].node, lines, l));
            },
            None => {},
        }
        let rest = vs.drop_first();
        assert forall|j: int, other: Seq<char>| 0 <= j < k - 1 implies !#[trigger] begins_on(
            language,
            rest[j].node,
            lines,
            other,
        ) by {
            assert(!begins_on(language, vs[j + 1].node, lines, other));
        }
        lemma_first_hit(language, rest, lines, k - 1, name);
    }
}

proof fn lemma_no_hit(language: Language, vs: Seq<VisitView>, lines: Seq<u32>)
    requires
        forall|j: int, other: Seq<char>|
            0 <= j < vs.len() ==> !#[trigger] begins_on(language, vs[j].node, lines, other),
    ensures
        first_hit(language, vs, lines) is None,
    decreases vs.len(),
{
    if vs.len() > 0 {
        match label_of(language, vs[0].node.kind) {
            Some(l) => {
                lemma_construct(language, vs[0].node.kind, l);
                assert(!begins_on(language, vs[0].node, lines, l));
            },
            None => {},
        }
        let rest = vs.drop_first();
        assert forall|j: int, other: Seq<char>| 0 <= j < rest.len() implies !#[trigger] begins_on(
            language,
            rest[j].node,
            lines,
            other,
        ) by {
            assert(!begins_on(language, vs[j + 1].node, lines, other));
        }
        lemma_no_hit(language, rest, lines);
    }
}

proof fn lemma_none_in(language: Language, content: Option<Seq<char>>, lines: Seq<u32>)
    requires
        none_begins(language, content, lines),
    ensures
        hit_in(language, content, lines) is None,
{
    match content {
        Some(c) => match ast::syntax_of(language, c) {
            Some(t) => {
                let vs = ast::preorder(t);
                assert forall|j: int, other: Seq<char>| 0 <= j < vs.len() implies
                    !#[trigger] begins_on(language, vs[j].node, lines, other) by {
                    assert(!found_at(language, c, t, lines, j, other));
                }
                lemma_no_hit(language, vs, lines);
            },
            None => {},
        },
        None => {},
    }
}

/// Where a branch, a loop or a return of the new file begins on an added line,
/// the first of them is to be reviewed, by its name and over all of its lines.
pub proof fn law_changed_flow_is_found(
    file: FileDiffView,
    hunk: HunkView,
    language: Language,
    content: Seq<char>,
    tree: ast::NodeView,
    k: int,
    name: Seq<char>,
)
    requires
        file.language == Some(language),
        file.new_content == Some(content),
        ast::syntax_of(language, content) == Some(tree),
        is_first(language, Some(content), hunk.added_lines, k, name),
    ensures
        ({
            let n = ast::preorder(tree)[k].node;
            flow_verdict(file, hunk) matches Some(f) && f.level == Level::Review && f.category
                == Category::ControlFlow && f.focus_lines == Some(
                FocusLines { start: n.start_line, end: n.end_line, side: Side::New },
            ) && f.rationale == name + " at lines "@ + text::dec(n.start_line as nat) + "–"@
                + text::dec(n.end_line as nat)
        }),
{
    lemma_first_hit(language, ast::preorder(tree), hunk.added_lines, k, name);
}

/// Where none begins on an added line, but one of the old file began on a
/// removed line, the first of these is to be reviewed.
pub proof fn law_removed_flow_is_found(
    file: FileDiffView,
    hunk: HunkView,
    language: Language,
    content: Seq<char>,
    tree: ast::NodeView,
    k: int,
    name: Seq<char>,
)
    requires
        file.language == Some(language),
        none_begins(language, file.new_content, hunk.added_lines),
        file.old_content == Some(content),
        ast::syntax_of(language, content) == Some(tree),
        is_first(language, Some(content), hunk.removed_lines, k, name),
    ensures
        ({
            let n = ast::preorder(tree)[k].node;
            flow_verdict(file, hunk) matches Some(f) && f.level == Level::Review && f.category
                == Category::ControlFlow && f.focus_lines == Some(
                FocusLines { start: n.start_line, end: n.end_line, side: Side::Old },
            ) && f.rationale == name + " removed at old lines "@ + text::dec(n.start_line as nat)
                + "–"@ + text::dec(n.end_line as nat)
        }),
{
    lemma_none_in(language, file.new_content, hunk.added_lines);
    lemma_first_hit(language, ast::preorder(tree), hunk.removed_lines, k, name);
}

/// Where no branch, loop or return begins on a changed line, the rule says
/// nothing.
pub proof fn law_flow_unchanged(file: FileDiffView, hunk: HunkView, language: Language)
    requires
        file.language == Some(language),
        none_begins(language, file.new_content, hunk.added_lines),
        none_begins(language, file.old_content, hunk.removed_lines),
    ensures
        flow_verdict(file, hunk) is None,
{
    lemma_none_in(language, file.new_content, hunk.added_lines);
    lemma_none_in(language, file.old_content, hunk.removed_lines);
}

} // verus!
