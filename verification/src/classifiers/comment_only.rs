//! Hunks that change nothing but comments.
//!
//! A Python docstring is no comment to the grammar; here it counts as one. A line
//! with code before or behind a comment is no part of the comment. Lines with
//! nothing but white space may change too.
use vstd::prelude::*;

use crate::ast;
use crate::ast::{NodeView, Span, SyntaxNode, SyntaxTree, Visit, VisitView};
use crate::classifiers;
use crate::classify::{Category, Classification, Classifier, Finding, FindingView, Level};
use crate::diff::{FileDiff, FileDiffView, Hunk, HunkView};
use crate::lang::Language;
use crate::text;

verus! {

/// Skips hunks that change nothing but comments.
pub struct CommentOnly;

/// A node of this kind is a comment.
pub open spec fn is_comment(kind: Seq<char>) -> bool {
    kind == "comment"@ || kind == "line_comment"@ || kind == "block_comment"@ || kind
        == "doc_comment"@
}

fn is_comment_node(kind: &str) -> (r: bool)
    ensures
        r == is_comment(kind@),
{
    text::str_same(kind, "comment") || text::str_same(kind, "line_comment") || text::str_same(
        kind,
        "block_comment",
    ) || text::str_same(kind, "doc_comment")
}

/// Where the comments among these nodes begin and end.
pub open spec fn comment_spans(vs: Seq<VisitView>) -> Seq<Span>
    decreases vs.len(),
{
    if vs.len() == 0 {
        Seq::empty()
    } else if is_comment(vs.last().node.kind) {
        comment_spans(vs.drop_last()).push(ast::span_of_node(vs.last().node))
    } else {
        comment_spans(vs.drop_last())
    }
}

/// The first of these nodes that has a name in the grammar.
pub open spec fn first_named(nodes: Seq<NodeView>) -> Option<NodeView>
    decreases nodes.len(),
{
    if nodes.len() == 0 {
        None
    } else if nodes[0].named {
        Some(nodes[0])
    } else {
        first_named(nodes.drop_first())
    }
}

/// How many of these nodes are named.
pub open spec fn count_named(nodes: Seq<NodeView>) -> nat
    decreases nodes.len(),
{
    if nodes.len() == 0 {
        0
    } else {
        count_named(nodes.drop_last()) + if nodes.last().named {
            1nat
        } else {
            0nat
        }
    }
}

/// The node in the field `body`.
pub open spec fn body_of(n: NodeView) -> Option<NodeView> {
    match n.body {
        Some(i) => if i < n.children.len() {
            Some(n.children[i as int])
        } else {
            None
        },
        None => None,
    }
}

/// What may begin with a docstring: a module, or the body of a class or
/// function.
pub open spec fn docstring_scope(n: NodeView) -> Option<NodeView> {
    if n.kind == "module"@ {
        Some(n)
    } else if n.kind == "class_definition"@ || n.kind == "function_definition"@ {
        body_of(n)
    } else {
        None
    }
}

/// The docstring that a node begins with: a statement at its very beginning that
/// is a string and nothing else.
pub open spec fn docstring_of(n: NodeView) -> Option<Span> {
    match docstring_scope(n) {
        Some(scope) => match first_named(scope.children) {
            Some(first) => if first.kind == "expression_statement"@ {
                match first_named(first.children) {
                    Some(inner) => if inner.kind == "string"@ && count_named(first.children)
                        == 1 {
                        Some(ast::span_of_node(first))
                    } else {
                        None
                    },
                    None => None,
                }
            } else {
                None
            },
            None => None,
        },
        None => None,
    }
}

/// The docstrings that these nodes begin with.
pub open spec fn docstring_spans(vs: Seq<VisitView>) -> Seq<Span>
    decreases vs.len(),
{
    if vs.len() == 0 {
        Seq::empty()
    } else {
        match docstring_of(vs.last().node) {
            Some(l) => docstring_spans(vs.drop_last()).push(l),
            None => docstring_spans(vs.drop_last()),
        }
    }
}

/// All comments of a tree, and in Python all docstrings.
pub open spec fn comment_ranges_of(language: Language, tree: NodeView) -> Seq<Span> {
    let vs = ast::preorder(tree);
    if language == Language::Python {
        comment_spans(vs) + docstring_spans(vs)
    } else {
        comment_spans(vs)
    }
}

fn find_named<'a>(nodes: &'a Vec<SyntaxNode>) -> (r: Option<&'a SyntaxNode>)
    ensures
        text::opt_view(r) == first_named(text::views(nodes@)),
{
    let ghost all = text::views(nodes@);
    let mut i: usize = 0;
    assert(all.skip(0) == all);
    while i < nodes.len()
        invariant
            i <= nodes.len(),
            all == text::views(nodes@),
            first_named(all) == first_named(all.skip(i as int)),
        decreases nodes.len() - i,
    {
        assert(all.skip(i as int)[0] == nodes@[i as int]@);
        assert(all.skip(i as int).drop_first() == all.skip(i + 1));
        if nodes[i].named {
            return Some(&nodes[i]);
        }
        i = i + 1;
    }
    None
}

fn number_named(nodes: &Vec<SyntaxNode>) -> (r: usize)
    ensures
        r == count_named(text::views(nodes@)),
{
    let ghost all = text::views(nodes@);
    let mut count: usize = 0;
    let mut i: usize = 0;
    while i < nodes.len()
        invariant
            i <= nodes.len(),
            count <= i,
            all == text::views(nodes@),
            count == count_named(all.take(i as int)),
        decreases nodes.len() - i,
    {
        proof {
            assert(all.take(i + 1).drop_last() == all.take(i as int));
            assert(all.take(i + 1).last() == nodes@[i as int]@);
        }
        if nodes[i].named {
            count = count + 1;
        }
        i = i + 1;
    }
    assert(all.take(i as int) == all);
    count
}

fn find_docstring(n: &SyntaxNode) -> (r: Option<Span>)
    ensures
        r == docstring_of(n@),
{
    let scope: &SyntaxNode = if text::str_same(n.kind, "module") {
        n
    } else if text::str_same(n.kind, "class_definition") || text::str_same(
        n.kind,
        "function_definition",
    ) {
        match n.body {
            Some(i) => if i < n.children.len() {
                &n.children[i]
            } else {
                return None;
            },
            None => return None,
        }
    } else {
        return None;
    };
    assert(docstring_scope(n@) == Some(scope@));
    proof {
        ast::lemma_node_views(scope.children@);
    }
    match find_named(&scope.children) {
        Some(first) => {
            if !text::str_same(first.kind, "expression_statement") {
                return None;
            }
            proof {
                ast::lemma_node_views(first.children@);
            }
            match find_named(&first.children) {
                Some(inner) => if text::str_same(inner.kind, "string") && number_named(
                    &first.children,
                ) == 1 {
                    Some(ast::node_span(first))
                } else {
                    None
                },
                None => None,
            }
        },
        None => None,
    }
}

/// All comments of a tree, and in Python all docstrings.
pub fn comment_ranges(language: Language, tree: &SyntaxTree) -> (r: Vec<Span>)
    ensures
        r@ == comment_ranges_of(language, tree@),
{
    let ghost vs = ast::preorder(tree@);
    let all: Vec<Visit<'_>> = ast::walk(&tree.root);
    let mut out: Vec<Span> = Vec::new();
    let mut k: usize = 0;
    while k < all.len()
        invariant
            k <= all.len(),
            vs == text::views(all@),
            out@ == comment_spans(vs.take(k as int)),
        decreases all.len() - k,
    {
        assert(vs.take(k + 1).drop_last() == vs.take(k as int));
        assert(vs.take(k + 1).last() == all@[k as int]@);
        if is_comment_node(all[k].node.kind()) {
            out.push(ast::node_span(all[k].node));
        }
        k = k + 1;
    }
    assert(vs.take(k as int) == vs);
    if language == Language::Python {
        let ghost start = out@;
        let mut i: usize = 0;
        assert(start + docstring_spans(vs.take(0)) =~= start);
        while i < all.len()
            invariant
                i <= all.len(),
                vs == text::views(all@),
                out@ == start + docstring_spans(vs.take(i as int)),
            decreases all.len() - i,
        {
            assert(vs.take(i + 1).drop_last() == vs.take(i as int));
            assert(vs.take(i + 1).last() == all@[i as int]@);
            match find_docstring(all[i].node) {
                Some(l) => out.push(l),
                None => {},
            }
            i = i + 1;
            assert(out@ =~= start + docstring_spans(vs.take(i as int)));
        }
        assert(vs.take(i as int) == vs);
    }
    out
}

/// The line with this number is among the lines of the hunk, which begin at
/// `start`, and has nothing but white space.
pub open spec fn blank_at(line: u32, hunk_lines: Seq<Seq<char>>, start: u32) -> bool {
    0 <= line - start < hunk_lines.len() && ast::blank(hunk_lines[line - start])
}

/// The lines that have more than white space.
pub open spec fn not_blank(
    lines: Seq<u32>,
    hunk_lines: Seq<Seq<char>>,
    start: u32,
) -> Seq<u32>
    decreases lines.len(),
{
    if lines.len() == 0 {
        Seq::empty()
    } else if blank_at(lines.last(), hunk_lines, start) {
        not_blank(lines.drop_last(), hunk_lines, start)
    } else {
        not_blank(lines.drop_last(), hunk_lines, start).push(lines.last())
    }
}

fn non_blank_lines(lines: &Vec<u32>, hunk_lines: &Vec<String>, hunk_start: u32) -> (r: Vec<u32>)
    ensures
        r@ == not_blank(lines@, text::views(hunk_lines@), hunk_start),
{
    let ghost hs = text::views(hunk_lines@);
    let mut out: Vec<u32> = Vec::new();
    let mut i: usize = 0;
    while i < lines.len()
        invariant
            i <= lines.len(),
            hs == text::views(hunk_lines@),
            out@ == not_blank(lines@.take(i as int), hs, hunk_start),
        decreases lines.len() - i,
    {
        let line: u32 = lines[i];
        assert(lines@.take(i + 1).drop_last() == lines@.take(i as int));
        assert(lines@.take(i + 1).last() == line);
        let mut is_blank: bool = false;
        if line >= hunk_start {
            let k: usize = (line - hunk_start) as usize;
            if k < hunk_lines.len() {
                assert(hs[k as int] == hunk_lines@[k as int]@);
                is_blank = ast::is_blank_line(hunk_lines[k].as_str());
            }
        }
        if !is_blank {
            out.push(line);
        }
        i = i + 1;
    }
    assert(lines@.take(i as int) == lines@);
    out
}

/// How many bytes of white space a text begins with.
pub open spec fn indent(s: Seq<char>) -> nat {
    (text::bytes_len(s) - text::bytes_len(text::trim_start(s))) as nat
}

/// The line, but for the white space at its ends, is inside one of the spans.
pub open spec fn covered(line: u32, s: Seq<char>, spans: Seq<Span>) -> bool {
    exists|k: int|
        0 <= k < spans.len() && ast::spans(
            #[trigger] spans[k],
            line,
            indent(s),
            indent(s) + text::bytes_len(text::trimmed(s)),
        )
}

/// Every line is one of the file's, of which these are the texts, and lies
/// entirely inside one of the spans.
pub open spec fn all_covered(lines: Seq<u32>, texts: Seq<Seq<char>>, spans: Seq<Span>) -> bool {
    forall|i: int|
        0 <= i < lines.len() ==> 1 <= #[trigger] lines[i] <= texts.len() && covered(
            lines[i],
            texts[lines[i] - 1],
            spans,
        )
}

proof fn lemma_bytes_add(a: Seq<char>, b: Seq<char>)
    ensures
        text::bytes_len(a + b) == text::bytes_len(a) + text::bytes_len(b),
    decreases a.len(),
{
    if a.len() == 0 {
        assert(a + b =~= b);
    } else {
        assert((a + b).drop_first() =~= a.drop_first() + b);
        lemma_bytes_add(a.drop_first(), b);
    }
}

proof fn lemma_trim_start_bytes(s: Seq<char>)
    ensures
        text::bytes_len(text::trim_start(s)) <= text::bytes_len(s),
    decreases s.len(),
{
    if s.len() > 0 && text::is_space(s[0]) {
        lemma_trim_start_bytes(s.drop_first());
        lemma_bytes_add(seq![s[0]], s.drop_first());
        assert(seq![s[0]] + s.drop_first() =~= s);
    }
}

proof fn lemma_trim_end_bytes(s: Seq<char>)
    ensures
        text::bytes_len(text::trim_end(s)) <= text::bytes_len(s),
    decreases s.len(),
{
    if s.len() > 0 && text::is_space(s.last()) {
        lemma_trim_end_bytes(s.drop_last());
        lemma_bytes_add(s.drop_last(), seq![s.last()]);
        assert(s.drop_last() + seq![s.last()] =~= s);
    }
}

proof fn lemma_trimmed_bytes(s: Seq<char>)
    ensures
        text::bytes_len(text::trim_start(s)) <= text::bytes_len(s),
        text::bytes_len(text::trimmed(s)) <= text::bytes_len(text::trim_start(s)),
{
    lemma_trim_start_bytes(s);
    lemma_trim_end_bytes(text::trim_start(s));
}

fn line_covered(line: u32, s: &Vec<char>, spans: &Vec<Span>) -> (r: bool)
    ensures
        r == covered(line, s@, spans@),
{
    let rest: usize = text::byte_len(text::string(text::trim_left(s)).as_str());
    let kept: usize = text::byte_len(text::string(text::trim(s)).as_str());
    let whole: usize = text::byte_len(text::string(s).as_str());
    proof {
        lemma_trimmed_bytes(s@);
    }
    let from: usize = whole - rest;
    let to: usize = from + kept;
    let mut k: usize = 0;
    while k < spans.len()
        invariant
            k <= spans.len(),
            from == indent(s@),
            to == indent(s@) + text::bytes_len(text::trimmed(s@)),
            forall|j: int|
                0 <= j < k ==> !ast::spans(#[trigger] spans@[j], line, from as nat, to as nat),
        decreases spans.len() - k,
    {
        let c: Span = spans[k];
        if (c.start_line < line || (c.start_line == line && c.start_column <= from)) && (line
            < c.end_line || (line == c.end_line && to <= c.end_column)) {
            assert(ast::spans(spans@[k as int], line, from as nat, to as nat));
            return true;
        }
        k = k + 1;
    }
    false
}

fn lines_covered(lines: &Vec<u32>, content: &str, spans: &Vec<Span>) -> (r: bool)
    ensures
        r == all_covered(lines@, text::lines_of(content@), spans@),
{
    let texts: Vec<Vec<char>> = text::lines(&text::chars(content));
    let ghost ts = text::lines_of(content@);
    let mut i: usize = 0;
    while i < lines.len()
        invariant
            i <= lines.len(),
            ts == text::lines_of(content@),
            ts == text::views(texts@),
            all_covered(lines@.take(i as int), ts, spans@),
        decreases lines.len() - i,
    {
        let line: u32 = lines[i];
        assert(lines@[i as int] == line);
        if line == 0 || (line - 1) as usize >= texts.len() {
            return false;
        }
        let k: usize = (line - 1) as usize;
        assert(ts[k as int] == texts@[k as int]@);
        if !line_covered(line, &texts[k], spans) {
            return false;
        }
        proof {
            let longer = lines@.take(i + 1);
            assert forall|j: int| 0 <= j < longer.len() implies 1 <= #[trigger] longer[j]
                <= ts.len() && covered(longer[j], ts[longer[j] - 1], spans@) by {
                if j < i {
                    assert(longer[j] == lines@.take(i as int)[j]);
                }
            }
        }
        i = i + 1;
    }
    assert(lines@.take(i as int) == lines@);
    true
}

/// Every changed line with more than white space lies entirely inside a comment
/// of its side.
pub open spec fn only_comments(
    language: Language,
    old: Seq<char>,
    old_tree: NodeView,
    new: Seq<char>,
    new_tree: NodeView,
    hunk: HunkView,
) -> bool {
    &&& all_covered(
        not_blank(hunk.removed_lines, hunk.old_lines, hunk.old_range.start),
        text::lines_of(old),
        comment_ranges_of(language, old_tree),
    )
    &&& all_covered(
        not_blank(hunk.added_lines, hunk.new_lines, hunk.new_range.start),
        text::lines_of(new),
        comment_ranges_of(language, new_tree),
    )
}

/// Whether every changed line with more than white space lies entirely inside a
/// comment of its side. The trees are those of the two texts.
pub fn changes_only_comments(
    language: Language,
    old: &str,
    old_tree: &SyntaxTree,
    new: &str,
    new_tree: &SyntaxTree,
    hunk: &Hunk,
) -> (r: bool)
    ensures
        r == only_comments(language, old@, old_tree@, new@, new_tree@, hunk@),
{
    let removed: Vec<u32> = non_blank_lines(
        &hunk.removed_lines,
        &hunk.old_lines,
        hunk.old_range.start,
    );
    let added: Vec<u32> = non_blank_lines(
        &hunk.added_lines,
        &hunk.new_lines,
        hunk.new_range.start,
    );
    lines_covered(&removed, old, &comment_ranges(language, old_tree)) && lines_covered(
        &added,
        new,
        &comment_ranges(language, new_tree),
    )
}

/// The finding on a hunk that changes nothing but comments.
pub open spec fn comment_verdict(file: FileDiffView, hunk: HunkView) -> Option<FindingView> {
    if hunk.added_lines.len() == 0 && hunk.removed_lines.len() == 0 {
        None
    } else {
        match (file.language, file.old_content, file.new_content) {
            (Some(l), Some(old), Some(new)) => match (
                ast::syntax_of(l, old),
                ast::syntax_of(l, new),
            ) {
                (Some(s), Some(t)) => if only_comments(l, old, s, new, t, hunk) {
                    Some(
                        classifiers::finding_of(
                            Level::Skip,
                            Category::CommentOnly,
                            "comment/docstring-only change"@,
                            "comment_only"@,
                            None,
                        ),
                    )
                } else {
                    None
                },
                _ => None,
            },
            _ => None,
        }
    }
}

impl CommentOnly {
    pub fn new() -> (r: Self)
        ensures
            r == CommentOnly,
    {
        CommentOnly
    }

    pub fn classify(&self, file: &mut FileDiff, hunk: &Hunk) -> (r: Option<Classification>)
        ensures
            text::opt_view(r) == comment_verdict(old(file)@, hunk@),
            final(file)@ == old(file)@,
    {
        if hunk.added_lines.len() == 0 && hunk.removed_lines.len() == 0 {
            return None;
        }
        match (&file.language, &file.old_content, &file.new_content) {
            (Some(l), Some(old), Some(new)) => match (
                ast::parse(*l, old.as_str()),
                ast::parse(*l, new.as_str()),
            ) {
                (Some(s), Some(t)) => if changes_only_comments(
                    *l,
                    old.as_str(),
                    &s,
                    new.as_str(),
                    &t,
                    hunk,
                ) {
                    Some(
                        classifiers::finding(
                            Level::Skip,
                            Category::CommentOnly,
                            "comment/docstring-only change".to_string(),
                            "comment_only",
                            None,
                        ),
                    )
                } else {
                    None
                },
                _ => None,
            },
            _ => None,
        }
    }
}

impl Default for CommentOnly {
    fn default() -> (r: Self)
        ensures
            r == CommentOnly,
    {
        CommentOnly
    }
}

impl Classifier for CommentOnly {
    open spec fn label(&self) -> Seq<char> {
        "comment_only"@
    }

    open spec fn place(&self) -> int {
        100
    }

    open spec fn verdict(&self, file: FileDiffView, hunk: HunkView) -> Seq<FindingView> {
        classifiers::listed(comment_verdict(file, hunk))
    }

    open spec fn effect(&self, file: FileDiffView, hunk: HunkView) -> FileDiffView {
        file
    }

    fn name(&self) -> (r: &'static str) {
        "comment_only"
    }

    fn priority(&self) -> (r: i32) {
        100
    }

    fn classify(&self, file: &mut FileDiff, hunk: &Hunk) -> (r: Vec<Finding>) {
        classifiers::list(CommentOnly::classify(self, file, hunk))
    }
}

// --- only comments are skipped as comments -------------------------------

/// The only named node among these is the one at `m`.
pub open spec fn only_named(nodes: Seq<NodeView>, m: int) -> bool {
    &&& 0 <= m < nodes.len()
    &&& nodes[m].named
    &&& forall|i: int| 0 <= i < nodes.len() && i != m ==> !(#[trigger] nodes[i]).named
}

/// The first statement of a scope stands at `f`; all that it holds is the string
/// at `m`, and it lies at `s`. A module is a scope, and so is the body of a class
/// or of a function.
pub open spec fn docstring_at(n: NodeView, scope: NodeView, f: int, m: int, s: Span) -> bool {
    &&& {
        ||| n.kind == "module"@ && scope == n
        ||| (n.kind == "class_definition"@ || n.kind == "function_definition"@) && n.body is Some
            && n.body.unwrap() < n.children.len() && scope == n.children[n.body.unwrap() as int]
    }
    &&& 0 <= f < scope.children.len()
    &&& scope.children[f].named
    &&& forall|i: int| 0 <= i < f ==> !(#[trigger] scope.children[i]).named
    &&& scope.children[f].kind == "expression_statement"@
    &&& only_named(scope.children[f].children, m)
    &&& scope.children[f].children[m].kind == "string"@
    &&& s.start_line == scope.children[f].start_line
    &&& s.start_column == scope.children[f].start_column
    &&& s.end_line == scope.children[f].end_line
    &&& s.end_column == scope.children[f].end_column
}

proof fn lemma_first_named(nodes: Seq<NodeView>)
    ensures
        match first_named(nodes) {
            Some(x) => exists|f: int|
                0 <= f < nodes.len() && (#[trigger] nodes[f]) == x && x.named && forall|i: int|
                    0 <= i < f ==> !(#[trigger] nodes[i]).named,
            None => forall|i: int| 0 <= i < nodes.len() ==> !(#[trigger] nodes[i]).named,
        },
    decreases nodes.len(),
{
    if nodes.len() > 0 && !nodes[0].named {
        let rest = nodes.drop_first();
        lemma_first_named(rest);
        match first_named(rest) {
            Some(x) => {
                let f = choose|f: int|
                    0 <= f < rest.len() && (#[trigger] rest[f]) == x && x.named && forall|i: int|
                        0 <= i < f ==> !(#[trigger] rest[i]).named;
                assert(nodes[f + 1] == x);
                assert forall|i: int| 0 <= i < f + 1 implies !(#[trigger] nodes[i]).named by {
                    if i > 0 {
                        assert(nodes[i] == rest[i - 1]);
                    }
                }
            },
            None => {
                assert forall|i: int| 0 <= i < nodes.len() implies !(#[trigger] nodes[i]).named by {
                    if i > 0 {
                        assert(nodes[i] == rest[i - 1]);
                    }
                }
            },
        }
    } else if nodes.len() > 0 {
        assert(nodes[0].named);
    }
}

proof fn lemma_count_named(nodes: Seq<NodeView>)
    ensures
        count_named(nodes) == 0 <==> forall|i: int|
            0 <= i < nodes.len() ==> !(#[trigger] nodes[i]).named,
        count_named(nodes) == 1 <==> exists|m: int| #[trigger] only_named(nodes, m),
    decreases nodes.len(),
{
    if nodes.len() > 0 {
        let rest = nodes.drop_last();
        let last = nodes.len() - 1;
        lemma_count_named(rest);
        assert forall|i: int| 0 <= i < rest.len() implies #[trigger] rest[i] == nodes[i] by {}
        if count_named(rest) == 0 {
            assert forall|i: int| 0 <= i < last implies !(#[trigger] nodes[i]).named by {
                assert(!rest[i].named);
            }
        }
        if count_named(nodes) == 1 {
            if nodes[last].named {
                assert(only_named(nodes, last));
            } else {
                let m = choose|m: int| #[trigger] only_named(rest, m);
                assert forall|i: int| 0 <= i < nodes.len() && i != m implies !(
                #[trigger] nodes[i]).named by {
                    if i < last {
                        assert(rest[i] == nodes[i]);
                    }
                }
                assert(only_named(nodes, m));
            }
        }
        if exists|m: int| #[trigger] only_named(nodes, m) {
            let m = choose|m: int| #[trigger] only_named(nodes, m);
            if m == last {
                assert forall|i: int| 0 <= i < rest.len() implies !(#[trigger] rest[i]).named by {
                    assert(!nodes[i].named);
                }
            } else {
                assert(!nodes[last].named);
                assert forall|i: int| 0 <= i < rest.len() && i != m implies !(
                #[trigger] rest[i]).named by {
                    assert(!nodes[i].named);
                }
                assert(rest[m].named);
                assert(only_named(rest, m));
            }
        }
        if forall|i: int| 0 <= i < nodes.len() ==> !(#[trigger] nodes[i]).named {
            assert(!nodes[last].named);
            assert forall|i: int| 0 <= i < rest.len() implies !(#[trigger] rest[i]).named by {
                assert(!nodes[i].named);
            }
        }
    }
}

proof fn lemma_docstring(n: NodeView, s: Span)
    ensures
        docstring_of(n) == Some(s) <==> exists|scope: NodeView, f: int, m: int| #[trigger]
            docstring_at(n, scope, f, m, s),
{
    reveal_strlit("module");
    reveal_strlit("class_definition");
    reveal_strlit("function_definition");
    assert("module"@.len() == 6 && "class_definition"@.len() == 16 && "function_definition"@.len()
        == 19);
    if docstring_of(n) == Some(s) {
        let scope = docstring_scope(n).unwrap();
        lemma_first_named(scope.children);
        let first = first_named(scope.children).unwrap();
        let f = choose|f: int|
            0 <= f < scope.children.len() && (#[trigger] scope.children[f]) == first && first.named
                && forall|i: int| 0 <= i < f ==> !(#[trigger] scope.children[i]).named;
        lemma_count_named(first.children);
        lemma_first_named(first.children);
        let m = choose|m: int| #[trigger] only_named(first.children, m);
        let inner = first_named(first.children).unwrap();
        let j = choose|j: int|
            0 <= j < first.children.len() && (#[trigger] first.children[j]) == inner && inner.named;
        assert(j == m);
        assert(docstring_at(n, scope, f, m, s));
    }
    if exists|scope: NodeView, f: int, m: int| #[trigger] docstring_at(n, scope, f, m, s) {
        let (scope, f, m) = choose|scope: NodeView, f: int, m: int| #[trigger]
            docstring_at(n, scope, f, m, s);
        assert(docstring_scope(n) == Some(scope));
        lemma_first_named(scope.children);
        let first = scope.children[f];
        assert(first_named(scope.children) == Some(first)) by {
            match first_named(scope.children) {
                Some(x) => {
                    let g = choose|g: int|
                        0 <= g < scope.children.len() && (#[trigger] scope.children[g]) == x
                            && x.named && forall|i: int|
                            0 <= i < g ==> !(#[trigger] scope.children[i]).named;
                    assert(g == f);
                },
                None => {
                    assert(!scope.children[f].named);
                },
            }
        }
        lemma_count_named(first.children);
        lemma_first_named(first.children);
        match first_named(first.children) {
            Some(x) => {
                let g = choose|g: int|
                    0 <= g < first.children.len() && (#[trigger] first.children[g]) == x && x.named;
                assert(g == m);
            },
            None => {
                assert(!first.children[m].named);
            },
        }
        assert(ast::span_of_node(first) == s);
    }
}

/// The node begins and ends where the span does.
pub open spec fn lies_at(n: NodeView, s: Span) -> bool {
    &&& s.start_line == n.start_line
    &&& s.start_column == n.start_column
    &&& s.end_line == n.end_line
    &&& s.end_column == n.end_column
}

/// The text has nothing but white space.
pub open spec fn only_space(t: Seq<char>) -> bool {
    forall|i: int| 0 <= i < t.len() ==> text::is_space(#[trigger] t[i])
}

/// A node of a tree that is a comment, or in Python a docstring.
pub open spec fn comment_or_docstring(language: Language, tree: NodeView, s: Span) -> bool {
    exists|k: int|
        0 <= k < ast::preorder(tree).len() && {
            let n = (#[trigger] ast::preorder(tree)[k]).node;
            ||| (n.kind == "comment"@ || n.kind == "line_comment"@ || n.kind == "block_comment"@
                || n.kind == "doc_comment"@) && lies_at(n, s)
            ||| language == Language::Python && exists|scope: NodeView, f: int, m: int| #[trigger]
                docstring_at(n, scope, f, m, s)
        }
}

/// A changed line is harmless: the hunk shows that it has nothing but white space,
/// or it is a line of the file and lies, but for the white space at its ends,
/// inside a comment or docstring.
pub open spec fn harmless(
    language: Language,
    tree: NodeView,
    content: Seq<char>,
    line: u32,
    hunk_lines: Seq<Seq<char>>,
    start: u32,
) -> bool {
    ||| (start <= line < start + hunk_lines.len() && only_space(hunk_lines[line - start]))
    ||| (1 <= line <= text::lines_of(content).len() && exists|s: Span|
        {
            let t = text::lines_of(content)[line - 1];
            &&& #[trigger] comment_or_docstring(language, tree, s)
            &&& s.start_line < line || (s.start_line == line && s.start_column <= indent(t))
            &&& line < s.end_line || (line == s.end_line && indent(t) + text::bytes_len(
                text::trimmed(t),
            ) <= s.end_column)
        })
}

proof fn lemma_comment_spans(language: Language, vs: Seq<VisitView>, k: int)
    requires
        0 <= k < comment_spans(vs).len(),
    ensures
        exists|i: int|
            0 <= i < vs.len() && is_comment((#[trigger] vs[i]).node.kind) && comment_spans(vs)[k]
                == ast::span_of_node(vs[i].node),
    decreases vs.len(),
{
    let shorter = comment_spans(vs.drop_last());
    if k < shorter.len() {
        lemma_comment_spans(language, vs.drop_last(), k);
        let i = choose|i: int|
            0 <= i < vs.drop_last().len() && is_comment((#[trigger] vs.drop_last()[i]).node.kind)
                && shorter[k] == ast::span_of_node(vs.drop_last()[i].node);
        assert(vs[i] == vs.drop_last()[i]);
        assert(comment_spans(vs)[k] == shorter[k]);
    } else {
        assert(vs[vs.len() - 1] == vs.last());
    }
}

proof fn lemma_docstring_spans(vs: Seq<VisitView>, k: int)
    requires
        0 <= k < docstring_spans(vs).len(),
    ensures
        exists|i: int|
            0 <= i < vs.len() && docstring_of((#[trigger] vs[i]).node) == Some(
                docstring_spans(vs)[k],
            ),
    decreases vs.len(),
{
    let shorter = docstring_spans(vs.drop_last());
    if k < shorter.len() {
        lemma_docstring_spans(vs.drop_last(), k);
        let i = choose|i: int|
            0 <= i < vs.drop_last().len() && docstring_of((#[trigger] vs.drop_last()[i]).node)
                == Some(shorter[k]);
        assert(vs[i] == vs.drop_last()[i]);
        assert(docstring_spans(vs)[k] == shorter[k]);
    } else {
        assert(vs[vs.len() - 1] == vs.last());
    }
}

proof fn lemma_spans_hold(vs: Seq<VisitView>, i: int)
    requires
        0 <= i < vs.len(),
    ensures
        is_comment(vs[i].node.kind) ==> comment_spans(vs).contains(ast::span_of_node(vs[i].node)),
        docstring_of(vs[i].node) matches Some(s) ==> docstring_spans(vs).contains(s),
    decreases vs.len(),
{
    let shorter = vs.drop_last();
    if i < vs.len() - 1 {
        lemma_spans_hold(shorter, i);
        assert(shorter[i] == vs[i]);
        if is_comment(vs[i].node.kind) {
            let c = ast::span_of_node(vs[i].node);
            let k = choose|k: int|
                0 <= k < comment_spans(shorter).len() && comment_spans(shorter)[k] == c;
            assert(comment_spans(vs)[k] == c);
        }
        if docstring_of(vs[i].node) is Some {
            let d = docstring_of(vs[i].node).unwrap();
            let k = choose|k: int|
                0 <= k < docstring_spans(shorter).len() && docstring_spans(shorter)[k] == d;
            assert(docstring_spans(vs)[k] == d);
        }
    } else {
        if is_comment(vs[i].node.kind) {
            assert(comment_spans(vs).last() == ast::span_of_node(vs[i].node));
        }
        if docstring_of(vs[i].node) is Some {
            assert(docstring_spans(vs).last() == docstring_of(vs[i].node).unwrap());
        }
    }
}

proof fn lemma_ranges(language: Language, tree: NodeView, s: Span)
    ensures
        comment_ranges_of(language, tree).contains(s) <==> comment_or_docstring(language, tree, s),
{
    let vs = ast::preorder(tree);
    let all = comment_ranges_of(language, tree);
    let cs = comment_spans(vs);
    if all.contains(s) {
        let k = choose|k: int| 0 <= k < all.len() && all[k] == s;
        if k < cs.len() {
            lemma_comment_spans(language, vs, k);
            let i = choose|i: int|
                0 <= i < vs.len() && is_comment((#[trigger] vs[i]).node.kind) && cs[k]
                    == ast::span_of_node(vs[i].node);
            assert(ast::preorder(tree)[i] == vs[i]);
        } else {
            lemma_docstring_spans(vs, k - cs.len());
            let i = choose|i: int|
                0 <= i < vs.len() && docstring_of((#[trigger] vs[i]).node) == Some(
                    docstring_spans(vs)[k - cs.len()],
                );
            lemma_docstring(vs[i].node, s);
            assert(ast::preorder(tree)[i] == vs[i]);
        }
    }
    if comment_or_docstring(language, tree, s) {
        let i = choose|i: int|
            0 <= i < vs.len() && {
                let n = (#[trigger] vs[i]).node;
                ||| (n.kind == "comment"@ || n.kind == "line_comment"@ || n.kind
                    == "block_comment"@ || n.kind == "doc_comment"@) && lies_at(n, s)
                ||| language == Language::Python && exists|scope: NodeView, f: int, m: int|
                    #[trigger]
                    docstring_at(n, scope, f, m, s)
            };
        lemma_docstring(vs[i].node, s);
        lemma_spans_hold(vs, i);
        if cs.contains(s) {
            let k = choose|k: int| 0 <= k < cs.len() && cs[k] == s;
            assert(all[k] == s);
        } else {
            let ds = docstring_spans(vs);
            let k = choose|k: int| 0 <= k < ds.len() && ds[k] == s;
            assert(all[cs.len() + k] == s);
        }
    }
}

proof fn lemma_not_blank(lines: Seq<u32>, hunk_lines: Seq<Seq<char>>, start: u32, line: u32)
    ensures
        not_blank(lines, hunk_lines, start).contains(line) <==> lines.contains(line) && !blank_at(
            line,
            hunk_lines,
            start,
        ),
    decreases lines.len(),
{
    if lines.len() > 0 {
        let shorter = lines.drop_last();
        let before = not_blank(shorter, hunk_lines, start);
        let out = not_blank(lines, hunk_lines, start);
        lemma_not_blank(shorter, hunk_lines, start, line);
        if out.contains(line) {
            let k = choose|k: int| 0 <= k < out.len() && out[k] == line;
            if k < before.len() {
                assert(before[k] == line);
                let j = choose|j: int| 0 <= j < shorter.len() && shorter[j] == line;
                assert(lines[j] == line);
            } else {
                assert(lines[lines.len() - 1] == line);
            }
        }
        if lines.contains(line) && !blank_at(line, hunk_lines, start) {
            if line == lines.last() {
                assert(out.last() == line);
            } else {
                let j = choose|j: int| 0 <= j < lines.len() && lines[j] == line;
                assert(shorter[j] == line);
                let k = choose|k: int| 0 <= k < before.len() && before[k] == line;
                assert(out[k] == line);
            }
        }
    }
}

proof fn lemma_side_is_harmless(
    language: Language,
    tree: NodeView,
    content: Seq<char>,
    lines: Seq<u32>,
    hunk_lines: Seq<Seq<char>>,
    start: u32,
)
    ensures
        all_covered(
            not_blank(lines, hunk_lines, start),
            text::lines_of(content),
            comment_ranges_of(language, tree),
        ) <==> (forall|i: int|
            0 <= i < lines.len() ==> harmless(
                language,
                tree,
                content,
                #[trigger] lines[i],
                hunk_lines,
                start,
            )),
{
    let left = not_blank(lines, hunk_lines, start);
    let texts = text::lines_of(content);
    let ranges = comment_ranges_of(language, tree);
    if all_covered(left, texts, ranges) {
        assert forall|i: int| 0 <= i < lines.len() implies harmless(
            language,
            tree,
            content,
            #[trigger] lines[i],
            hunk_lines,
            start,
        ) by {
            let line = lines[i];
            lemma_not_blank(lines, hunk_lines, start, line);
            if !blank_at(line, hunk_lines, start) {
                assert(lines.contains(line));
                let k = choose|k: int| 0 <= k < left.len() && left[k] == line;
                assert(1 <= left[k] <= texts.len() && covered(left[k], texts[left[k] - 1], ranges));
                let t = texts[line - 1];
                let c = choose|c: int|
                    0 <= c < ranges.len() && ast::spans(
                        #[trigger] ranges[c],
                        line,
                        indent(t),
                        indent(t) + text::bytes_len(text::trimmed(t)),
                    );
                assert(ranges.contains(ranges[c]));
                lemma_ranges(language, tree, ranges[c]);
                assert(comment_or_docstring(language, tree, ranges[c]));
            }
        }
    }
    if forall|i: int|
        0 <= i < lines.len() ==> harmless(
            language,
            tree,
            content,
            #[trigger] lines[i],
            hunk_lines,
            start,
        ) {
        assert forall|k: int| 0 <= k < left.len() implies 1 <= #[trigger] left[k] <= texts.len()
            && covered(left[k], texts[left[k] - 1], ranges) by {
            let line = left[k];
            assert(left.contains(line));
            lemma_not_blank(lines, hunk_lines, start, line);
            let i = choose|i: int| 0 <= i < lines.len() && lines[i] == line;
            assert(harmless(language, tree, content, lines[i], hunk_lines, start));
            let t = texts[line - 1];
            let s = choose|s: Span|
                {
                    &&& #[trigger] comment_or_docstring(language, tree, s)
                    &&& s.start_line < line || (s.start_line == line && s.start_column <= indent(t))
                    &&& line < s.end_line || (line == s.end_line && indent(t) + text::bytes_len(
                        text::trimmed(t),
                    ) <= s.end_column)
                };
            lemma_ranges(language, tree, s);
            let c = choose|c: int| 0 <= c < ranges.len() && ranges[c] == s;
            assert(ast::spans(
                ranges[c],
                line,
                indent(t),
                indent(t) + text::bytes_len(text::trimmed(t)),
            ));
        }
    }
}

/// The rule makes its finding exactly where something changes and every changed
/// line is harmless: every removed line in the old file, and every added line in
/// the new one. So a hunk that removes or adds a line of code is never skipped.
pub proof fn law_only_comments_are_skipped(
    file: FileDiffView,
    hunk: HunkView,
    l: Language,
    old: Seq<char>,
    old_tree: NodeView,
    new: Seq<char>,
    new_tree: NodeView,
)
    requires
        file.language == Some(l),
        file.old_content == Some(old),
        file.new_content == Some(new),
        ast::syntax_of(l, old) == Some(old_tree),
        ast::syntax_of(l, new) == Some(new_tree),
    ensures
        comment_verdict(file, hunk) is Some <==> {
            &&& hunk.removed_lines.len() + hunk.added_lines.len() > 0
            &&& forall|i: int|
                0 <= i < hunk.removed_lines.len() ==> harmless(
                    l,
                    old_tree,
                    old,
                    #[trigger] hunk.removed_lines[i],
                    hunk.old_lines,
                    hunk.old_range.start,
                )
            &&& forall|i: int|
                0 <= i < hunk.added_lines.len() ==> harmless(
                    l,
                    new_tree,
                    new,
                    #[trigger] hunk.added_lines[i],
                    hunk.new_lines,
                    hunk.new_range.start,
                )
        },
        comment_verdict(file, hunk) matches Some(f) ==> f.level == Level::Skip && f.category
            == Category::CommentOnly && f.focus_lines is None,
{
    lemma_side_is_harmless(
        l,
        old_tree,
        old,
        hunk.removed_lines,
        hunk.old_lines,
        hunk.old_range.start,
    );
    lemma_side_is_harmless(
        l,
        new_tree,
        new,
        hunk.added_lines,
        hunk.new_lines,
        hunk.new_range.start,
    );
}

/// Where a file or its language is not known the rule makes no finding.
pub proof fn law_nothing_is_guessed(file: FileDiffView, hunk: HunkView)
    requires
        file.language is None || file.old_content is None || file.new_content is None,
    ensures
        comment_verdict(file, hunk) is None,
{
}

/// A line is indented by the bytes of the white space that it begins with.
pub proof fn law_indent(before: Seq<char>, s: Seq<char>, after: Seq<char>)
    requires
        only_space(before),
        only_space(after),
        s.len() > 0,
        !text::is_space(s[0]),
        !text::is_space(s.last()),
    ensures
        indent(before + s + after) == text::bytes_len(before),
        text::trimmed(before + s + after) == s,
{
    text::law_trimmed(before, s, after);
    lemma_bytes_add(before, s + after);
    assert(before + s + after =~= before + (s + after));
}

} // verus!
