//! Syntax trees, and what the rules that look at syntax share.
//!
//! `tree_sitter` parses; the tree is then taken apart into plain nodes, and
//! every rule works on those.
use vstd::prelude::*;

use crate::lang::Language;
use crate::text;

verus! {

// --- what the parser gives -----------------------------------------------

/// A syntax tree of `tree_sitter`.
#[verifier::external_type_specification]
#[verifier::external_body]
pub struct ExTree(tree_sitter::Tree);

/// A node of a syntax tree of `tree_sitter`.
#[verifier::external_type_specification]
#[verifier::external_body]
pub struct ExNode<'tree>(tree_sitter::Node<'tree>);

/// What a node of the parser and the nodes inside it hold. Rows and columns are
/// counted from zero, columns in bytes; `name` and `body` say which of the children
/// are in these fields.
#[verifier::ext_equal]
pub struct RawNodeView {
    pub kind: Seq<char>,
    pub named: bool,
    pub start_row: usize,
    pub end_row: usize,
    pub start_column: usize,
    pub end_column: usize,
    pub start_byte: usize,
    pub end_byte: usize,
    pub name: Option<usize>,
    pub body: Option<usize>,
    pub children: Seq<RawNodeView>,
}

/// What a node of `tree_sitter` and the nodes inside it hold.
pub uninterp spec fn node_holds(node: tree_sitter::Node<'_>) -> RawNodeView;

/// What a tree of `tree_sitter` holds: its root and the nodes inside it.
pub uninterp spec fn tree_holds(tree: tree_sitter::Tree) -> RawNodeView;

/// The tree that `tree_sitter` makes of a text in a language.
pub uninterp spec fn tree_of(language: Language, source: Seq<char>) -> Option<RawNodeView>;

/// `tree_sitter::Parser::parse` with the grammar of the language: which tree
/// comes out, if any, depends on the language and the text alone. The grammar
/// for TypeScript is the one that also takes JSX.
#[verifier::external_body]
fn parse_tree(language: Language, source: &str) -> (r: Option<tree_sitter::Tree>)
    ensures
        match r {
            Some(t) => tree_of(language, source@) == Some(tree_holds(t)),
            None => tree_of(language, source@) is None,
        },
{
    let mut parser = tree_sitter::Parser::new();
    let grammar: tree_sitter::Language = match language {
        Language::Rust => tree_sitter_rust::LANGUAGE.into(),
        Language::Python => tree_sitter_python::LANGUAGE.into(),
        Language::TypeScript => tree_sitter_typescript::LANGUAGE_TSX.into(),
        Language::JavaScript => tree_sitter_javascript::LANGUAGE.into(),
    };
    parser.set_language(&grammar).ok()?;
    parser.parse(source, None)
}

/// `tree_sitter::Tree::root_node`: the root holds what the tree holds.
#[verifier::external_body]
fn root_of(tree: &tree_sitter::Tree) -> (r: tree_sitter::Node<'_>)
    ensures
        node_holds(r) == tree_holds(*tree),
{
    tree.root_node()
}

/// A node whose children have not been taken apart yet.
struct Layer<'tree> {
    kind: &'static str,
    named: bool,
    start_row: usize,
    end_row: usize,
    start_column: usize,
    end_column: usize,
    start_byte: usize,
    end_byte: usize,
    name: Option<usize>,
    body: Option<usize>,
    children: Vec<tree_sitter::Node<'tree>>,
}

spec fn nodes_hold(nodes: Seq<tree_sitter::Node<'_>>) -> Seq<RawNodeView> {
    Seq::new(nodes.len(), |i: int| node_holds(nodes[i]))
}

impl<'tree> View for Layer<'tree> {
    type V = RawNodeView;

    closed spec fn view(&self) -> RawNodeView {
        RawNodeView {
            kind: self.kind@,
            named: self.named,
            start_row: self.start_row,
            end_row: self.end_row,
            start_column: self.start_column,
            end_column: self.end_column,
            start_byte: self.start_byte,
            end_byte: self.end_byte,
            name: self.name,
            body: self.body,
            children: nodes_hold(self.children@),
        }
    }
}

/// Reads what a node holds with the accessors of `tree_sitter::Node`: `kind`,
/// `is_named`, `start_position`, `end_position`, `start_byte`, `end_byte` and
/// `children`. The child that `child_by_field_name` gives for `name`, and that
/// for `body`, is told by its place among the children.
#[verifier::external_body]
fn open_node<'tree>(node: tree_sitter::Node<'tree>) -> (r: Layer<'tree>)
    ensures
        r@ == node_holds(node),
{
    let children: Vec<tree_sitter::Node<'tree>> = node.children(&mut node.walk()).collect();
    Layer {
        kind: node.kind(),
        named: node.is_named(),
        start_row: node.start_position().row,
        end_row: node.end_position().row,
        start_column: node.start_position().column,
        end_column: node.end_position().column,
        start_byte: node.start_byte(),
        end_byte: node.end_byte(),
        name: node.child_by_field_name("name").and_then(|c| children.iter().position(|x| *x == c)),
        body: node.child_by_field_name("body").and_then(|c| children.iter().position(|x| *x == c)),
        children,
    }
}

// --- plain trees ---------------------------------------------------------

/// A node of a syntax tree. Lines are counted from one, columns from zero and in
/// bytes.
#[derive(Debug)]
pub struct SyntaxNode {
    pub kind: &'static str,
    pub named: bool,
    pub start_line: u32,
    pub end_line: u32,
    pub start_column: usize,
    pub end_column: usize,
    pub start_byte: usize,
    pub end_byte: usize,
    /// Which of the children is in the field `name`.
    pub name: Option<usize>,
    /// Which of the children is in the field `body`.
    pub body: Option<usize>,
    pub children: Vec<SyntaxNode>,
}

#[verifier::ext_equal]
pub struct NodeView {
    pub kind: Seq<char>,
    pub named: bool,
    pub start_line: u32,
    pub end_line: u32,
    pub start_column: usize,
    pub end_column: usize,
    pub start_byte: usize,
    pub end_byte: usize,
    pub name: Option<usize>,
    pub body: Option<usize>,
    pub children: Seq<NodeView>,
}

pub open spec fn node_view(n: SyntaxNode) -> NodeView
    decreases n,
{
    NodeView {
        kind: n.kind@,
        named: n.named,
        start_line: n.start_line,
        end_line: n.end_line,
        start_column: n.start_column,
        end_column: n.end_column,
        start_byte: n.start_byte,
        end_byte: n.end_byte,
        name: n.name,
        body: n.body,
        children: node_views(n.children@),
    }
}

pub open spec fn node_views(s: Seq<SyntaxNode>) -> Seq<NodeView>
    decreases s,
{
    Seq::new(
        s.len(),
        |i: int|
            if 0 <= i < s.len() {
                node_view(s[i])
            } else {
                arbitrary()
            },
    )
}

impl View for SyntaxNode {
    type V = NodeView;

    open spec fn view(&self) -> NodeView {
        node_view(*self)
    }
}

pub proof fn lemma_node_views(s: Seq<SyntaxNode>)
    ensures
        node_views(s) == text::views(s),
{
    assert(node_views(s) =~= text::views(s));
}

/// The rows of a node and of all nodes inside it can be numbered from one.
pub open spec fn rows_fit(n: RawNodeView) -> bool
    decreases n,
{
    &&& n.start_row as u32 != u32::MAX
    &&& n.end_row as u32 != u32::MAX
    &&& forall|i: int| 0 <= i < n.children.len() ==> rows_fit(#[trigger] n.children[i])
}

/// The node with its rows numbered from one.
pub open spec fn numbered(n: RawNodeView) -> NodeView
    decreases n,
{
    NodeView {
        kind: n.kind,
        named: n.named,
        start_line: (n.start_row as u32 + 1) as u32,
        end_line: (n.end_row as u32 + 1) as u32,
        start_column: n.start_column,
        end_column: n.end_column,
        start_byte: n.start_byte,
        end_byte: n.end_byte,
        name: n.name,
        body: n.body,
        children: numbered_all(n.children),
    }
}

pub open spec fn numbered_all(s: Seq<RawNodeView>) -> Seq<NodeView>
    decreases s,
{
    Seq::new(
        s.len(),
        |i: int|
            if 0 <= i < s.len() {
                numbered(s[i])
            } else {
                arbitrary()
            },
    )
}

/// Takes a node apart, down to its leaves, and numbers its rows from one.
fn take_apart(node: tree_sitter::Node<'_>) -> (r: Option<SyntaxNode>)
    ensures
        match r {
            Some(t) => rows_fit(node_holds(node)) && t@ == numbered(node_holds(node)),
            None => !rows_fit(node_holds(node)),
        },
    decreases node_holds(node),
{
    let ghost whole = node_holds(node);
    let layer: Layer<'_> = open_node(node);
    let start: u32 =
        #[verifier::truncate]
        (layer.start_row as u32);
    let end: u32 =
        #[verifier::truncate]
        (layer.end_row as u32);
    if start == u32::MAX || end == u32::MAX {
        return None;
    }
    let ghost all = nodes_hold(layer.children@);
    let mut children: Vec<SyntaxNode> = Vec::new();
    let mut i: usize = 0;
    assert(node_views(children@) =~= numbered_all(all).take(0));
    while i < layer.children.len()
        invariant
            i <= layer.children.len(),
            whole == node_holds(node),
            all == nodes_hold(layer.children@),
            all.len() == layer.children@.len(),
            whole.children == all,
            forall|k: int| 0 <= k < i ==> rows_fit(#[trigger] all[k]),
            node_views(children@) == numbered_all(all).take(i as int),
        decreases layer.children.len() - i,
    {
        proof {
            assert(all[i as int] == node_holds(layer.children@[i as int]));
            assert(decreases_to!(whole => whole.children));
            assert(decreases_to!(whole.children => whole.children[i as int]));
        }
        match take_apart(layer.children[i]) {
            None => {
                assert(!rows_fit(whole.children[i as int]));
                return None;
            },
            Some(t) => {
                let ghost before = children@;
                children.push(t);
                proof {
                    assert(node_views(children@) =~= node_views(before).push(t@));
                    assert(numbered_all(all).take(i + 1) =~= numbered_all(all).take(i as int).push(
                        t@,
                    ));
                }
            },
        }
        i = i + 1;
    }
    assert(numbered_all(all).take(i as int) =~= numbered_all(all));
    Some(
        SyntaxNode {
            kind: layer.kind,
            named: layer.named,
            start_line: start + 1,
            end_line: end + 1,
            start_column: layer.start_column,
            end_column: layer.end_column,
            start_byte: layer.start_byte,
            end_byte: layer.end_byte,
            name: layer.name,
            body: layer.body,
            children,
        },
    )
}

/// A syntax tree.
#[derive(Debug)]
pub struct SyntaxTree {
    pub root: SyntaxNode,
}

impl View for SyntaxTree {
    type V = NodeView;

    open spec fn view(&self) -> NodeView {
        self.root@
    }
}

impl SyntaxTree {
    /// The node that all others are inside of.
    pub fn root_node(&self) -> (r: &SyntaxNode)
        ensures
            r@ == self@,
    {
        &self.root
    }
}

impl SyntaxNode {
    /// What the grammar calls the node.
    pub fn kind(&self) -> (r: &'static str)
        ensures
            r@ == self@.kind,
    {
        self.kind
    }
}

/// The syntax tree of a text in a language, with its lines numbered from one.
/// There is none where the parser gives none, or where the lines cannot be
/// numbered.
pub open spec fn syntax_of(language: Language, source: Seq<char>) -> Option<NodeView> {
    match tree_of(language, source) {
        Some(t) => if rows_fit(t) {
            Some(numbered(t))
        } else {
            None
        },
        None => None,
    }
}

/// Parses a text in a language.
pub fn parse(language: Language, source: &str) -> (r: Option<SyntaxTree>)
    ensures
        text::opt_view(r) == syntax_of(language, source@),
{
    match parse_tree(language, source) {
        Some(t) => match take_apart(root_of(&t)) {
            Some(root) => Some(SyntaxTree { root }),
            None => None,
        },
        None => None,
    }
}

/// The first and last line of a node.
pub open spec fn lines_of_node(n: NodeView) -> (u32, u32) {
    (n.start_line, n.end_line)
}

/// The first and last line of a node, counted from one.
pub fn node_lines(node: &SyntaxNode) -> (r: (u32, u32))
    ensures
        r == lines_of_node(node@),
{
    (node.start_line, node.end_line)
}

/// Where a node begins and ends.
#[derive(Clone, Copy, Debug, PartialEq, Eq, Structural)]
pub struct Span {
    pub start_line: u32,
    pub start_column: usize,
    pub end_line: u32,
    pub end_column: usize,
}

/// Where a node begins and ends.
pub open spec fn span_of_node(n: NodeView) -> Span {
    Span {
        start_line: n.start_line,
        start_column: n.start_column,
        end_line: n.end_line,
        end_column: n.end_column,
    }
}

/// Where a node begins and ends.
pub fn node_span(node: &SyntaxNode) -> (r: Span)
    ensures
        r == span_of_node(node@),
{
    Span {
        start_line: node.start_line,
        start_column: node.start_column,
        end_line: node.end_line,
        end_column: node.end_column,
    }
}

/// The columns from `from` to `to` of a line are inside a span.
pub open spec fn spans(s: Span, line: u32, from: nat, to: nat) -> bool {
    &&& s.start_line < line || (s.start_line == line && s.start_column <= from)
    &&& line < s.end_line || (line == s.end_line && to <= s.end_column)
}

// --- walking -------------------------------------------------------------

/// A node that is visited, with the kinds of the node around it and of the one
/// around that, and the line that the node around it begins on.
#[derive(Debug)]
pub struct Visit<'a> {
    pub node: &'a SyntaxNode,
    pub parent: Option<&'static str>,
    pub parent_line: Option<u32>,
    pub grandparent: Option<&'static str>,
}

#[verifier::ext_equal]
pub struct VisitView {
    pub node: NodeView,
    pub parent: Option<Seq<char>>,
    pub parent_line: Option<u32>,
    pub grandparent: Option<Seq<char>>,
}

impl<'a> View for Visit<'a> {
    type V = VisitView;

    open spec fn view(&self) -> VisitView {
        VisitView {
            node: self.node@,
            parent: text::opt_view(self.parent),
            parent_line: self.parent_line,
            grandparent: text::opt_view(self.grandparent),
        }
    }
}

/// A node and all nodes inside it, each before those inside it.
pub open spec fn visits(
    n: NodeView,
    parent: Option<Seq<char>>,
    parent_line: Option<u32>,
    grandparent: Option<Seq<char>>,
) -> Seq<VisitView>
    decreases n, 0nat,
{
    seq![VisitView { node: n, parent, parent_line, grandparent }] + visits_below(
        n.children,
        n.children.len(),
        Some(n.kind),
        Some(n.start_line),
        parent,
    )
}

/// The first `k` of these nodes, each followed by all nodes inside it.
pub open spec fn visits_below(
    s: Seq<NodeView>,
    k: nat,
    parent: Option<Seq<char>>,
    parent_line: Option<u32>,
    grandparent: Option<Seq<char>>,
) -> Seq<VisitView>
    decreases s, k,
{
    if k == 0 || k > s.len() {
        Seq::empty()
    } else {
        visits_below(s, (k - 1) as nat, parent, parent_line, grandparent) + visits(
            s[k - 1],
            parent,
            parent_line,
            grandparent,
        )
    }
}

/// All nodes of a tree, each before those inside it.
pub open spec fn preorder(root: NodeView) -> Seq<VisitView> {
    visits(root, None, None, None)
}

fn visit_into<'a>(
    node: &'a SyntaxNode,
    parent: Option<&'static str>,
    parent_line: Option<u32>,
    grandparent: Option<&'static str>,
    out: &mut Vec<Visit<'a>>,
)
    ensures
        text::views(final(out)@) == text::views(old(out)@) + visits(
            node@,
            text::opt_view(parent),
            parent_line,
            text::opt_view(grandparent),
        ),
    decreases node,
{
    let ghost start = text::views(out@);
    let ghost p = text::opt_view(parent);
    let ghost g = text::opt_view(grandparent);
    let ghost l = Some(node.start_line);
    let v = Visit { node, parent, parent_line, grandparent };
    let ghost before = out@;
    out.push(v);
    proof {
        text::lemma_views_push(before, v);
    }
    let ghost base = text::views(out@);
    let ghost all = node@.children;
    let mut i: usize = 0;
    assert(base + visits_below(all, 0, Some(node@.kind), l, p) =~= base);
    while i < node.children.len()
        invariant
            i <= node.children.len(),
            all == node@.children,
            all.len() == node.children@.len(),
            p == text::opt_view(parent),
            l == Some(node.start_line),
            text::views(out@) == base + visits_below(all, i as nat, Some(node@.kind), l, p),
            decreases_to!(node => node.children@),
        decreases node.children.len() - i,
    {
        let child: &SyntaxNode = &node.children[i];
        assert(all[i as int] == child@);
        visit_into(child, Some(node.kind), Some(node.start_line), parent, out);
        i = i + 1;
        assert(text::views(out@) =~= base + visits_below(all, i as nat, Some(node@.kind), l, p));
    }
    assert(text::views(out@) =~= start + visits(node@, p, parent_line, g));
}

/// All nodes from this one on, each before those inside it.
pub fn walk<'a>(node: &'a SyntaxNode) -> (r: Vec<Visit<'a>>)
    ensures
        text::views(r@) == preorder(node@),
{
    let mut out: Vec<Visit<'a>> = Vec::new();
    assert(text::views(out@) =~= Seq::<VisitView>::empty());
    visit_into(node, None, None, None, &mut out);
    assert(text::views(out@) =~= preorder(node@));
    out
}

/// The lines of the nodes that were picked.
pub open spec fn picked_lines(vs: Seq<VisitView>, picks: Seq<bool>) -> Seq<(u32, u32)>
    decreases vs.len(),
{
    if vs.len() == 0 {
        Seq::empty()
    } else if picks[vs.len() - 1] {
        picked_lines(vs.drop_last(), picks).push(lines_of_node(vs.last().node))
    } else {
        picked_lines(vs.drop_last(), picks)
    }
}

/// The nodes are those that are visited, and the picks are what the test says
/// of them.
pub open spec fn tested<F: Fn(&SyntaxNode) -> bool>(
    test: F,
    nodes: Seq<&SyntaxNode>,
    vs: Seq<VisitView>,
    picks: Seq<bool>,
) -> bool {
    &&& nodes.len() == vs.len() == picks.len()
    &&& forall|i: int|
        #![trigger nodes[i]]
        0 <= i < vs.len() ==> nodes[i]@ == vs[i].node && call_ensures(test, (nodes[i],), picks[i])
}

/// The lines of all nodes of which the test holds, in the order of the tree.
pub fn collect_line_ranges<F: Fn(&SyntaxNode) -> bool>(tree: &SyntaxTree, test: F) -> (r: Vec<
    (u32, u32),
>)
    requires
        forall|n: &SyntaxNode| call_requires(test, (n,)),
    ensures
        exists|nodes: Seq<&SyntaxNode>, picks: Seq<bool>| #[trigger]
            tested(test, nodes, preorder(tree@), picks) && r@ == picked_lines(
                preorder(tree@),
                picks,
            ),
{
    let all: Vec<Visit<'_>> = walk(&tree.root);
    let ghost vs = preorder(tree@);
    let ghost mut nodes: Seq<&SyntaxNode> = Seq::empty();
    let ghost mut picks: Seq<bool> = Seq::empty();
    let mut out: Vec<(u32, u32)> = Vec::new();
    let mut i: usize = 0;
    while i < all.len()
        invariant
            i <= all.len(),
            vs == text::views(all@),
            forall|n: &SyntaxNode| call_requires(test, (n,)),
            tested(test, nodes, vs.take(i as int), picks),
            out@ == picked_lines(vs.take(i as int), picks),
        decreases all.len() - i,
    {
        let node: &SyntaxNode = all[i].node;
        assert(vs[i as int] == all@[i as int]@);
        let pick: bool = test(node);
        if pick {
            out.push(node_lines(node));
        }
        proof {
            let shorter = vs.take(i as int);
            let longer = vs.take(i + 1);
            assert(longer.drop_last() == shorter);
            lemma_picked_lines_grow(shorter, picks, pick);
            nodes = nodes.push(node);
            picks = picks.push(pick);
            assert forall|k: int| #![trigger nodes[k]] 0 <= k < longer.len() implies nodes[k]@
                == longer[k].node && call_ensures(test, (nodes[k],), picks[k]) by {
                if k < shorter.len() {
                    assert(longer[k] == shorter[k]);
                }
            }
        }
        i = i + 1;
    }
    assert(vs.take(i as int) == vs);
    out
}

proof fn lemma_picked_lines_grow(vs: Seq<VisitView>, picks: Seq<bool>, pick: bool)
    requires
        vs.len() == picks.len(),
    ensures
        picked_lines(vs, picks.push(pick)) == picked_lines(vs, picks),
{
    lemma_picked_lines_prefix(vs, picks.push(pick), picks);
}

proof fn lemma_picked_lines_prefix(vs: Seq<VisitView>, a: Seq<bool>, b: Seq<bool>)
    requires
        vs.len() <= a.len(),
        vs.len() <= b.len(),
        forall|i: int| 0 <= i < vs.len() ==> a[i] == b[i],
    ensures
        picked_lines(vs, a) == picked_lines(vs, b),
    decreases vs.len(),
{
    if vs.len() > 0 {
        lemma_picked_lines_prefix(vs.drop_last(), a, b);
    }
}

// --- lines ---------------------------------------------------------------

/// A line is inside a range of lines.
pub open spec fn inside(line: u32, range: (u32, u32)) -> bool {
    range.0 <= line <= range.1
}

/// A line is inside one of the ranges.
pub open spec fn inside_any(line: u32, ranges: Seq<(u32, u32)>) -> bool {
    exists|k: int| 0 <= k < ranges.len() && inside(line, #[trigger] ranges[k])
}

/// Every line is inside one of the ranges.
pub open spec fn all_inside(lines: Seq<u32>, ranges: Seq<(u32, u32)>) -> bool {
    forall|i: int| 0 <= i < lines.len() ==> inside_any(#[trigger] lines[i], ranges)
}

/// Some line is inside one of the ranges.
pub open spec fn some_inside(lines: Seq<u32>, ranges: Seq<(u32, u32)>) -> bool {
    exists|i: int| 0 <= i < lines.len() && inside_any(#[trigger] lines[i], ranges)
}

fn line_within(line: u32, ranges: &[(u32, u32)]) -> (r: bool)
    ensures
        r == inside_any(line, ranges@),
{
    let mut k: usize = 0;
    while k < ranges.len()
        invariant
            k <= ranges.len(),
            forall|j: int| 0 <= j < k ==> !inside(line, #[trigger] ranges@[j]),
        decreases ranges.len() - k,
    {
        let (s, e): (u32, u32) = ranges[k];
        assert(ranges@[k as int] == (s, e));
        if line >= s && line <= e {
            assert(inside(line, ranges@[k as int]));
            return true;
        }
        k = k + 1;
    }
    false
}

/// Whether every line is inside one of the ranges, both ends with them.
pub fn lines_all_within(lines: &[u32], ranges: &[(u32, u32)]) -> (r: bool)
    ensures
        r == all_inside(lines@, ranges@),
{
    let mut i: usize = 0;
    while i < lines.len()
        invariant
            i <= lines.len(),
            forall|j: int| 0 <= j < i ==> inside_any(#[trigger] lines@[j], ranges@),
        decreases lines.len() - i,
    {
        if !line_within(lines[i], ranges) {
            assert(!inside_any(lines@[i as int], ranges@));
            return false;
        }
        i = i + 1;
    }
    true
}

/// Whether any line is inside any of the ranges.
pub fn any_line_within(lines: &[u32], ranges: &[(u32, u32)]) -> (r: bool)
    ensures
        r == some_inside(lines@, ranges@),
{
    let mut i: usize = 0;
    while i < lines.len()
        invariant
            i <= lines.len(),
            forall|j: int| 0 <= j < i ==> !inside_any(#[trigger] lines@[j], ranges@),
        decreases lines.len() - i,
    {
        if line_within(lines[i], ranges) {
            assert(inside_any(lines@[i as int], ranges@));
            return true;
        }
        i = i + 1;
    }
    false
}

/// The line has nothing but white space.
pub open spec fn blank(line: Seq<char>) -> bool {
    forall|i: int| 0 <= i < line.len() ==> text::is_space(#[trigger] line[i])
}

/// Whether the line has nothing but white space.
pub fn is_blank_line(line: &str) -> (r: bool)
    ensures
        r == blank(line@),
{
    let cs: Vec<char> = text::chars(line);
    let mut i: usize = 0;
    while i < cs.len()
        invariant
            i <= cs.len(),
            cs@ == line@,
            forall|k: int| 0 <= k < i ==> text::is_space(#[trigger] line@[k]),
        decreases cs.len() - i,
    {
        if !text::space(cs[i]) {
            assert(!text::is_space(line@[i as int]));
            return false;
        }
        i = i + 1;
    }
    true
}

/// Whether a number is among these.
pub fn has_line(lines: &[u32], line: u32) -> (r: bool)
    ensures
        r == lines@.contains(line),
{
    let mut i: usize = 0;
    while i < lines.len()
        invariant
            i <= lines.len(),
            forall|k: int| 0 <= k < i ==> lines@[k] != line,
        decreases lines.len() - i,
    {
        if lines[i] == line {
            assert(lines@[i as int] == line);
            return true;
        }
        i = i + 1;
    }
    false
}

/// The text between two byte positions, where both stand between characters.
pub open spec fn text_between(source: Seq<char>, start: int, end: int) -> Option<Seq<char>> {
    let bytes = vstd::utf8::encode_utf8(source);
    if 0 <= start <= end <= bytes.len() && vstd::utf8::is_char_boundary(bytes, start)
        && vstd::utf8::is_char_boundary(bytes, end) {
        Some(vstd::utf8::decode_utf8(bytes.subrange(start, end)))
    } else {
        None
    }
}

/// The text between two byte positions of a source.
pub fn slice_text(source: &str, start: usize, end: usize) -> (r: Option<String>)
    ensures
        text::opt_view(r) == text_between(source@, start as int, end as int),
{
    let len: usize = text::byte_len(source);
    if start > end || end > len || !source.is_char_boundary(start) || !source.is_char_boundary(
        end,
    ) {
        return None;
    }
    let ghost bytes = vstd::utf8::encode_utf8(source@);
    proof {
        vstd::utf8::encode_utf8_valid_utf8(source@);
        vstd::utf8::valid_utf8_split(bytes, start as int);
        lemma_boundary_in_rest(bytes, start as int, end as int);
    }
    let (_, rest): (&str, &str) = source.split_at(start);
    let (middle, _): (&str, &str) = rest.split_at(end - start);
    proof {
        assert(vstd::utf8::encode_utf8(middle@) =~= bytes.subrange(start as int, end as int));
        vstd::utf8::encode_utf8_decode_utf8(middle@);
    }
    Some(middle.to_string())
}

/// A position between characters is one in the rest of a text too.
proof fn lemma_boundary_in_rest(bytes: Seq<u8>, start: int, end: int)
    requires
        vstd::utf8::valid_utf8(bytes),
        0 <= start <= end <= bytes.len(),
        vstd::utf8::is_char_boundary(bytes, start),
        vstd::utf8::is_char_boundary(bytes, end),
    ensures
        vstd::utf8::is_char_boundary(
            bytes.subrange(start, bytes.len() as int),
            end - start,
        ),
    decreases bytes.len(),
{
    if start == 0 {
        assert(bytes.subrange(0, bytes.len() as int) =~= bytes);
    } else {
        let n = vstd::utf8::length_of_first_scalar(bytes);
        let rest = vstd::utf8::pop_first_scalar(bytes);
        assert(vstd::utf8::is_char_boundary(rest, start - n));
        assert(vstd::utf8::is_char_boundary(rest, end - n));
        assert(start - n >= 0) by {
            reveal_with_fuel(vstd::utf8::is_char_boundary, 2);
        }
        lemma_boundary_in_rest(rest, start - n, end - n);
        assert(rest.subrange(start - n, rest.len() as int) =~= bytes.subrange(
            start,
            bytes.len() as int,
        ));
    }
}

// --- every node is visited -----------------------------------------------

/// The visit at `j` is that of the child `c` of the node that is visited at `k`.
pub open spec fn visits_child(vs: Seq<VisitView>, k: int, c: int, j: int) -> bool {
    &&& 0 <= k < j < vs.len()
    &&& 0 <= c < vs[k].node.children.len()
    &&& vs[j].node == vs[k].node.children[c]
    &&& vs[j].parent == Some(vs[k].node.kind)
    &&& vs[j].parent_line == Some(vs[k].node.start_line)
    &&& vs[j].grandparent == vs[k].parent
}

/// The child `c` of the node that is visited at `k` is visited.
pub open spec fn child_is_visited(vs: Seq<VisitView>, k: int, c: int) -> bool {
    exists|j: int| #[trigger] visits_child(vs, k, c, j)
}

/// Every child of a node that is visited is visited, after the node.
pub open spec fn is_closed(vs: Seq<VisitView>) -> bool {
    forall|k: int, c: int|
        0 <= k < vs.len() && 0 <= c < vs[k].node.children.len() ==> #[trigger] child_is_visited(
            vs,
            k,
            c,
        )
}

/// How many nodes there are in a tree.
pub open spec fn size_of(n: NodeView) -> nat
    decreases n, 0nat,
{
    1 + size_below(n.children, n.children.len())
}

pub open spec fn size_below(s: Seq<NodeView>, k: nat) -> nat
    decreases s, k,
{
    if k == 0 || k > s.len() {
        0
    } else {
        size_below(s, (k - 1) as nat) + size_of(s[k - 1])
    }
}

proof fn lemma_closed_add(a: Seq<VisitView>, b: Seq<VisitView>)
    requires
        is_closed(a),
        is_closed(b),
    ensures
        is_closed(a + b),
{
    let vs = a + b;
    assert forall|k: int, c: int|
        0 <= k < vs.len() && 0 <= c < vs[k].node.children.len() implies #[trigger] child_is_visited(
        vs,
        k,
        c,
    ) by {
        if k < a.len() {
            assert(vs[k] == a[k]);
            assert(child_is_visited(a, k, c));
            let j = choose|j: int| #[trigger] visits_child(a, k, c, j);
            assert(vs[j] == a[j]);
            assert(visits_child(vs, k, c, j));
        } else {
            let i = k - a.len();
            assert(vs[k] == b[i]);
            assert(child_is_visited(b, i, c));
            let j = choose|j: int| #[trigger] visits_child(b, i, c, j);
            assert(vs[j + a.len()] == b[j]);
            assert(visits_child(vs, k, c, j + a.len()));
        }
    }
}

proof fn lemma_visits(
    n: NodeView,
    parent: Option<Seq<char>>,
    parent_line: Option<u32>,
    grandparent: Option<Seq<char>>,
)
    ensures
        ({
            let vs = visits(n, parent, parent_line, grandparent);
            &&& is_closed(vs)
            &&& vs.len() == size_of(n)
            &&& vs[0] == (VisitView { node: n, parent, parent_line, grandparent })
        }),
    decreases n, 0nat,
{
    let vs = visits(n, parent, parent_line, grandparent);
    let below = visits_below(
        n.children,
        n.children.len(),
        Some(n.kind),
        Some(n.start_line),
        parent,
    );
    lemma_visits_below(
        n.children,
        n.children.len(),
        Some(n.kind),
        Some(n.start_line),
        parent,
    );
    assert forall|k: int, c: int|
        0 <= k < vs.len() && 0 <= c < vs[k].node.children.len() implies #[trigger] child_is_visited(
        vs,
        k,
        c,
    ) by {
        if k == 0 {
            let j = choose|j: int|
                0 <= j < below.len() && #[trigger] below[j] == (VisitView {
                    node: n.children[c],
                    parent: Some(n.kind),
                    parent_line: Some(n.start_line),
                    grandparent: parent,
                });
            assert(vs[j + 1] == below[j]);
            assert(visits_child(vs, k, c, j + 1));
        } else {
            assert(vs[k] == below[k - 1]);
            assert(child_is_visited(below, k - 1, c));
            let j = choose|j: int| #[trigger] visits_child(below, k - 1, c, j);
            assert(vs[j + 1] == below[j]);
            assert(visits_child(vs, k, c, j + 1));
        }
    }
}

proof fn lemma_visits_below(
    s: Seq<NodeView>,
    k: nat,
    parent: Option<Seq<char>>,
    parent_line: Option<u32>,
    grandparent: Option<Seq<char>>,
)
    requires
        k <= s.len(),
    ensures
        ({
            let vs = visits_below(s, k, parent, parent_line, grandparent);
            &&& is_closed(vs)
            &&& vs.len() == size_below(s, k)
            &&& forall|c: int|
                0 <= c < k ==> exists|j: int|
                    0 <= j < vs.len() && #[trigger] vs[j] == (VisitView {
                        node: #[trigger] s[c],
                        parent,
                        parent_line,
                        grandparent,
                    })
        }),
    decreases s, k,
{
    if k > 0 {
        let before = visits_below(s, (k - 1) as nat, parent, parent_line, grandparent);
        let last = visits(s[k - 1], parent, parent_line, grandparent);
        let vs = visits_below(s, k, parent, parent_line, grandparent);
        lemma_visits_below(s, (k - 1) as nat, parent, parent_line, grandparent);
        lemma_visits(s[k - 1], parent, parent_line, grandparent);
        lemma_closed_add(before, last);
        assert forall|c: int| 0 <= c < k implies exists|j: int|
            0 <= j < vs.len() && #[trigger] vs[j] == (VisitView {
                node: #[trigger] s[c],
                parent,
                parent_line,
                grandparent,
            }) by {
            if c < k - 1 {
                let j = choose|j: int|
                    0 <= j < before.len() && #[trigger] before[j] == (VisitView {
                        node: s[c],
                        parent,
                        parent_line,
                        grandparent,
                    });
                assert(vs[j] == before[j]);
            } else {
                assert(vs[before.len() as int] == last[0]);
            }
        }
    }
}

/// A walk begins at the root, visits every child of a node that it visits, with
/// what is around it, and makes no more visits than there are nodes.
pub proof fn law_every_node_is_visited(root: NodeView, k: int, c: int)
    requires
        0 <= k < preorder(root).len(),
        0 <= c < preorder(root)[k].node.children.len(),
    ensures
        preorder(root)[0] == (VisitView {
            node: root,
            parent: None,
            parent_line: None,
            grandparent: None,
        }),
        exists|j: int| #[trigger] visits_child(preorder(root), k, c, j),
        preorder(root).len() == size_of(root),
{
    lemma_visits(root, None, None, None);
    assert(child_is_visited(preorder(root), k, c));
}

// --- the text of a node --------------------------------------------------

proof fn lemma_encode_add(a: Seq<char>, b: Seq<char>)
    ensures
        vstd::utf8::encode_utf8(a + b) == vstd::utf8::encode_utf8(a) + vstd::utf8::encode_utf8(b),
    decreases a.len(),
{
    if a.len() == 0 {
        assert(a + b =~= b);
        assert(vstd::utf8::encode_utf8(a) + vstd::utf8::encode_utf8(b) =~= vstd::utf8::encode_utf8(
            b,
        ));
    } else {
        assert((a + b).drop_first() =~= a.drop_first() + b);
        assert((a + b)[0] == a[0]);
        lemma_encode_add(a.drop_first(), b);
        assert(vstd::utf8::encode_utf8(a + b) =~= vstd::utf8::encode_utf8(a)
            + vstd::utf8::encode_utf8(b));
    }
}

proof fn lemma_boundary(a: Seq<char>, b: Seq<char>)
    ensures
        vstd::utf8::is_char_boundary(
            vstd::utf8::encode_utf8(a + b),
            vstd::utf8::encode_utf8(a).len() as int,
        ),
    decreases a.len(),
{
    broadcast use vstd::utf8::encode_utf8_valid_utf8;

    let bytes = vstd::utf8::encode_utf8(a + b);
    let n = vstd::utf8::encode_utf8(a).len() as int;
    assert(vstd::utf8::valid_utf8(bytes));
    if a.len() > 0 {
        lemma_encode_add(a, b);
        assert((a + b).drop_first() =~= a.drop_first() + b);
        assert((a + b)[0] == a[0]);
        vstd::utf8::encode_utf8_first_scalar(a + b);
        assert(vstd::utf8::pop_first_scalar(bytes) =~= vstd::utf8::encode_utf8(
            a.drop_first() + b,
        ));
        lemma_boundary(a.drop_first(), b);
    }
}

/// The text between the positions of two characters, counted in bytes, is what
/// stands between them.
pub proof fn law_text_between(a: Seq<char>, b: Seq<char>, c: Seq<char>)
    ensures
        text_between(
            a + b + c,
            text::bytes_len(a) as int,
            (text::bytes_len(a) + text::bytes_len(b)) as int,
        ) == Some(b),
{
    broadcast use vstd::utf8::encode_utf8_decode_utf8;

    let bytes = vstd::utf8::encode_utf8(a + b + c);
    let x = vstd::utf8::encode_utf8(a);
    let y = vstd::utf8::encode_utf8(b);
    let z = vstd::utf8::encode_utf8(c);
    lemma_encode_add(a + b, c);
    lemma_encode_add(a, b);
    assert(bytes =~= x + y + z);
    lemma_boundary(a + b, c);
    assert(a + b + c =~= a + (b + c));
    lemma_boundary(a, b + c);
    assert(bytes.subrange(x.len() as int, (x.len() + y.len()) as int) =~= y);
}

} // verus!
