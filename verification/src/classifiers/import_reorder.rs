//! Hunks that only put imports in another order.
//!
//! Every changed line is inside an import of its side, and the two sides have
//! the same imports, though not in the same order. An import is known by its
//! text.
use vstd::prelude::*;

use crate::ast;
use crate::ast::{NodeView, SyntaxTree, Visit, VisitView};
use crate::classifiers;
use crate::classify::{Category, Classification, Classifier, Finding, FindingView, Level};
use crate::diff::{FileDiff, FileDiffView, Hunk, HunkView};
use crate::lang::Language;
use crate::text;

verus! {

/// Skips hunks that only put imports in another order.
pub struct ImportReorder;

/// A node of this kind is an import.
pub open spec fn is_import(language: Language, kind: Seq<char>) -> bool {
    match language {
        Language::Rust => kind == "use_declaration"@,
        Language::Python => kind == "import_statement"@ || kind == "import_from_statement"@,
        _ => kind == "import_statement"@,
    }
}

fn is_import_node(language: Language, kind: &str) -> (r: bool)
    ensures
        r == is_import(language, kind@),
{
    match language {
        Language::Rust => text::str_same(kind, "use_declaration"),
        Language::Python => text::str_same(kind, "import_statement") || text::str_same(
            kind,
            "import_from_statement",
        ),
        _ => text::str_same(kind, "import_statement"),
    }
}

/// The node stands at the top of its file.
pub open spec fn at_top(v: VisitView) -> bool {
    match v.parent {
        Some(p) => p == "source_file"@ || p == "program"@ || p == "module"@,
        None => false,
    }
}

fn is_top_level(v: &Visit<'_>) -> (r: bool)
    ensures
        r == at_top(v@),
{
    match v.parent {
        Some(p) => text::str_same(p, "source_file") || text::str_same(p, "program")
            || text::str_same(p, "module"),
        None => false,
    }
}

/// The text of an import, without the white space around it.
pub open spec fn import_text(source: Seq<char>, n: NodeView) -> Seq<char> {
    match ast::text_between(source, n.start_byte as int, n.end_byte as int) {
        Some(t) => text::trimmed(t),
        None => Seq::empty(),
    }
}

/// An import, by its text and lines.
#[verifier::ext_equal]
pub struct ImportView {
    pub text: Seq<char>,
    pub lines: (u32, u32),
}

/// An import, by its text and lines.
#[derive(Debug)]
pub struct Import {
    pub text: String,
    pub lines: (u32, u32),
}

impl View for Import {
    type V = ImportView;

    open spec fn view(&self) -> ImportView {
        ImportView { text: self.text@, lines: self.lines }
    }
}

/// The imports at the top of the file among these nodes.
pub open spec fn imports_in(language: Language, vs: Seq<VisitView>, source: Seq<char>) -> Seq<
    ImportView,
>
    decreases vs.len(),
{
    if vs.len() == 0 {
        Seq::empty()
    } else {
        let before = imports_in(language, vs.drop_last(), source);
        let v = vs.last();
        if is_import(language, v.node.kind) && at_top(v) {
            before.push(
                ImportView {
                    text: import_text(source, v.node),
                    lines: ast::lines_of_node(v.node),
                },
            )
        } else {
            before
        }
    }
}

/// The imports at the top of a file.
pub open spec fn imports_of(language: Language, tree: NodeView, source: Seq<char>) -> Seq<
    ImportView,
> {
    imports_in(language, ast::preorder(tree), source)
}

pub open spec fn texts_of(imports: Seq<ImportView>) -> Seq<Seq<char>> {
    imports.map_values(|i: ImportView| i.text)
}

pub open spec fn ranges_of(imports: Seq<ImportView>) -> Seq<(u32, u32)> {
    imports.map_values(|i: ImportView| i.lines)
}

/// The imports at the top of a file, in order.
pub fn collect_imports(language: Language, tree: &SyntaxTree, source: &str) -> (r: Vec<Import>)
    ensures
        text::views(r@) == imports_of(language, tree@, source@),
{
    let all: Vec<Visit<'_>> = ast::walk(&tree.root);
    let ghost vs = ast::preorder(tree@);
    let mut out: Vec<Import> = Vec::new();
    let mut i: usize = 0;
    assert(text::views(out@) =~= imports_in(language, vs.take(0), source@));
    while i < all.len()
        invariant
            i <= all.len(),
            vs == text::views(all@),
            text::views(out@) == imports_in(language, vs.take(i as int), source@),
        decreases all.len() - i,
    {
        let v: &Visit<'_> = &all[i];
        assert(vs.take(i + 1).drop_last() == vs.take(i as int));
        assert(vs.take(i + 1).last() == v@);
        if is_import_node(language, v.node.kind()) && is_top_level(v) {
            let text: String = match ast::slice_text(source, v.node.start_byte, v.node.end_byte) {
                Some(t) => text::string(text::trim(&text::chars(t.as_str()))),
                None => String::new(),
            };
            assert(text@ =~= import_text(source@, v.node@));
            let import = Import { text, lines: ast::node_lines(v.node) };
            let ghost before = out@;
            out.push(import);
            proof {
                text::lemma_views_push(before, import);
            }
        }
        i = i + 1;
    }
    assert(vs.take(i as int) == vs);
    out
}

fn ranges(imports: &Vec<Import>) -> (r: Vec<(u32, u32)>)
    ensures
        r@ == ranges_of(text::views(imports@)),
{
    let ghost all = ranges_of(text::views(imports@));
    let mut out: Vec<(u32, u32)> = Vec::new();
    let mut i: usize = 0;
    while i < imports.len()
        invariant
            i <= imports.len(),
            all == ranges_of(text::views(imports@)),
            out@ == all.take(i as int),
        decreases imports.len() - i,
    {
        out.push(imports[i].lines);
        assert(all.take(i + 1) =~= all.take(i as int).push(imports@[i as int].lines));
        i = i + 1;
    }
    assert(all.take(i as int) =~= all);
    out
}

fn texts(imports: &Vec<Import>) -> (r: Vec<String>)
    ensures
        text::views(r@) == texts_of(text::views(imports@)),
{
    let ghost all = texts_of(text::views(imports@));
    let mut out: Vec<String> = Vec::new();
    let mut i: usize = 0;
    while i < imports.len()
        invariant
            i <= imports.len(),
            all == texts_of(text::views(imports@)),
            text::views(out@) == all.take(i as int),
        decreases imports.len() - i,
    {
        let ghost before = out@;
        let t: String = imports[i].text.clone();
        out.push(t);
        proof {
            text::lemma_views_push(before, t);
            assert(all.take(i + 1) =~= all.take(i as int).push(t@));
        }
        i = i + 1;
    }
    assert(all.take(i as int) =~= all);
    out
}

/// Whether two lists are the same.
fn same_list(a: &Vec<String>, b: &Vec<String>) -> (r: bool)
    ensures
        r == (text::views(a@) == text::views(b@)),
{
    let ghost xs = text::views(a@);
    let ghost ys = text::views(b@);
    assert(xs.len() == a@.len() && ys.len() == b@.len());
    if a.len() != b.len() {
        return false;
    }
    let mut i: usize = 0;
    while i < a.len()
        invariant
            i <= a.len() == b.len(),
            xs == text::views(a@),
            ys == text::views(b@),
            forall|k: int| 0 <= k < i ==> xs[k] == ys[k],
        decreases a.len() - i,
    {
        assert(xs[i as int] == a@[i as int]@ && ys[i as int] == b@[i as int]@);
        if !text::str_same(a[i].as_str(), b[i].as_str()) {
            return false;
        }
        i = i + 1;
    }
    assert(xs =~= ys);
    true
}

/// Whether two lists have the same elements, each as often.
fn same_elements(a: &Vec<String>, b: &Vec<String>) -> (r: bool)
    ensures
        r == (text::views(a@).to_multiset() == text::views(b@).to_multiset()),
{
    let ghost xs = text::views(a@);
    let ghost ys = text::views(b@);
    let mut rest: Vec<String> = text::clone_all(b);
    let mut i: usize = 0;
    proof {
        xs.to_multiset_ensures();
        ys.to_multiset_ensures();
        assert(text::views(rest@) =~= ys);
        assert(xs.take(0).to_multiset() =~= vstd::multiset::Multiset::<Seq<char>>::empty()) by {
            xs.take(0).to_multiset_ensures();
        }
        assert(xs.take(0).to_multiset().add(ys.to_multiset()) =~= ys.to_multiset());
    }
    while i < a.len()
        invariant
            i <= a.len(),
            xs == text::views(a@),
            ys == text::views(b@),
            ys.to_multiset() == xs.take(i as int).to_multiset().add(
                text::views(rest@).to_multiset(),
            ),
        decreases a.len() - i,
    {
        let ghost rs = text::views(rest@);
        let ghost x = xs[i as int];
        assert(x == a@[i as int]@);
        let mut j: usize = 0;
        while j < rest.len() && !text::str_same(rest[j].as_str(), a[i].as_str())
            invariant
                i < a.len(),
                j <= rest.len(),
                rs == text::views(rest@),
                x == a@[i as int]@,
                forall|k: int| 0 <= k < j ==> rs[k] != x,
            decreases rest.len() - j,
        {
            assert(rs[j as int] == rest@[j as int]@);
            j = j + 1;
        }
        if j == rest.len() {
            proof {
                assert(!rs.contains(x));
                lemma_missing(xs, ys, i as int, rs);
            }
            return false;
        }
        proof {
            assert(rs[j as int] == x);
            assert(xs.take(i + 1) =~= xs.take(i as int).push(x));
            xs.take(i as int).to_multiset_ensures();
            rs.to_multiset_ensures();
        }
        let ghost before = rest@;
        let _ = rest.remove(j);
        proof {
            assert(text::views(rest@) =~= rs.remove(j as int));
            assert(rs.contains(x));
            assert(rs.to_multiset().count(x) > 0);
            assert(xs.take(i + 1).to_multiset().add(text::views(rest@).to_multiset()) =~= xs.take(
                i as int,
            ).to_multiset().add(rs.to_multiset()));
        }
        i = i + 1;
    }
    let ghost rs = text::views(rest@);
    assert(xs.take(i as int) == xs);
    if rest.len() == 0 {
        proof {
            rs.to_multiset_ensures();
            assert(rs =~= Seq::<Seq<char>>::empty());
            assert(ys.to_multiset() =~= xs.to_multiset());
        }
        true
    } else {
        proof {
            rs.to_multiset_ensures();
            xs.to_multiset_ensures();
            ys.to_multiset_ensures();
            assert(ys.to_multiset().len() == xs.to_multiset().len() + rs.to_multiset().len());
        }
        false
    }
}

/// Where an element of one list is missing among what is left of the other, the
/// two do not have the same elements.
proof fn lemma_missing(xs: Seq<Seq<char>>, ys: Seq<Seq<char>>, i: int, rest: Seq<Seq<char>>)
    requires
        0 <= i < xs.len(),
        ys.to_multiset() == xs.take(i).to_multiset().add(rest.to_multiset()),
        !rest.contains(xs[i]),
    ensures
        xs.to_multiset() != ys.to_multiset(),
{
    let x = xs[i];
    let head = xs.take(i);
    let tail = xs.skip(i);
    assert(head + tail =~= xs);
    vstd::seq_lib::lemma_multiset_commutative(head, tail);
    rest.to_multiset_ensures();
    tail.to_multiset_ensures();
    assert(tail[0] == x);
    assert(tail.contains(x));
    assert(tail.to_multiset().count(x) > 0);
    assert(rest.to_multiset().count(x) == 0);
    assert(xs.to_multiset().count(x) == head.to_multiset().count(x) + tail.to_multiset().count(x));
    assert(ys.to_multiset().count(x) == head.to_multiset().count(x));
}

/// The hunk changes nothing but imports, which are the same on both sides but
/// for their order.
pub open spec fn only_reorders(
    old_imports: Seq<ImportView>,
    new_imports: Seq<ImportView>,
    hunk: HunkView,
) -> bool {
    &&& old_imports.len() > 0
    &&& new_imports.len() > 0
    &&& ast::all_inside(hunk.removed_lines, ranges_of(old_imports))
    &&& ast::all_inside(hunk.added_lines, ranges_of(new_imports))
    &&& texts_of(old_imports).to_multiset() == texts_of(new_imports).to_multiset()
    &&& texts_of(old_imports) != texts_of(new_imports)
}

/// Whether the hunk changes nothing but the order of the imports.
pub fn reorders_imports(
    old_imports: &Vec<Import>,
    new_imports: &Vec<Import>,
    hunk: &Hunk,
) -> (r: bool)
    ensures
        r == only_reorders(text::views(old_imports@), text::views(new_imports@), hunk@),
{
    if old_imports.len() == 0 || new_imports.len() == 0 {
        return false;
    }
    if !ast::lines_all_within(&hunk.removed_lines, &ranges(old_imports))
        || !ast::lines_all_within(&hunk.added_lines, &ranges(new_imports)) {
        return false;
    }
    let old_texts: Vec<String> = texts(old_imports);
    let new_texts: Vec<String> = texts(new_imports);
    same_elements(&old_texts, &new_texts) && !same_list(&old_texts, &new_texts)
}

/// The finding on a hunk that only puts imports in another order.
pub open spec fn import_verdict(file: FileDiffView, hunk: HunkView) -> Option<FindingView> {
    if hunk.added_lines.len() == 0 && hunk.removed_lines.len() == 0 {
        None
    } else {
        match (file.language, file.old_content, file.new_content) {
            (Some(l), Some(old), Some(new)) => match (
                ast::syntax_of(l, old),
                ast::syntax_of(l, new),
            ) {
                (Some(s), Some(t)) => if only_reorders(
                    imports_of(l, s, old),
                    imports_of(l, t, new),
                    hunk,
                ) {
                    Some(
                        classifiers::finding_of(
                            Level::Skip,
                            Category::ImportReorder,
                            "imports reordered, no semantic change"@,
                            "import_reorder"@,
                            None,
                        ),
                    )
                } else {
                    None
                },
                _ => None,
            },
            _ => None,
        }
    }
}

impl ImportReorder {
    pub fn new() -> (r: Self)
        ensures
            r == ImportReorder,
    {
        ImportReorder
    }

    pub fn classify(&self, file: &mut FileDiff, hunk: &Hunk) -> (r: Option<Classification>)
        ensures
            text::opt_view(r) == import_verdict(old(file)@, hunk@),
            final(file)@ == old(file)@,
    {
        if hunk.added_lines.len() == 0 && hunk.removed_lines.len() == 0 {
            return None;
        }
        match (&file.language, &file.old_content, &file.new_content) {
            (Some(l), Some(old), Some(new)) => match (
                ast::parse(*l, old.as_str()),
                ast::parse(*l, new.as_str()),
            ) {
                (Some(s), Some(t)) => {
                    let old_imports: Vec<Import> = collect_imports(*l, &s, old.as_str());
                    let new_imports: Vec<Import> = collect_imports(*l, &t, new.as_str());
                    if reorders_imports(&old_imports, &new_imports, hunk) {
                        Some(
                            classifiers::finding(
                                Level::Skip,
                                Category::ImportReorder,
                                "imports reordered, no semantic change".to_string(),
                                "import_reorder",
                                None,
                            ),
                        )
                    } else {
                        None
                    }
                },
                _ => None,
            },
            _ => None,
        }
    }
}

impl Default for ImportReorder {
    fn default() -> (r: Self)
        ensures
            r == ImportReorder,
    {
        ImportReorder
    }
}

impl Classifier for ImportReorder {
    open spec fn label(&self) -> Seq<char> {
        "import_reorder"@
    }

    open spec fn place(&self) -> int {
        110
    }

    open spec fn verdict(&self, file: FileDiffView, hunk: HunkView) -> Seq<FindingView> {
        classifiers::listed(import_verdict(file, hunk))
    }

    open spec fn effect(&self, file: FileDiffView, hunk: HunkView) -> FileDiffView {
        file
    }

    fn name(&self) -> (r: &'static str) {
        "import_reorder"
    }

    fn priority(&self) -> (r: i32) {
        110
    }

    fn classify(&self, file: &mut FileDiff, hunk: &Hunk) -> (r: Vec<Finding>) {
        classifiers::list(ImportReorder::classify(self, file, hunk))
    }
}

// --- only reordered imports are skipped ----------------------------------

/// The node is an import, and stands at the top of its file.
pub open spec fn top_import(language: Language, v: VisitView) -> bool {
    &&& {
        ||| language == Language::Rust && v.node.kind == "use_declaration"@
        ||| language != Language::Rust && v.node.kind == "import_statement"@
        ||| language == Language::Python && v.node.kind == "import_from_statement"@
    }
    &&& {
        ||| v.parent == Some("source_file"@)
        ||| v.parent == Some("program"@)
        ||| v.parent == Some("module"@)
    }
}

/// Tells the imports at the top of a file from its other nodes.
pub open spec fn import_test(language: Language) -> spec_fn(VisitView) -> bool {
    |v: VisitView| top_import(language, v)
}

/// The imports at the top of a file, as nodes.
pub open spec fn top_imports(language: Language, tree: NodeView) -> Seq<VisitView> {
    ast::preorder(tree).filter(import_test(language))
}

/// What a node says, without the white space around it.
pub open spec fn saying(v: VisitView, source: Seq<char>) -> Seq<char> {
    match ast::text_between(source, v.node.start_byte as int, v.node.end_byte as int) {
        Some(t) => text::trimmed(t),
        None => Seq::empty(),
    }
}

/// What the nodes say, one after the other.
pub open spec fn sayings(nodes: Seq<VisitView>, source: Seq<char>) -> Seq<Seq<char>> {
    Seq::new(nodes.len(), |i: int| saying(nodes[i], source))
}

/// The line belongs to one of the nodes.
pub open spec fn belongs(line: u32, nodes: Seq<VisitView>) -> bool {
    exists|k: int|
        0 <= k < nodes.len() && (#[trigger] nodes[k]).node.start_line <= line
            <= nodes[k].node.end_line
}

/// Every one of the lines belongs to one of the nodes.
pub open spec fn all_belong(lines: Seq<u32>, nodes: Seq<VisitView>) -> bool {
    forall|i: int| 0 <= i < lines.len() ==> belongs(#[trigger] lines[i], nodes)
}

proof fn lemma_imports(language: Language, vs: Seq<VisitView>, source: Seq<char>)
    ensures
        ({
            let nodes = vs.filter(import_test(language));
            let found = imports_in(language, vs, source);
            &&& found.len() == nodes.len()
            &&& forall|i: int|
                0 <= i < nodes.len() ==> (#[trigger] found[i]).lines == (
                nodes[i].node.start_line, nodes[i].node.end_line) && found[i].text == saying(
                    nodes[i],
                    source,
                )
        }),
    decreases vs.len(),
{
    reveal(Seq::filter);
    let nodes = vs.filter(import_test(language));
    let found = imports_in(language, vs, source);
    if vs.len() > 0 {
        let v = vs.last();
        let rest = vs.drop_last();
        let before = rest.filter(import_test(language));
        let earlier = imports_in(language, rest, source);
        lemma_imports(language, rest, source);
        assert(import_test(language)(v) == (is_import(language, v.node.kind) && at_top(v)));
        assert forall|i: int| 0 <= i < nodes.len() implies (#[trigger] found[i]).lines == (
        nodes[i].node.start_line, nodes[i].node.end_line) && found[i].text == saying(
            nodes[i],
            source,
        ) by {
            if i < before.len() {
                assert(found[i] == earlier[i]);
                assert(nodes[i] == before[i]);
            } else {
                assert(nodes[i] == v);
            }
        }
    }
}

proof fn lemma_texts(language: Language, tree: NodeView, source: Seq<char>)
    ensures
        texts_of(imports_of(language, tree, source)) == sayings(
            top_imports(language, tree),
            source,
        ),
{
    lemma_imports(language, ast::preorder(tree), source);
    let nodes = top_imports(language, tree);
    let found = imports_of(language, tree, source);
    assert forall|i: int| 0 <= i < nodes.len() implies #[trigger] texts_of(found)[i] == sayings(
        nodes,
        source,
    )[i] by {
        assert(found[i].text == saying(nodes[i], source));
    }
    assert(texts_of(found) =~= sayings(nodes, source));
}

proof fn lemma_belong(language: Language, tree: NodeView, source: Seq<char>, lines: Seq<u32>)
    ensures
        ast::all_inside(lines, ranges_of(imports_of(language, tree, source))) <==> all_belong(
            lines,
            top_imports(language, tree),
        ),
{
    let nodes = top_imports(language, tree);
    let found = imports_of(language, tree, source);
    let ranges = ranges_of(found);
    lemma_imports(language, ast::preorder(tree), source);
    assert forall|k: int| 0 <= k < nodes.len() implies #[trigger] ranges[k] == (
    nodes[k].node.start_line, nodes[k].node.end_line) by {
        assert(found[k].lines == (nodes[k].node.start_line, nodes[k].node.end_line));
    }
    assert forall|i: int| 0 <= i < lines.len() implies ast::inside_any(#[trigger] lines[i], ranges)
        == belongs(lines[i], nodes) by {
        if ast::inside_any(lines[i], ranges) {
            let k = choose|k: int|
                0 <= k < ranges.len() && ast::inside(lines[i], #[trigger] ranges[k]);
            assert(nodes[k].node.start_line <= lines[i] <= nodes[k].node.end_line);
        }
        if belongs(lines[i], nodes) {
            let k = choose|k: int|
                0 <= k < nodes.len() && (#[trigger] nodes[k]).node.start_line <= lines[i]
                    <= nodes[k].node.end_line;
            assert(ast::inside(lines[i], ranges[k]));
        }
    }
    if ast::all_inside(lines, ranges) {
        assert forall|i: int| 0 <= i < lines.len() implies belongs(#[trigger] lines[i], nodes) by {
            assert(ast::inside_any(lines[i], ranges));
        }
    }
    if all_belong(lines, nodes) {
        assert forall|i: int| 0 <= i < lines.len() implies ast::inside_any(
            #[trigger] lines[i],
            ranges,
        ) by {
            assert(belongs(lines[i], nodes));
        }
    }
}

/// The rule makes its finding exactly where something changes, every changed line
/// belongs to an import at the top of the file on its side, and the imports say
/// the same things before and after, as often, but in another order.
pub proof fn law_only_reordered_imports_are_skipped(
    file: FileDiffView,
    hunk: HunkView,
    language: Language,
    old: Seq<char>,
    old_tree: NodeView,
    new: Seq<char>,
    new_tree: NodeView,
)
    requires
        file.language == Some(language),
        file.old_content == Some(old),
        file.new_content == Some(new),
        ast::syntax_of(language, old) == Some(old_tree),
        ast::syntax_of(language, new) == Some(new_tree),
    ensures
        ({
            let before = sayings(top_imports(language, old_tree), old);
            let after = sayings(top_imports(language, new_tree), new);
            import_verdict(file, hunk) is Some <==> {
                &&& hunk.added_lines.len() + hunk.removed_lines.len() > 0
                &&& all_belong(hunk.removed_lines, top_imports(language, old_tree))
                &&& all_belong(hunk.added_lines, top_imports(language, new_tree))
                &&& before.to_multiset() == after.to_multiset()
                &&& before != after
            }
        }),
        import_verdict(file, hunk) matches Some(f) ==> f.level == Level::Skip && f.category
            == Category::ImportReorder,
{
    let before = sayings(top_imports(language, old_tree), old);
    let after = sayings(top_imports(language, new_tree), new);
    lemma_belong(language, old_tree, old, hunk.removed_lines);
    lemma_belong(language, new_tree, new, hunk.added_lines);
    lemma_texts(language, old_tree, old);
    lemma_texts(language, new_tree, new);
    before.to_multiset_ensures();
    after.to_multiset_ensures();
    if before.to_multiset() == after.to_multiset() && before.len() == 0 {
        assert(before.to_multiset().len() == after.to_multiset().len());
        assert(before =~= after);
    }
    if before.to_multiset() == after.to_multiset() && after.len() == 0 {
        assert(before.to_multiset().len() == after.to_multiset().len());
        assert(before =~= after);
    }
}

/// Without both sides of the file, in a language that is known, nothing is
/// skipped.
pub proof fn law_nothing_is_guessed(file: FileDiffView, hunk: HunkView)
    requires
        file.language is None || file.old_content is None || file.new_content is None,
    ensures
        import_verdict(file, hunk) is None,
{
}

} // verus!
