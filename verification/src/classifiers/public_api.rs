//! Changes to what a file offers to others.
//!
//! - Rust: the signature of a `pub` declaration. The fields of a struct and the
//!   variants of an enum are part of it.
//! - Python: the signature of a `def` or `class` of the module whose name does not
//!   begin with an underscore. Its decorators are part of it.
//! - TypeScript and JavaScript: the signature of an exported declaration.
//!
//! The body of a function, a trait or a class is no part of it.
use vstd::prelude::*;

use crate::ast;
use crate::ast::{NodeView, SyntaxNode, SyntaxTree, Visit, VisitView};
use crate::classifiers;
use crate::classify::{
    Category, Classification, Classifier, Finding, FindingView, FocusLines, Level, Side,
};
use crate::diff::{FileDiff, FileDiffView, Hunk, HunkView};
use crate::lang::Language;
use crate::text;

verus! {

/// Asks for review where a public declaration changes.
pub struct PublicApi;

/// A public declaration: the lines of its signature, and what it is.
#[verifier::ext_equal]
pub struct DeclView {
    pub sig: (u32, u32),
    pub label: Seq<char>,
}

/// A public declaration: the lines of its signature, and what it is.
#[derive(Debug)]
pub struct PublicDecl {
    pub sig: (u32, u32),
    pub label: &'static str,
}

impl View for PublicDecl {
    type V = DeclView;

    open spec fn view(&self) -> DeclView {
        DeclView { sig: self.sig, label: self.label@ }
    }
}

/// The last line of a signature that begins on the line `start`, of a node with
/// these children of which the one at `i` is the body: the line that the body
/// begins on where something of the signature still ends there, and else the line
/// before.
pub open spec fn signature_end(start: u32, children: Seq<NodeView>, i: int) -> u32 {
    let row = children[i].start_line;
    if row <= start {
        start
    } else if i > 0 && children[i - 1].end_line == row {
        row
    } else {
        (row - 1) as u32
    }
}

/// The lines of a node down to where its body begins.
pub open spec fn signature_of(n: NodeView) -> Option<(u32, u32)> {
    match n.body {
        Some(i) => if i < n.children.len() {
            Some((n.start_line, signature_end(n.start_line, n.children, i as int)))
        } else {
            None
        },
        None => None,
    }
}

/// The lines of a node without its body; all of them where it has none.
pub open spec fn head_of(n: NodeView) -> (u32, u32) {
    match signature_of(n) {
        Some(s) => s,
        None => ast::lines_of_node(n),
    }
}

fn signature(n: &SyntaxNode) -> (r: Option<(u32, u32)>)
    ensures
        r == signature_of(n@),
{
    match n.body {
        Some(i) => if i < n.children.len() {
            assert(n@.children[i as int] == n.children@[i as int]@);
            let start: u32 = n.start_line;
            let row: u32 = n.children[i].start_line;
            let end: u32 = if row <= start {
                start
            } else if i > 0 && n.children[i - 1].end_line == row {
                row
            } else {
                row - 1
            };
            assert(i > 0 ==> n@.children[i - 1] == n.children@[i - 1]@);
            Some((start, end))
        } else {
            None
        },
        None => None,
    }
}

fn head(n: &SyntaxNode) -> (r: (u32, u32))
    ensures
        r == head_of(n@),
{
    match signature(n) {
        Some(s) => s,
        None => ast::node_lines(n),
    }
}

/// What a Rust item of this kind is called, and whether its body is no part of
/// its signature.
pub open spec fn rust_label(kind: Seq<char>) -> Option<(Seq<char>, bool)> {
    if kind == "function_item"@ {
        Some(("public fn"@, true))
    } else if kind == "struct_item"@ {
        Some(("public struct"@, false))
    } else if kind == "enum_item"@ {
        Some(("public enum"@, false))
    } else if kind == "trait_item"@ {
        Some(("public trait"@, true))
    } else if kind == "type_item"@ {
        Some(("public type"@, false))
    } else if kind == "const_item"@ {
        Some(("public const"@, false))
    } else if kind == "static_item"@ {
        Some(("public static"@, false))
    } else {
        None
    }
}

fn rust_kind(kind: &str) -> (r: Option<(&'static str, bool)>)
    ensures
        match (r, rust_label(kind@)) {
            (Some((a, b)), Some((c, d))) => a@ == c && b == d,
            (None, None) => true,
            _ => false,
        },
{
    if text::str_same(kind, "function_item") {
        Some(("public fn", true))
    } else if text::str_same(kind, "struct_item") {
        Some(("public struct", false))
    } else if text::str_same(kind, "enum_item") {
        Some(("public enum", false))
    } else if text::str_same(kind, "trait_item") {
        Some(("public trait", true))
    } else if text::str_same(kind, "type_item") {
        Some(("public type", false))
    } else if text::str_same(kind, "const_item") {
        Some(("public const", false))
    } else if text::str_same(kind, "static_item") {
        Some(("public static", false))
    } else {
        None
    }
}

/// An item has a visibility, whatever it is.
pub open spec fn visible(n: NodeView) -> bool {
    exists|i: int|
        0 <= i < n.children.len() && (#[trigger] n.children[i]).kind == "visibility_modifier"@
}

fn has_pub_visibility(n: &SyntaxNode) -> (r: bool)
    ensures
        r == visible(n@),
{
    let ghost all = n@.children;
    let mut i: usize = 0;
    while i < n.children.len()
        invariant
            i <= n.children.len(),
            all == n@.children,
            all.len() == n.children@.len(),
            forall|k: int| 0 <= k < i ==> (#[trigger] all[k]).kind != "visibility_modifier"@,
        decreases n.children.len() - i,
    {
        assert(all[i as int] == n.children@[i as int]@);
        if text::str_same(n.children[i].kind, "visibility_modifier") {
            assert(n@.children[i as int].kind == "visibility_modifier"@);
            return true;
        }
        assert(all[i as int].kind != "visibility_modifier"@);
        i = i + 1;
    }
    false
}

/// The public declaration that a node of a Rust file is.
pub open spec fn rust_decl_of(n: NodeView) -> Option<DeclView> {
    match rust_label(n.kind) {
        Some((label, without_body)) => if visible(n) {
            Some(
                DeclView {
                    sig: if without_body {
                        head_of(n)
                    } else {
                        ast::lines_of_node(n)
                    },
                    label,
                },
            )
        } else {
            None
        },
        None => None,
    }
}

fn rust_decl(n: &SyntaxNode) -> (r: Option<PublicDecl>)
    ensures
        text::opt_view(r) == rust_decl_of(n@),
{
    match rust_kind(n.kind) {
        Some((label, without_body)) => if has_pub_visibility(n) {
            Some(
                PublicDecl {
                    sig: if without_body {
                        head(n)
                    } else {
                        ast::node_lines(n)
                    },
                    label,
                },
            )
        } else {
            None
        },
        None => None,
    }
}

/// The node stands in the module itself, with or without decorators.
pub open spec fn in_module(v: VisitView) -> bool {
    match v.parent {
        Some(p) => p == "module"@ || (p == "decorated_definition"@ && match v.grandparent {
            Some(g) => g == "module"@,
            None => false,
        }),
        None => false,
    }
}

fn is_module_level(v: &Visit<'_>) -> (r: bool)
    ensures
        r == in_module(v@),
{
    match v.parent {
        Some(p) => text::str_same(p, "module") || (text::str_same(p, "decorated_definition")
            && match v.grandparent {
            Some(g) => text::str_same(g, "module"),
            None => false,
        }),
        None => false,
    }
}

/// The text of the node in the field `name`.
pub open spec fn name_text(n: NodeView, source: Seq<char>) -> Option<Seq<char>> {
    match n.name {
        Some(i) => if i < n.children.len() {
            let c = n.children[i as int];
            ast::text_between(source, c.start_byte as int, c.end_byte as int)
        } else {
            None
        },
        None => None,
    }
}

fn name_of(n: &SyntaxNode, source: &str) -> (r: Option<String>)
    ensures
        text::opt_view(r) == name_text(n@, source@),
{
    match n.name {
        Some(i) => if i < n.children.len() {
            assert(n@.children[i as int] == n.children@[i as int]@);
            ast::slice_text(source, n.children[i].start_byte, n.children[i].end_byte)
        } else {
            None
        },
        None => None,
    }
}

/// The line that a declaration begins on, with its decorators.
pub open spec fn first_line(v: VisitView) -> u32 {
    match (v.parent, v.parent_line) {
        (Some(p), Some(line)) => if p == "decorated_definition"@ {
            line
        } else {
            v.node.start_line
        },
        _ => v.node.start_line,
    }
}

fn decorated_line(v: &Visit<'_>) -> (r: u32)
    ensures
        r == first_line(v@),
{
    match (v.parent, v.parent_line) {
        (Some(p), Some(line)) => if text::str_same(p, "decorated_definition") {
            line
        } else {
            v.node.start_line
        },
        _ => v.node.start_line,
    }
}

/// The public declaration that a node of a Python file is.
pub open spec fn python_decl_of(v: VisitView, source: Seq<char>) -> Option<DeclView> {
    let n = v.node;
    let is_def = n.kind == "function_definition"@;
    if (is_def || n.kind == "class_definition"@) && in_module(v) {
        match name_text(n, source) {
            Some(name) => if name.len() > 0 && name[0] == '_' {
                None
            } else {
                Some(
                    DeclView {
                        sig: (first_line(v), head_of(n).1),
                        label: if is_def {
                            "module-level def"@
                        } else {
                            "module-level class"@
                        },
                    },
                )
            },
            None => None,
        }
    } else {
        None
    }
}

fn python_decl(v: &Visit<'_>, source: &str) -> (r: Option<PublicDecl>)
    ensures
        text::opt_view(r) == python_decl_of(v@, source@),
{
    let is_def: bool = text::str_same(v.node.kind, "function_definition");
    if !is_def && !text::str_same(v.node.kind, "class_definition") {
        return None;
    }
    if !is_module_level(v) {
        return None;
    }
    let name: Vec<char> = match name_of(v.node, source) {
        Some(n) => text::chars(n.as_str()),
        None => return None,
    };
    if name.len() > 0 && name[0] == '_' {
        None
    } else {
        let sig: (u32, u32) = (decorated_line(v), head(v.node).1);
        Some(
            PublicDecl {
                sig,
                label: if is_def {
                    "module-level def"
                } else {
                    "module-level class"
                },
            },
        )
    }
}

/// The signature of the first of these nodes that has a body.
pub open spec fn first_signature(nodes: Seq<NodeView>) -> Option<(u32, u32)>
    decreases nodes.len(),
{
    if nodes.len() == 0 {
        None
    } else {
        match signature_of(nodes[0]) {
            Some(s) => Some(s),
            None => first_signature(nodes.drop_first()),
        }
    }
}

/// The public declaration that a node of a TypeScript or JavaScript file is.
pub open spec fn export_decl_of(n: NodeView) -> Option<DeclView> {
    if n.kind == "export_statement"@ {
        Some(
            DeclView {
                sig: (
                    n.start_line,
                    match first_signature(n.children) {
                        Some(s) => s.1,
                        None => n.end_line,
                    },
                ),
                label: "exported declaration"@,
            },
        )
    } else {
        None
    }
}

fn ts_js_decl(n: &SyntaxNode) -> (r: Option<PublicDecl>)
    ensures
        text::opt_view(r) == export_decl_of(n@),
{
    if !text::str_same(n.kind, "export_statement") {
        return None;
    }
    let ghost all = n@.children;
    let mut i: usize = 0;
    assert(all.skip(0) == all);
    while i < n.children.len()
        invariant
            i <= n.children.len(),
            all == n@.children,
            all.len() == n.children@.len(),
            n@.kind == "export_statement"@,
            first_signature(all) == first_signature(all.skip(i as int)),
        decreases n.children.len() - i,
    {
        assert(all.skip(i as int)[0] == n.children@[i as int]@);
        assert(all.skip(i as int).drop_first() == all.skip(i + 1));
        match signature(&n.children[i]) {
            Some(s) => {
                return Some(
                    PublicDecl { sig: (n.start_line, s.1), label: "exported declaration" },
                );
            },
            None => {},
        }
        i = i + 1;
    }
    Some(PublicDecl { sig: (n.start_line, n.end_line), label: "exported declaration" })
}

/// The public declaration that a node is.
pub open spec fn decl_of(language: Language, v: VisitView, source: Seq<char>) -> Option<DeclView> {
    match language {
        Language::Rust => rust_decl_of(v.node),
        Language::Python => python_decl_of(v, source),
        _ => export_decl_of(v.node),
    }
}

/// The public declarations among these nodes, in order.
pub open spec fn decls_in(language: Language, vs: Seq<VisitView>, source: Seq<char>) -> Seq<
    DeclView,
>
    decreases vs.len(),
{
    if vs.len() == 0 {
        Seq::empty()
    } else {
        match decl_of(language, vs.last(), source) {
            Some(d) => decls_in(language, vs.drop_last(), source).push(d),
            None => decls_in(language, vs.drop_last(), source),
        }
    }
}

/// The public declarations of a file, in order.
pub open spec fn decls_of(language: Language, tree: NodeView, source: Seq<char>) -> Seq<DeclView> {
    decls_in(language, ast::preorder(tree), source)
}

fn inspect(language: Language, v: &Visit<'_>, source: &str) -> (r: Option<PublicDecl>)
    ensures
        text::opt_view(r) == decl_of(language, v@, source@),
{
    match language {
        Language::Rust => rust_decl(v.node),
        Language::Python => python_decl(v, source),
        _ => ts_js_decl(v.node),
    }
}

/// The public declarations of a file, in order.
pub fn collect_public_decls(language: Language, tree: &SyntaxTree, source: &str) -> (r: Vec<
    PublicDecl,
>)
    ensures
        text::views(r@) == decls_of(language, tree@, source@),
{
    let all: Vec<Visit<'_>> = ast::walk(&tree.root);
    let ghost vs = ast::preorder(tree@);
    let mut out: Vec<PublicDecl> = Vec::new();
    let mut i: usize = 0;
    assert(text::views(out@) =~= decls_in(language, vs.take(0), source@));
    while i < all.len()
        invariant
            i <= all.len(),
            vs == text::views(all@),
            text::views(out@) == decls_in(language, vs.take(i as int), source@),
        decreases all.len() - i,
    {
        assert(vs.take(i + 1).drop_last() == vs.take(i as int));
        assert(vs.take(i + 1).last() == all@[i as int]@);
        match inspect(language, &all[i], source) {
            Some(d) => {
                let ghost before = out@;
                out.push(d);
                proof {
                    text::lemma_views_push(before, d);
                }
            },
            None => {},
        }
        i = i + 1;
    }
    assert(vs.take(i as int) == vs);
    out
}

/// One of the lines is in the signature.
pub open spec fn touches(d: DeclView, lines: Seq<u32>) -> bool {
    exists|i: int| 0 <= i < lines.len() && ast::inside(#[trigger] lines[i], d.sig)
}

/// The first declaration with one of the lines in its signature.
pub open spec fn first_touched(decls: Seq<DeclView>, lines: Seq<u32>) -> Option<DeclView>
    decreases decls.len(),
{
    if decls.len() == 0 {
        None
    } else if touches(decls[0], lines) {
        Some(decls[0])
    } else {
        first_touched(decls.drop_first(), lines)
    }
}

/// The first declaration with one of the lines in its signature.
pub fn find_touched<'a>(decls: &'a Vec<PublicDecl>, lines: &[u32]) -> (r: Option<&'a PublicDecl>)
    ensures
        text::opt_view(r) == first_touched(text::views(decls@), lines@),
{
    let ghost ds = text::views(decls@);
    let mut i: usize = 0;
    assert(ds.skip(0) == ds);
    while i < decls.len()
        invariant
            i <= decls.len(),
            ds == text::views(decls@),
            first_touched(ds, lines@) == first_touched(ds.skip(i as int), lines@),
        decreases decls.len() - i,
    {
        let ghost d = ds.skip(i as int)[0];
        assert(d == decls@[i as int]@);
        assert(ds.skip(i as int).drop_first() == ds.skip(i + 1));
        let sig: (u32, u32) = decls[i].sig;
        let mut k: usize = 0;
        let mut found: bool = false;
        while k < lines.len() && !found
            invariant
                k <= lines.len(),
                d.sig == sig,
                found ==> touches(d, lines@),
                !found ==> forall|j: int| 0 <= j < k ==> !ast::inside(#[trigger] lines@[j], sig),
            decreases lines.len() - k + (if found {
                0int
            } else {
                1int
            }),
        {
            if lines[k] >= sig.0 && lines[k] <= sig.1 {
                assert(ast::inside(lines@[k as int], d.sig));
                found = true;
            } else {
                k = k + 1;
            }
        }
        if found {
            return Some(&decls[i]);
        }
        i = i + 1;
    }
    None
}

/// The finding on a hunk: a declaration of the new file with an added line in
/// its signature, or else one of the old file with a removed line in it.
pub open spec fn api_verdict(file: FileDiffView, hunk: HunkView) -> Option<FindingView> {
    match (file.language, file.new_content) {
        (Some(l), Some(new)) => match ast::syntax_of(l, new) {
            Some(t) => match first_touched(decls_of(l, t, new), hunk.added_lines) {
                Some(d) => Some(
                    classifiers::finding_of(
                        Level::Review,
                        Category::PublicApiChange,
                        classifiers::phrase(
                            d.label,
                            " signature changed at lines "@,
                            d.sig.0,
                            d.sig.1,
                        ),
                        "public_api"@,
                        classifiers::focus(d.sig.0, d.sig.1, Side::New),
                    ),
                ),
                None => removed_verdict(l, file.old_content, hunk.removed_lines),
            },
            None => None,
        },
        _ => None,
    }
}

/// The finding on removed lines.
pub open spec fn removed_verdict(
    language: Language,
    old_content: Option<Seq<char>>,
    removed: Seq<u32>,
) -> Option<FindingView> {
    match old_content {
        Some(old) => match ast::syntax_of(language, old) {
            Some(t) => match first_touched(decls_of(language, t, old), removed) {
                Some(d) => Some(
                    classifiers::finding_of(
                        Level::Review,
                        Category::PublicApiChange,
                        classifiers::phrase(
                            d.label,
                            " removed at old lines "@,
                            d.sig.0,
                            d.sig.1,
                        ),
                        "public_api"@,
                        classifiers::focus(d.sig.0, d.sig.1, Side::Old),
                    ),
                ),
                None => None,
            },
            None => None,
        },
        None => None,
    }
}

proof fn lemma_untouched(decls: Seq<DeclView>, lines: Seq<u32>)
    requires
        lines.len() == 0,
    ensures
        first_touched(decls, lines) is None,
    decreases decls.len(),
{
    if decls.len() > 0 {
        lemma_untouched(decls.drop_first(), lines);
    }
}

proof fn lemma_nothing_removed(
    language: Language,
    old_content: Option<Seq<char>>,
    removed: Seq<u32>,
)
    requires
        removed.len() == 0,
    ensures
        removed_verdict(language, old_content, removed) is None,
{
    match old_content {
        Some(old) => match ast::syntax_of(language, old) {
            Some(t) => lemma_untouched(decls_of(language, t, old), removed),
            None => {},
        },
        None => {},
    }
}

proof fn lemma_first_touched(decls: Seq<DeclView>, lines: Seq<u32>)
    ensures
        first_touched(decls, lines) matches Some(d) ==> classifiers::spans_a_line(
            d.sig.0,
            d.sig.1,
            lines,
        ),
    decreases decls.len(),
{
    if decls.len() > 0 {
        if touches(decls[0], lines) {
            let i = choose|i: int|
                0 <= i < lines.len() && ast::inside(#[trigger] lines[i], decls[0].sig);
            assert(decls[0].sig.0 <= lines[i] <= decls[0].sig.1);
        } else {
            lemma_first_touched(decls.drop_first(), lines);
        }
    }
}

proof fn lemma_removed_verdict(
    language: Language,
    old_content: Option<Seq<char>>,
    removed: Seq<u32>,
)
    ensures
        removed_verdict(language, old_content, removed) matches Some(f) ==> (
        f.focus_lines matches Some(l) && l.side == Side::Old && classifiers::spans_a_line(
            l.start,
            l.end,
            removed,
        )),
{
    match old_content {
        Some(old) => match ast::syntax_of(language, old) {
            Some(t) => lemma_first_touched(decls_of(language, t, old), removed),
            None => {},
        },
        None => {},
    }
}

/// What the rule finds is a signature with a line that changes on that side: a
/// change in a body alone is no finding.
pub proof fn law_signature_has_a_change(file: FileDiffView, hunk: HunkView)
    ensures
        api_verdict(file, hunk) matches Some(f) ==> (f.focus_lines matches Some(l)
            && classifiers::spans_a_line(
            l.start,
            l.end,
            classifiers::changed_lines(hunk, l.side),
        )),
{
    match (file.language, file.new_content) {
        (Some(l), Some(new)) => match ast::syntax_of(l, new) {
            Some(t) => {
                lemma_first_touched(decls_of(l, t, new), hunk.added_lines);
                lemma_removed_verdict(l, file.old_content, hunk.removed_lines);
            },
            None => {},
        },
        _ => {},
    }
}

/// Where no line changes the rule makes no finding.
pub proof fn law_no_change_no_finding(file: FileDiffView, hunk: HunkView)
    requires
        hunk.added_lines.len() == 0,
        hunk.removed_lines.len() == 0,
    ensures
        api_verdict(file, hunk) is None,
{
    match (file.language, file.new_content) {
        (Some(l), Some(new)) => match ast::syntax_of(l, new) {
            Some(t) => {
                lemma_untouched(decls_of(l, t, new), hunk.added_lines);
                lemma_nothing_removed(l, file.old_content, hunk.removed_lines);
            },
            None => {},
        },
        _ => {},
    }
}

impl PublicApi {
    pub fn new() -> (r: Self)
        ensures
            r == PublicApi,
    {
        PublicApi
    }

    pub fn classify(&self, file: &mut FileDiff, hunk: &Hunk) -> (r: Option<Classification>)
        ensures
            text::opt_view(r) == api_verdict(old(file)@, hunk@),
            final(file)@ == old(file)@,
    {
        if hunk.added_lines.len() == 0 && hunk.removed_lines.len() == 0 {
            proof {
                law_no_change_no_finding(file@, hunk@);
            }
            return None;
        }
        let (language, new): (Language, &String) = match (&file.language, &file.new_content) {
            (Some(l), Some(c)) => (*l, c),
            _ => return None,
        };
        let new_tree: SyntaxTree = match ast::parse(language, new.as_str()) {
            Some(t) => t,
            None => return None,
        };
        let decls: Vec<PublicDecl> = collect_public_decls(language, &new_tree, new.as_str());
        match find_touched(&decls, &hunk.added_lines) {
            Some(d) => {
                return Some(
                    classifiers::finding(
                        Level::Review,
                        Category::PublicApiChange,
                        classifiers::say(
                            d.label,
                            " signature changed at lines ",
                            d.sig.0,
                            d.sig.1,
                        ),
                        "public_api",
                        Some(FocusLines { start: d.sig.0, end: d.sig.1, side: Side::New }),
                    ),
                );
            },
            None => {},
        }
        if hunk.removed_lines.len() == 0 {
            proof {
                lemma_nothing_removed(language, file@.old_content, hunk.removed_lines@);
            }
            return None;
        }
        let old: &String = match &file.old_content {
            Some(c) => c,
            None => return None,
        };
        let old_tree: SyntaxTree = match ast::parse(language, old.as_str()) {
            Some(t) => t,
            None => return None,
        };
        let old_decls: Vec<PublicDecl> = collect_public_decls(language, &old_tree, old.as_str());
        match find_touched(&old_decls, &hunk.removed_lines) {
            Some(d) => Some(
                classifiers::finding(
                    Level::Review,
                    Category::PublicApiChange,
                    classifiers::say(d.label, " removed at old lines ", d.sig.0, d.sig.1),
                    "public_api",
                    Some(FocusLines { start: d.sig.0, end: d.sig.1, side: Side::Old }),
                ),
            ),
            None => None,
        }
    }
}

impl Default for PublicApi {
    fn default() -> (r: Self)
        ensures
            r == PublicApi,
    {
        PublicApi
    }
}

impl Classifier for PublicApi {
    open spec fn label(&self) -> Seq<char> {
        "public_api"@
    }

    open spec fn place(&self) -> int {
        120
    }

    open spec fn verdict(&self, file: FileDiffView, hunk: HunkView) -> Seq<FindingView> {
        classifiers::listed(api_verdict(file, hunk))
    }

    open spec fn effect(&self, file: FileDiffView, hunk: HunkView) -> FileDiffView {
        file
    }

    fn name(&self) -> (r: &'static str) {
        "public_api"
    }

    fn priority(&self) -> (r: i32) {
        120
    }

    fn classify(&self, file: &mut FileDiff, hunk: &Hunk) -> (r: Vec<Finding>) {
        classifiers::list(PublicApi::classify(self, file, hunk))
    }
}

// --- no public signature is missed ---------------------------------------

/// What the rule says of a signature that changes or goes.
pub open spec fn reports(f: FindingView, d: DeclView, what: Seq<char>, side: Side) -> bool {
    &&& f.level == Level::Review
    &&& f.category == Category::PublicApiChange
    &&& f.focus_lines == Some(FocusLines { start: d.sig.0, end: d.sig.1, side })
    &&& f.rationale == classifiers::phrase(d.label, what, d.sig.0, d.sig.1)
}

/// A line is in the signature of one of the declarations.
pub open spec fn in_a_signature(line: u32, decls: Seq<DeclView>) -> bool {
    exists|k: int| 0 <= k < decls.len() && (#[trigger] decls[k]).sig.0 <= line <= decls[k].sig.1
}

proof fn lemma_touched(decls: Seq<DeclView>, lines: Seq<u32>)
    ensures
        match first_touched(decls, lines) {
            Some(d) => decls.contains(d) && touches(d, lines),
            None => forall|i: int|
                0 <= i < lines.len() ==> !in_a_signature(#[trigger] lines[i], decls),
        },
    decreases decls.len(),
{
    if decls.len() > 0 {
        let rest = decls.drop_first();
        if touches(decls[0], lines) {
            assert(decls.contains(decls[0]));
        } else {
            lemma_touched(rest, lines);
            match first_touched(decls, lines) {
                Some(d) => {
                    let k = choose|k: int| 0 <= k < rest.len() && rest[k] == d;
                    assert(decls[k + 1] == d);
                },
                None => {
                    assert forall|i: int| 0 <= i < lines.len() implies !in_a_signature(
                        #[trigger] lines[i],
                        decls,
                    ) by {
                        if in_a_signature(lines[i], decls) {
                            let k = choose|k: int|
                                0 <= k < decls.len() && (#[trigger] decls[k]).sig.0 <= lines[i]
                                    <= decls[k].sig.1;
                            if k == 0 {
                                assert(ast::inside(lines[i], decls[0].sig));
                            } else {
                                assert(rest[k - 1] == decls[k]);
                                assert(in_a_signature(lines[i], rest));
                            }
                        }
                    }
                },
            }
        }
    }
}

/// Where an added line is in the signature of a public declaration of the new file
/// the rule makes a finding on such a declaration.
pub proof fn law_changed_signatures_are_found(
    file: FileDiffView,
    hunk: HunkView,
    l: Language,
    new: Seq<char>,
    tree: NodeView,
    i: int,
)
    requires
        file.language == Some(l),
        file.new_content == Some(new),
        ast::syntax_of(l, new) == Some(tree),
        0 <= i < hunk.added_lines.len(),
        in_a_signature(hunk.added_lines[i], decls_of(l, tree, new)),
    ensures
        api_verdict(file, hunk) matches Some(f) && exists|k: int|
            0 <= k < decls_of(l, tree, new).len() && touches(
                #[trigger] decls_of(l, tree, new)[k],
                hunk.added_lines,
            ) && reports(f, decls_of(l, tree, new)[k], " signature changed at lines "@, Side::New),
{
    let decls = decls_of(l, tree, new);
    lemma_touched(decls, hunk.added_lines);
    let d = first_touched(decls, hunk.added_lines).unwrap();
    let k = choose|k: int| 0 <= k < decls.len() && decls[k] == d;
    assert(reports(
        api_verdict(file, hunk).unwrap(),
        decls[k],
        " signature changed at lines "@,
        Side::New,
    ));
}

/// Where a removed line is in the signature of a public declaration of the old
/// file the rule makes a finding. Where no added line is in a public signature of
/// the new file, it is on such a declaration of the old one.
pub proof fn law_removed_signatures_are_found(
    file: FileDiffView,
    hunk: HunkView,
    l: Language,
    old: Seq<char>,
    old_tree: NodeView,
    new: Seq<char>,
    new_tree: NodeView,
    i: int,
)
    requires
        file.language == Some(l),
        file.old_content == Some(old),
        file.new_content == Some(new),
        ast::syntax_of(l, old) == Some(old_tree),
        ast::syntax_of(l, new) == Some(new_tree),
        0 <= i < hunk.removed_lines.len(),
        in_a_signature(hunk.removed_lines[i], decls_of(l, old_tree, old)),
    ensures
        api_verdict(file, hunk) matches Some(f) && f.level == Level::Review && f.category
            == Category::PublicApiChange && ((forall|j: int|
            0 <= j < hunk.added_lines.len() ==> !in_a_signature(
                #[trigger] hunk.added_lines[j],
                decls_of(l, new_tree, new),
            )) ==> exists|k: int|
            0 <= k < decls_of(l, old_tree, old).len() && touches(
                #[trigger] decls_of(l, old_tree, old)[k],
                hunk.removed_lines,
            ) && reports(
                f,
                decls_of(l, old_tree, old)[k],
                " removed at old lines "@,
                Side::Old,
            )),
{
    let decls = decls_of(l, old_tree, old);
    let news = decls_of(l, new_tree, new);
    lemma_touched(news, hunk.added_lines);
    lemma_touched(decls, hunk.removed_lines);
    let d = first_touched(decls, hunk.removed_lines).unwrap();
    let k = choose|k: int| 0 <= k < decls.len() && decls[k] == d;
    if forall|j: int|
        0 <= j < hunk.added_lines.len() ==> !in_a_signature(#[trigger] hunk.added_lines[j], news) {
        match first_touched(news, hunk.added_lines) {
            Some(e) => {
                let j = choose|j: int|
                    0 <= j < hunk.added_lines.len() && ast::inside(
                        #[trigger] hunk.added_lines[j],
                        e.sig,
                    );
                let m = choose|m: int| 0 <= m < news.len() && news[m] == e;
                assert(news[m].sig.0 <= hunk.added_lines[j] <= news[m].sig.1);
                assert(in_a_signature(hunk.added_lines[j], news));
            },
            None => {},
        }
        assert(reports(
            api_verdict(file, hunk).unwrap(),
            decls[k],
            " removed at old lines "@,
            Side::Old,
        ));
    }
}

// --- what is a public declaration ----------------------------------------

/// The lines of a node before its body end on this line. The line that the body
/// begins on counts where what stands before the body ends there too.
pub open spec fn head_ends(n: NodeView, end: u32) -> bool {
    if n.body is Some && n.body.unwrap() < n.children.len() {
        let i = n.body.unwrap() as int;
        let row = n.children[i].start_line;
        let shared = i > 0 && n.children[i - 1].end_line == row;
        &&& n.start_line <= end
        &&& row <= n.start_line ==> end == n.start_line
        &&& row > n.start_line && shared ==> end == row
        &&& row > n.start_line && !shared ==> end + 1 == row
    } else {
        end == n.end_line
    }
}

/// The node has a body.
pub open spec fn has_body(n: NodeView) -> bool {
    n.body is Some && n.body.unwrap() < n.children.len()
}

/// The node declares something that others can use, and these are the lines of
/// its signature.
pub open spec fn declares(
    language: Language,
    v: VisitView,
    source: Seq<char>,
    what: Seq<char>,
    start: u32,
    end: u32,
) -> bool {
    let n = v.node;
    match language {
        Language::Rust => {
            &&& exists|i: int|
                0 <= i < n.children.len() && (#[trigger] n.children[i]).kind
                    == "visibility_modifier"@
            &&& start == n.start_line
            &&& {
                ||| n.kind == "function_item"@ && what == "public fn"@ && head_ends(n, end)
                ||| n.kind == "trait_item"@ && what == "public trait"@ && head_ends(n, end)
                ||| n.kind == "struct_item"@ && what == "public struct"@ && end == n.end_line
                ||| n.kind == "enum_item"@ && what == "public enum"@ && end == n.end_line
                ||| n.kind == "type_item"@ && what == "public type"@ && end == n.end_line
                ||| n.kind == "const_item"@ && what == "public const"@ && end == n.end_line
                ||| n.kind == "static_item"@ && what == "public static"@ && end == n.end_line
            }
        },
        Language::Python => {
            &&& {
                ||| n.kind == "function_definition"@ && what == "module-level def"@
                ||| n.kind == "class_definition"@ && what == "module-level class"@
            }
            &&& {
                ||| v.parent == Some("module"@)
                ||| v.parent == Some("decorated_definition"@) && v.grandparent == Some("module"@)
            }
            &&& n.name matches Some(i)
            &&& i < n.children.len()
            &&& ast::text_between(
                source,
                n.children[i as int].start_byte as int,
                n.children[i as int].end_byte as int,
            ) matches Some(name)
            &&& !(name.len() > 0 && name[0] == '_')
            &&& start == if v.parent == Some("decorated_definition"@) && v.parent_line is Some {
                v.parent_line.unwrap()
            } else {
                n.start_line
            }
            &&& head_ends(n, end)
        },
        Language::TypeScript | Language::JavaScript => {
            &&& n.kind == "export_statement"@
            &&& what == "exported declaration"@
            &&& start == n.start_line
            &&& {
                ||| end == n.end_line && forall|i: int|
                    0 <= i < n.children.len() ==> !has_body(#[trigger] n.children[i])
                ||| exists|i: int|
                    0 <= i < n.children.len() && has_body(#[trigger] n.children[i]) && head_ends(
                        n.children[i],
                        end,
                    ) && forall|j: int| 0 <= j < i ==> !has_body(#[trigger] n.children[j])
            }
        },
    }
}

/// The node declares something, and one of the lines is in its signature.
pub open spec fn declares_on(
    language: Language,
    v: VisitView,
    source: Seq<char>,
    what: Seq<char>,
    start: u32,
    end: u32,
    lines: Seq<u32>,
) -> bool {
    &&& declares(language, v, source, what, start, end)
    &&& exists|i: int| 0 <= i < lines.len() && start <= #[trigger] lines[i] <= end
}

proof fn lemma_head(n: NodeView, end: u32)
    ensures
        head_ends(n, end) <==> end == head_of(n).1,
        head_of(n).0 == n.start_line,
        has_body(n) <==> signature_of(n) is Some,
        signature_of(n) matches Some(s) ==> s == head_of(n),
{
}

proof fn lemma_first_signature(nodes: Seq<NodeView>)
    ensures
        match first_signature(nodes) {
            Some(s) => exists|i: int|
                0 <= i < nodes.len() && has_body(#[trigger] nodes[i]) && s == head_of(nodes[i])
                    && forall|j: int| 0 <= j < i ==> !has_body(#[trigger] nodes[j]),
            None => forall|i: int| 0 <= i < nodes.len() ==> !has_body(#[trigger] nodes[i]),
        },
    decreases nodes.len(),
{
    if nodes.len() > 0 {
        let rest = nodes.drop_first();
        lemma_first_signature(rest);
        lemma_head(nodes[0], 0);
        if !has_body(nodes[0]) {
            match first_signature(nodes) {
                Some(s) => {
                    let i = choose|i: int|
                        0 <= i < rest.len() && has_body(#[trigger] rest[i]) && s == head_of(rest[i])
                            && forall|j: int| 0 <= j < i ==> !has_body(#[trigger] rest[j]);
                    assert(nodes[i + 1] == rest[i]);
                    assert forall|j: int| 0 <= j < i + 1 implies !has_body(#[trigger] nodes[j]) by {
                        if j > 0 {
                            assert(nodes[j] == rest[j - 1]);
                        }
                    }
                },
                None => {
                    assert forall|i: int| 0 <= i < nodes.len() implies !has_body(
                        #[trigger] nodes[i],
                    ) by {
                        if i > 0 {
                            assert(nodes[i] == rest[i - 1]);
                        }
                    }
                },
            }
        }
    }
}

proof fn lemma_kinds()
    ensures
        "function_item"@ != "struct_item"@,
        "function_item"@ != "enum_item"@,
        "function_item"@ != "trait_item"@,
        "function_item"@ != "type_item"@,
        "function_item"@ != "const_item"@,
        "function_item"@ != "static_item"@,
        "struct_item"@ != "enum_item"@,
        "struct_item"@ != "trait_item"@,
        "struct_item"@ != "type_item"@,
        "struct_item"@ != "const_item"@,
        "struct_item"@ != "static_item"@,
        "enum_item"@ != "trait_item"@,
        "enum_item"@ != "type_item"@,
        "enum_item"@ != "const_item"@,
        "enum_item"@ != "static_item"@,
        "trait_item"@ != "type_item"@,
        "trait_item"@ != "const_item"@,
        "trait_item"@ != "static_item"@,
        "type_item"@ != "const_item"@,
        "type_item"@ != "static_item"@,
        "const_item"@ != "static_item"@,
        "function_definition"@ != "class_definition"@,
        "module"@ != "decorated_definition"@,
{
    reveal_strlit("function_item");
    reveal_strlit("struct_item");
    reveal_strlit("enum_item");
    reveal_strlit("trait_item");
    reveal_strlit("type_item");
    reveal_strlit("const_item");
    reveal_strlit("static_item");
    reveal_strlit("function_definition");
    reveal_strlit("class_definition");
    reveal_strlit("module");
    reveal_strlit("decorated_definition");
    assert("function_item"@.len() == 13);
    assert("struct_item"@.len() == 11 && "struct_item"@[2] == 'r');
    assert("static_item"@.len() == 11 && "static_item"@[2] == 'a');
    assert("enum_item"@.len() == 9 && "enum_item"@[0] == 'e');
    assert("type_item"@.len() == 9 && "type_item"@[0] == 't');
    assert("trait_item"@.len() == 10 && "trait_item"@[0] == 't');
    assert("const_item"@.len() == 10 && "const_item"@[0] == 'c');
    assert("function_definition"@.len() == 19 && "class_definition"@.len() == 16);
    assert("module"@.len() == 6 && "decorated_definition"@.len() == 20);
}

proof fn lemma_declares(
    language: Language,
    v: VisitView,
    source: Seq<char>,
    what: Seq<char>,
    start: u32,
    end: u32,
)
    ensures
        declares(language, v, source, what, start, end) <==> decl_of(language, v, source) == Some(
            DeclView { sig: (start, end), label: what },
        ),
{
    let n = v.node;
    lemma_kinds();
    lemma_head(n, end);
    lemma_first_signature(n.children);
    if language == Language::TypeScript || language == Language::JavaScript {
        match first_signature(n.children) {
            Some(s) => {
                let i = choose|i: int|
                    0 <= i < n.children.len() && has_body(#[trigger] n.children[i]) && s == head_of(
                        n.children[i],
                    ) && forall|j: int| 0 <= j < i ==> !has_body(#[trigger] n.children[j]);
                lemma_head(n.children[i], end);
                assert forall|k: int|
                    0 <= k < n.children.len() && has_body(#[trigger] n.children[k]) && (forall|
                        j: int,
                    |
                        0 <= j < k ==> !has_body(#[trigger] n.children[j])) implies k == i by {
                    assert(has_body(n.children[i]));
                    if i < k {
                        assert(!has_body(n.children[i]));
                    }
                    if k < i {
                        assert(!has_body(n.children[k]));
                    }
                }
            },
            None => {},
        }
    }
}

proof fn lemma_decls_add(language: Language, a: Seq<VisitView>, b: Seq<VisitView>, source: Seq<char>)
    ensures
        decls_in(language, a + b, source) == decls_in(language, a, source) + decls_in(
            language,
            b,
            source,
        ),
    decreases b.len(),
{
    if b.len() == 0 {
        assert(a + b =~= a);
        assert(decls_in(language, b, source) =~= Seq::<DeclView>::empty());
        assert(decls_in(language, a, source) =~= decls_in(language, a, source) + decls_in(
            language,
            b,
            source,
        ));
    } else {
        assert((a + b).drop_last() =~= a + b.drop_last());
        assert((a + b).last() == b.last());
        lemma_decls_add(language, a, b.drop_last(), source);
        assert(decls_in(language, a + b, source) =~= decls_in(language, a, source) + decls_in(
            language,
            b,
            source,
        ));
    }
}

proof fn lemma_touched_add(a: Seq<DeclView>, b: Seq<DeclView>, lines: Seq<u32>)
    requires
        first_touched(a, lines) is None,
    ensures
        first_touched(a + b, lines) == first_touched(b, lines),
    decreases a.len(),
{
    if a.len() == 0 {
        assert(a + b =~= b);
    } else {
        assert((a + b)[0] == a[0]);
        assert((a + b).drop_first() =~= a.drop_first() + b);
        lemma_touched_add(a.drop_first(), b, lines);
    }
}

/// None of the nodes declares something with one of the lines in its signature.
pub open spec fn none_declares(
    language: Language,
    vs: Seq<VisitView>,
    source: Seq<char>,
    lines: Seq<u32>,
) -> bool {
    forall|j: int, what: Seq<char>, start: u32, end: u32|
        0 <= j < vs.len() ==> !#[trigger] declares_on(
            language,
            vs[j],
            source,
            what,
            start,
            end,
            lines,
        )
}

proof fn lemma_none_declares(
    language: Language,
    vs: Seq<VisitView>,
    source: Seq<char>,
    lines: Seq<u32>,
)
    requires
        none_declares(language, vs, source, lines),
    ensures
        first_touched(decls_in(language, vs, source), lines) is None,
    decreases vs.len(),
{
    if vs.len() > 0 {
        let rest = vs.drop_last();
        assert forall|j: int, what: Seq<char>, start: u32, end: u32|
            0 <= j < rest.len() implies !#[trigger] declares_on(
            language,
            rest[j],
            source,
            what,
            start,
            end,
            lines,
        ) by {
            assert(!declares_on(language, vs[j], source, what, start, end, lines));
        }
        lemma_none_declares(language, rest, source, lines);
        match decl_of(language, vs.last(), source) {
            Some(d) => {
                lemma_declares(language, vs.last(), source, d.label, d.sig.0, d.sig.1);
                assert(!declares_on(
                    language,
                    vs[vs.len() - 1],
                    source,
                    d.label,
                    d.sig.0,
                    d.sig.1,
                    lines,
                ));
                assert forall|i: int| 0 <= i < lines.len() implies !ast::inside(
                    #[trigger] lines[i],
                    d.sig,
                ) by {}
                let one = seq![d];
                assert(one.drop_first() =~= Seq::<DeclView>::empty());
                assert(first_touched(one.drop_first(), lines) is None);
                assert(first_touched(one, lines) is None);
                lemma_touched_add(decls_in(language, rest, source), one, lines);
                assert(decls_in(language, vs, source) =~= decls_in(language, rest, source) + one);
            },
            None => {},
        }
    }
}

proof fn lemma_first_declared(
    language: Language,
    vs: Seq<VisitView>,
    source: Seq<char>,
    lines: Seq<u32>,
    k: int,
    what: Seq<char>,
    start: u32,
    end: u32,
)
    requires
        0 <= k < vs.len(),
        declares_on(language, vs[k], source, what, start, end, lines),
        none_declares(language, vs.take(k), source, lines),
    ensures
        first_touched(decls_in(language, vs, source), lines) == Some(
            DeclView { sig: (start, end), label: what },
        ),
{
    let d = DeclView { sig: (start, end), label: what };
    lemma_declares(language, vs[k], source, what, start, end);
    lemma_none_declares(language, vs.take(k), source, lines);
    let before = vs.take(k);
    let one = seq![vs[k]];
    let after = vs.skip(k + 1);
    assert(vs =~= before + (one + after));
    lemma_decls_add(language, before, one + after, source);
    lemma_decls_add(language, one, after, source);
    assert(one.drop_last() =~= Seq::<VisitView>::empty());
    assert(decls_in(language, one.drop_last(), source) =~= Seq::<DeclView>::empty());
    assert(decls_in(language, one, source) =~= seq![d]);
    let rest = decls_in(language, one + after, source);
    assert(rest[0] == d);
    let i = choose|i: int| 0 <= i < lines.len() && start <= #[trigger] lines[i] <= end;
    assert(ast::inside(lines[i], d.sig));
    assert(touches(d, lines));
    lemma_touched_add(decls_in(language, before, source), rest, lines);
}

/// Where an added line is in the signature of something that the new file
/// declares for others, the first such declaration is to be reviewed, by its name
/// and over its signature.
pub proof fn law_first_changed_signature(
    file: FileDiffView,
    hunk: HunkView,
    language: Language,
    content: Seq<char>,
    tree: NodeView,
    k: int,
    what: Seq<char>,
    start: u32,
    end: u32,
)
    requires
        file.language == Some(language),
        file.new_content == Some(content),
        ast::syntax_of(language, content) == Some(tree),
        0 <= k < ast::preorder(tree).len(),
        declares_on(
            language,
            ast::preorder(tree)[k],
            content,
            what,
            start,
            end,
            hunk.added_lines,
        ),
        none_declares(language, ast::preorder(tree).take(k), content, hunk.added_lines),
    ensures
        api_verdict(file, hunk) matches Some(f) && reports(
            f,
            (DeclView { sig: (start, end), label: what }),
            " signature changed at lines "@,
            Side::New,
        ),
{
    lemma_first_declared(
        language,
        ast::preorder(tree),
        content,
        hunk.added_lines,
        k,
        what,
        start,
        end,
    );
}

/// Where no added line is in such a signature, but a removed line was in one of
/// the old file, the first such declaration of the old file is to be reviewed.
pub proof fn law_first_removed_signature(
    file: FileDiffView,
    hunk: HunkView,
    language: Language,
    new: Seq<char>,
    new_tree: NodeView,
    old: Seq<char>,
    old_tree: NodeView,
    k: int,
    what: Seq<char>,
    start: u32,
    end: u32,
)
    requires
        file.language == Some(language),
        file.new_content == Some(new),
        ast::syntax_of(language, new) == Some(new_tree),
        none_declares(language, ast::preorder(new_tree), new, hunk.added_lines),
        file.old_content == Some(old),
        ast::syntax_of(language, old) == Some(old_tree),
        0 <= k < ast::preorder(old_tree).len(),
        declares_on(
            language,
            ast::preorder(old_tree)[k],
            old,
            what,
            start,
            end,
            hunk.removed_lines,
        ),
        none_declares(language, ast::preorder(old_tree).take(k), old, hunk.removed_lines),
    ensures
        api_verdict(file, hunk) matches Some(f) && reports(
            f,
            (DeclView { sig: (start, end), label: what }),
            " removed at old lines "@,
            Side::Old,
        ),
{
    lemma_none_declares(language, ast::preorder(new_tree), new, hunk.added_lines);
    lemma_first_declared(
        language,
        ast::preorder(old_tree),
        old,
        hunk.removed_lines,
        k,
        what,
        start,
        end,
    );
}

/// Where no changed line is in the signature of something that its side declares
/// for others, the rule says nothing.
pub proof fn law_private_changes(
    file: FileDiffView,
    hunk: HunkView,
    language: Language,
    new: Seq<char>,
    new_tree: NodeView,
    old: Seq<char>,
    old_tree: NodeView,
)
    requires
        file.language == Some(language),
        file.new_content == Some(new),
        ast::syntax_of(language, new) == Some(new_tree),
        none_declares(language, ast::preorder(new_tree), new, hunk.added_lines),
        file.old_content == Some(old),
        ast::syntax_of(language, old) == Some(old_tree),
        none_declares(language, ast::preorder(old_tree), old, hunk.removed_lines),
    ensures
        api_verdict(file, hunk) is None,
{
    lemma_none_declares(language, ast::preorder(new_tree), new, hunk.added_lines);
    lemma_none_declares(language, ast::preorder(old_tree), old, hunk.removed_lines);
}

} // verus!
