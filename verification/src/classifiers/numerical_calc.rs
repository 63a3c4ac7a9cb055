//! Changes to numerical calculations: a small change of text can hide a large
//! change of meaning.
//!
//! An arithmetic expression with two operators or more, or a line that calls
//! into a namespace for mathematics.
use vstd::prelude::*;

use crate::ast;
use crate::ast::{NodeView, SyntaxNode, SyntaxTree, Visit, VisitView};
use crate::classifiers;
use crate::classify::{
    Category, Classification, Classifier, Finding, FindingView, FocusLines, Level, Side,
};
use crate::diff::{FileDiff, FileDiffView, Hunk, HunkView};
use crate::lang::Language;
use crate::text;

verus! {

/// Asks for review where a numerical calculation changes.
pub struct NumericalCalc;

/// What a binary expression is called in a language.
pub open spec fn binary_kind(language: Language) -> Seq<char> {
    match language {
        Language::Python => "binary_operator"@,
        _ => "binary_expression"@,
    }
}

/// An operator of arithmetic.
pub open spec fn is_operator(kind: Seq<char>) -> bool {
    kind == "+"@ || kind == "-"@ || kind == "*"@ || kind == "/"@ || kind == "%"@ || kind == "**"@
        || kind == "<<"@ || kind == ">>"@ || kind == "^"@ || kind == "&"@ || kind == "|"@
}

fn is_arithmetic_op_kind(kind: &str) -> (r: bool)
    ensures
        r == is_operator(kind@),
{
    text::str_same(kind, "+") || text::str_same(kind, "-") || text::str_same(kind, "*")
        || text::str_same(kind, "/") || text::str_same(kind, "%") || text::str_same(kind, "**")
        || text::str_same(kind, "<<") || text::str_same(kind, ">>") || text::str_same(kind, "^")
        || text::str_same(kind, "&") || text::str_same(kind, "|")
}

/// The node is an expression with an operator of arithmetic.
pub open spec fn is_arithmetic(language: Language, n: NodeView) -> bool {
    &&& n.kind == binary_kind(language)
    &&& exists|i: int|
        0 <= i < n.children.len() && !(#[trigger] n.children[i]).named && is_operator(
            n.children[i].kind,
        )
}

fn is_arithmetic_binary(language: Language, n: &SyntaxNode) -> (r: bool)
    ensures
        r == is_arithmetic(language, n@),
{
    let kind: &str = match language {
        Language::Python => "binary_operator",
        _ => "binary_expression",
    };
    if !text::str_same(n.kind, kind) {
        return false;
    }
    let ghost all = n@.children;
    let mut i: usize = 0;
    while i < n.children.len()
        invariant
            i <= n.children.len(),
            all == n@.children,
            all.len() == n.children@.len(),
            n@.kind == binary_kind(language),
            forall|k: int|
                0 <= k < i ==> (#[trigger] all[k]).named || !is_operator(all[k].kind),
        decreases n.children.len() - i,
    {
        assert(all[i as int] == n.children@[i as int]@);
        if !n.children[i].named && is_arithmetic_op_kind(n.children[i].kind) {
            assert(!n@.children[i as int].named);
            return true;
        }
        assert(all[i as int].named || !is_operator(all[i as int].kind));
        i = i + 1;
    }
    false
}

/// How many of these nodes are expressions with an operator of arithmetic.
pub open spec fn arithmetic_in(language: Language, vs: Seq<VisitView>) -> nat
    decreases vs.len(),
{
    if vs.len() == 0 {
        0
    } else {
        arithmetic_in(language, vs.drop_last()) + if is_arithmetic(language, vs.last().node) {
            1nat
        } else {
            0nat
        }
    }
}

/// How many operators of arithmetic an expression has.
pub open spec fn operators_of(language: Language, n: NodeView) -> nat {
    arithmetic_in(language, ast::preorder(n))
}

fn arithmetic_op_count(language: Language, n: &SyntaxNode) -> (r: usize)
    ensures
        r == operators_of(language, n@),
{
    let all: Vec<Visit<'_>> = ast::walk(n);
    let ghost vs = ast::preorder(n@);
    let mut count: usize = 0;
    let mut i: usize = 0;
    while i < all.len()
        invariant
            i <= all.len(),
            count <= i,
            vs == text::views(all@),
            count == arithmetic_in(language, vs.take(i as int)),
        decreases all.len() - i,
    {
        assert(vs.take(i + 1).drop_last() == vs.take(i as int));
        assert(vs.take(i + 1).last() == all@[i as int]@);
        if is_arithmetic_binary(language, all[i].node) {
            count = count + 1;
        }
        i = i + 1;
    }
    assert(vs.take(i as int) == vs);
    count
}

/// What was found, and its lines.
#[verifier::ext_equal]
pub struct HitView {
    pub start: u32,
    pub end: u32,
    pub what: Seq<char>,
}

/// What was found, and its lines.
#[derive(Debug)]
pub struct Hit {
    pub start: u32,
    pub end: u32,
    pub what: String,
}

impl View for Hit {
    type V = HitView;

    open spec fn view(&self) -> HitView {
        HitView { start: self.start, end: self.end, what: self.what@ }
    }
}

/// One of the lines is among those of the node.
pub open spec fn reaches(n: NodeView, lines: Seq<u32>) -> bool {
    exists|i: int| 0 <= i < lines.len() && n.start_line <= #[trigger] lines[i] <= n.end_line
}

/// The first of these nodes that is an expression with two operators of
/// arithmetic or more and has one of the lines.
pub open spec fn first_calculation(
    language: Language,
    vs: Seq<VisitView>,
    lines: Seq<u32>,
) -> Option<HitView>
    decreases vs.len(),
{
    if vs.len() == 0 {
        None
    } else {
        let n = vs[0].node;
        if is_arithmetic(language, n) && operators_of(language, n) >= 2 && reaches(n, lines) {
            Some(
                HitView {
                    start: n.start_line,
                    end: n.end_line,
                    what: "arithmetic expression ("@ + text::dec(operators_of(language, n))
                        + " operators)"@,
                },
            )
        } else {
            first_calculation(language, vs.drop_first(), lines)
        }
    }
}

fn line_reaches(n: &SyntaxNode, lines: &[u32]) -> (r: bool)
    ensures
        r == reaches(n@, lines@),
{
    let mut i: usize = 0;
    while i < lines.len()
        invariant
            i <= lines.len(),
            forall|k: int|
                0 <= k < i ==> !(n@.start_line <= #[trigger] lines@[k] <= n@.end_line),
        decreases lines.len() - i,
    {
        if n.start_line <= lines[i] && lines[i] <= n.end_line {
            assert(n@.start_line <= lines@[i as int] <= n@.end_line);
            return true;
        }
        i = i + 1;
    }
    false
}

/// The first expression of the tree with two operators of arithmetic or more
/// that has one of the lines.
pub fn find_multi_op_arithmetic(language: Language, tree: &SyntaxTree, lines: &[u32]) -> (r: Option<
    Hit,
>)
    ensures
        text::opt_view(r) == first_calculation(language, ast::preorder(tree@), lines@),
{
    let all: Vec<Visit<'_>> = ast::walk(&tree.root);
    let ghost vs = ast::preorder(tree@);
    let mut i: usize = 0;
    assert(vs.skip(0) == vs);
    while i < all.len()
        invariant
            i <= all.len(),
            vs == ast::preorder(tree@),
            vs == text::views(all@),
            first_calculation(language, vs, lines@) == first_calculation(
                language,
                vs.skip(i as int),
                lines@,
            ),
        decreases all.len() - i,
    {
        assert(vs.skip(i as int)[0] == all@[i as int]@);
        assert(vs.skip(i as int).drop_first() == vs.skip(i + 1));
        let n: &SyntaxNode = all[i].node;
        if is_arithmetic_binary(language, n) {
            let total: usize = arithmetic_op_count(language, n);
            if total >= 2 && line_reaches(n, lines) {
                let mut what: String = "arithmetic expression (".to_string();
                what.append(text::decimal(total as u64).as_str());
                what.append(" operators)");
                return Some(Hit { start: n.start_line, end: n.end_line, what });
            }
        }
        i = i + 1;
    }
    None
}

/// Which namespace for mathematics a line calls into, if any.
pub open spec fn namespace_of(line: Seq<char>) -> Option<Seq<char>> {
    if text::contains(line, "numpy."@) {
        Some("numpy.* call"@)
    } else if text::contains(line, "scipy."@) {
        Some("scipy.* call"@)
    } else if text::contains(line, "torch."@) {
        Some("torch.* call"@)
    } else if text::contains(line, "num_traits::"@) {
        Some("num_traits::* call"@)
    } else if text::contains(line, "libm::"@) {
        Some("libm::* call"@)
    } else if text::contains(line, "Math."@) {
        Some("Math.* call"@)
    } else if text::contains(line, "math."@) {
        Some("math.* call"@)
    } else if text::contains(line, "np."@) {
        Some("np.* call"@)
    } else if text::contains(line, "f64::"@) {
        Some("f64::* call"@)
    } else if text::contains(line, "f32::"@) {
        Some("f32::* call"@)
    } else {
        None
    }
}

fn says(line: &[char], needle: &str) -> (r: bool)
    ensures
        r == text::contains(line@, needle@),
{
    match text::find(line, needle) {
        Some(_) => true,
        None => false,
    }
}

fn math_namespace_in(line: &[char]) -> (r: Option<&'static str>)
    ensures
        text::opt_view(r) == namespace_of(line@),
{
    if says(line, "numpy.") {
        Some("numpy.* call")
    } else if says(line, "scipy.") {
        Some("scipy.* call")
    } else if says(line, "torch.") {
        Some("torch.* call")
    } else if says(line, "num_traits::") {
        Some("num_traits::* call")
    } else if says(line, "libm::") {
        Some("libm::* call")
    } else if says(line, "Math.") {
        Some("Math.* call")
    } else if says(line, "math.") {
        Some("math.* call")
    } else if says(line, "np.") {
        Some("np.* call")
    } else if says(line, "f64::") {
        Some("f64::* call")
    } else if says(line, "f32::") {
        Some("f32::* call")
    } else {
        None
    }
}

/// Where the line with this number stands among the lines of a text. Zero counts
/// as one.
pub open spec fn index_of_line(n: u32) -> int {
    if n == 0 {
        0
    } else {
        n - 1
    }
}

/// The first of the lines that calls into a namespace for mathematics.
pub open spec fn first_call(content: Seq<Seq<char>>, lines: Seq<u32>) -> Option<HitView>
    decreases lines.len(),
{
    if lines.len() == 0 {
        None
    } else {
        let i = index_of_line(lines[0]);
        match if i < content.len() {
            namespace_of(content[i])
        } else {
            None
        } {
            Some(what) => Some(HitView { start: lines[0], end: lines[0], what }),
            None => first_call(content, lines.drop_first()),
        }
    }
}

/// The first of the lines that calls into a namespace for mathematics.
pub fn find_math_call(content: &str, lines: &[u32]) -> (r: Option<Hit>)
    ensures
        text::opt_view(r) == first_call(text::lines_of(content@), lines@),
{
    let all: Vec<Vec<char>> = text::lines(&text::chars(content));
    let ghost ls = text::lines_of(content@);
    let mut k: usize = 0;
    assert(lines@.skip(0) == lines@);
    while k < lines.len()
        invariant
            k <= lines.len(),
            ls == text::lines_of(content@),
            ls == text::views(all@),
            first_call(ls, lines@) == first_call(ls, lines@.skip(k as int)),
        decreases lines.len() - k,
    {
        let line: u32 = lines[k];
        assert(lines@.skip(k as int)[0] == line);
        assert(lines@.skip(k as int).drop_first() == lines@.skip(k + 1));
        let i: usize = (if line == 0 {
            0u32
        } else {
            line - 1
        }) as usize;
        if i < all.len() {
            assert(ls[i as int] == all@[i as int]@);
            match math_namespace_in(&all[i]) {
                Some(what) => {
                    return Some(Hit { start: line, end: line, what: what.to_string() });
                },
                None => {},
            }
        }
        k = k + 1;
    }
    None
}

/// The calculation in a text that has one of the lines: an expression, or else a
/// call.
pub open spec fn calculation_in(
    language: Language,
    content: Option<Seq<char>>,
    lines: Seq<u32>,
) -> Option<HitView> {
    match content {
        Some(c) => match match ast::syntax_of(language, c) {
            Some(t) => first_calculation(language, ast::preorder(t), lines),
            None => None,
        } {
            Some(h) => Some(h),
            None => first_call(text::lines_of(c), lines),
        },
        None => None,
    }
}

/// The finding on a hunk: a calculation on an added line, or else one on a
/// removed line.
pub open spec fn calc_verdict(file: FileDiffView, hunk: HunkView) -> Option<FindingView> {
    match file.language {
        None => None,
        Some(l) => match calculation_in(l, file.new_content, hunk.added_lines) {
            Some(h) => Some(
                classifiers::finding_of(
                    Level::Review,
                    Category::NumericalCalc,
                    classifiers::phrase(h.what, " at lines "@, h.start, h.end),
                    "numerical_calc"@,
                    classifiers::focus(h.start, h.end, Side::New),
                ),
            ),
            None => match calculation_in(l, file.old_content, hunk.removed_lines) {
                Some(h) => Some(
                    classifiers::finding_of(
                        Level::Review,
                        Category::NumericalCalc,
                        classifiers::phrase(h.what, " removed at old lines "@, h.start, h.end),
                        "numerical_calc"@,
                        classifiers::focus(h.start, h.end, Side::Old),
                    ),
                ),
                None => None,
            },
        },
    }
}

proof fn lemma_no_lines(language: Language, vs: Seq<VisitView>, lines: Seq<u32>)
    requires
        lines.len() == 0,
    ensures
        first_calculation(language, vs, lines) is None,
    decreases vs.len(),
{
    if vs.len() > 0 {
        lemma_no_lines(language, vs.drop_first(), lines);
    }
}

proof fn lemma_calculation_has_a_line(language: Language, vs: Seq<VisitView>, lines: Seq<u32>)
    ensures
        first_calculation(language, vs, lines) matches Some(h) ==> classifiers::spans_a_line(
            h.start,
            h.end,
            lines,
        ),
    decreases vs.len(),
{
    if vs.len() > 0 {
        let n = vs[0].node;
        if is_arithmetic(language, n) && operators_of(language, n) >= 2 && reaches(n, lines) {
            let i = choose|i: int|
                0 <= i < lines.len() && n.start_line <= #[trigger] lines[i] <= n.end_line;
            assert(n.start_line <= lines[i] <= n.end_line);
        } else {
            lemma_calculation_has_a_line(language, vs.drop_first(), lines);
        }
    }
}

proof fn lemma_call_has_a_line(content: Seq<Seq<char>>, lines: Seq<u32>)
    ensures
        first_call(content, lines) matches Some(h) ==> classifiers::spans_a_line(
            h.start,
            h.end,
            lines,
        ),
    decreases lines.len(),
{
    if lines.len() > 0 {
        let rest = lines.drop_first();
        lemma_call_has_a_line(content, rest);
        match first_call(content, lines) {
            Some(h) => {
                if h.start == lines[0] && h.end == lines[0] {
                    assert(h.start <= lines[0] <= h.end);
                } else {
                    let i = choose|i: int|
                        0 <= i < rest.len() && h.start <= #[trigger] rest[i] <= h.end;
                    assert(lines[i + 1] == rest[i]);
                }
            },
            None => {},
        }
    }
}

proof fn lemma_calculation_in(language: Language, content: Option<Seq<char>>, lines: Seq<u32>)
    ensures
        calculation_in(language, content, lines) matches Some(h) ==> classifiers::spans_a_line(
            h.start,
            h.end,
            lines,
        ),
{
    match content {
        Some(c) => {
            match ast::syntax_of(language, c) {
                Some(t) => lemma_calculation_has_a_line(language, ast::preorder(t), lines),
                None => {},
            }
            lemma_call_has_a_line(text::lines_of(c), lines);
        },
        None => {},
    }
}

/// What the rule finds has a line that changes on that side.
pub proof fn law_focus_has_a_change(file: FileDiffView, hunk: HunkView)
    ensures
        calc_verdict(file, hunk) matches Some(f) ==> (f.focus_lines matches Some(l)
            && classifiers::spans_a_line(
            l.start,
            l.end,
            classifiers::changed_lines(hunk, l.side),
        )),
{
    match file.language {
        Some(l) => {
            lemma_calculation_in(l, file.new_content, hunk.added_lines);
            lemma_calculation_in(l, file.old_content, hunk.removed_lines);
        },
        None => {},
    }
}

fn detect(language: Language, content: &Option<String>, lines: &Vec<u32>) -> (r: Option<Hit>)
    ensures
        text::opt_view(r) == calculation_in(language, text::opt_view(*content), lines@),
{
    if lines.len() == 0 {
        proof {
            match text::opt_view(*content) {
                Some(c) => match ast::syntax_of(language, c) {
                    Some(t) => lemma_no_lines(language, ast::preorder(t), lines@),
                    None => {},
                },
                None => {},
            }
        }
        return None;
    }
    let c: &String = match content {
        Some(c) => c,
        None => return None,
    };
    match ast::parse(language, c.as_str()) {
        Some(tree) => match find_multi_op_arithmetic(language, &tree, lines) {
            Some(h) => {
                return Some(h);
            },
            None => {},
        },
        None => {},
    }
    find_math_call(c.as_str(), lines)
}

impl NumericalCalc {
    pub fn new() -> (r: Self)
        ensures
            r == NumericalCalc,
    {
        NumericalCalc
    }

    pub fn classify(&self, file: &mut FileDiff, hunk: &Hunk) -> (r: Option<Classification>)
        ensures
            text::opt_view(r) == calc_verdict(old(file)@, hunk@),
            final(file)@ == old(file)@,
    {
        let language: Language = match file.language {
            Some(l) => l,
            None => return None,
        };
        match detect(language, &file.new_content, &hunk.added_lines) {
            Some(h) => Some(
                classifiers::finding(
                    Level::Review,
                    Category::NumericalCalc,
                    classifiers::say(h.what.as_str(), " at lines ", h.start, h.end),
                    "numerical_calc",
                    Some(FocusLines { start: h.start, end: h.end, side: Side::New }),
                ),
            ),
            None => match detect(language, &file.old_content, &hunk.removed_lines) {
                Some(h) => Some(
                    classifiers::finding(
                        Level::Review,
                        Category::NumericalCalc,
                        classifiers::say(
                            h.what.as_str(),
                            " removed at old lines ",
                            h.start,
                            h.end,
                        ),
                        "numerical_calc",
                        Some(FocusLines { start: h.start, end: h.end, side: Side::Old }),
                    ),
                ),
                None => None,
            },
        }
    }
}

impl Default for NumericalCalc {
    fn default() -> (r: Self)
        ensures
            r == NumericalCalc,
    {
        NumericalCalc
    }
}

impl Classifier for NumericalCalc {
    open spec fn label(&self) -> Seq<char> {
        "numerical_calc"@
    }

    open spec fn place(&self) -> int {
        140
    }

    open spec fn verdict(&self, file: FileDiffView, hunk: HunkView) -> Seq<FindingView> {
        classifiers::listed(calc_verdict(file, hunk))
    }

    open spec fn effect(&self, file: FileDiffView, hunk: HunkView) -> FileDiffView {
        file
    }

    fn name(&self) -> (r: &'static str) {
        "numerical_calc"
    }

    fn priority(&self) -> (r: i32) {
        140
    }

    fn classify(&self, file: &mut FileDiff, hunk: &Hunk) -> (r: Vec<Finding>) {
        classifiers::list(NumericalCalc::classify(self, file, hunk))
    }
}

// --- what the rule finds -------------------------------------------------

/// The node joins two values by an operator on numbers or bits.
pub open spec fn calculates(language: Language, n: ast::NodeView) -> bool {
    &&& n.kind == if language == Language::Python {
        "binary_operator"@
    } else {
        "binary_expression"@
    }
    &&& exists|i: int|
        0 <= i < n.children.len() && {
            let c = #[trigger] n.children[i];
            &&& !c.named
            &&& {
                ||| c.kind == "+"@
                ||| c.kind == "-"@
                ||| c.kind == "*"@
                ||| c.kind == "/"@
                ||| c.kind == "%"@
                ||| c.kind == "**"@
                ||| c.kind == "<<"@
                ||| c.kind == ">>"@
                ||| c.kind == "^"@
                ||| c.kind == "&"@
                ||| c.kind == "|"@
            }
        }
}

/// The node calculates, at least one more node inside it does, and one of the
/// lines is among its own.
pub open spec fn is_worth_a_look(language: Language, n: ast::NodeView, lines: Seq<u32>) -> bool {
    &&& calculates(language, n)
    &&& exists|i: int, j: int|
        0 <= i < j < ast::preorder(n).len() && calculates(
            language,
            #[trigger] ast::preorder(n)[i].node,
        ) && calculates(language, #[trigger] ast::preorder(n)[j].node)
    &&& exists|i: int| 0 <= i < lines.len() && n.start_line <= #[trigger] lines[i] <= n.end_line
}

/// A line names one of the modules of mathematical functions.
pub open spec fn names_a_module(line: Seq<char>) -> bool {
    ||| text::contains(line, "numpy."@)
    ||| text::contains(line, "scipy."@)
    ||| text::contains(line, "torch."@)
    ||| text::contains(line, "num_traits::"@)
    ||| text::contains(line, "libm::"@)
    ||| text::contains(line, "Math."@)
    ||| text::contains(line, "math."@)
    ||| text::contains(line, "np."@)
    ||| text::contains(line, "f64::"@)
    ||| text::contains(line, "f32::"@)
}

/// The line of this number of a text names one of the modules of mathematical
/// functions.
pub open spec fn calls_on(content: Seq<char>, n: u32) -> bool {
    0 < n <= text::lines_of(content).len() && names_a_module(text::lines_of(content)[n - 1])
}

proof fn lemma_operators(language: Language, vs: Seq<VisitView>)
    ensures
        arithmetic_in(language, vs) >= 1 <==> exists|j: int|
            0 <= j < vs.len() && calculates(language, #[trigger] vs[j].node),
        arithmetic_in(language, vs) >= 2 <==> exists|i: int, j: int|
            0 <= i < j < vs.len() && calculates(language, #[trigger] vs[i].node) && calculates(
                language,
                #[trigger] vs[j].node,
            ),
    decreases vs.len(),
{
    if vs.len() > 0 {
        let rest = vs.drop_last();
        let last = vs.len() - 1;
        lemma_operators(language, rest);
        assert(is_arithmetic(language, vs[last].node) == calculates(language, vs[last].node));
        assert forall|i: int| 0 <= i < rest.len() implies #[trigger] rest[i] == vs[i] by {}
        if arithmetic_in(language, rest) >= 1 {
            let j = choose|j: int| 0 <= j < rest.len() && calculates(language, #[trigger] rest[j].node);
            assert(calculates(language, vs[j].node));
            if calculates(language, vs[last].node) {
                assert(j < last && calculates(language, vs[j].node) && calculates(
                    language,
                    vs[last].node,
                ));
            }
        }
        if arithmetic_in(language, rest) >= 2 {
            let (i, j) = choose|i: int, j: int|
                0 <= i < j < rest.len() && calculates(language, #[trigger] rest[i].node)
                    && calculates(language, #[trigger] rest[j].node);
            assert(calculates(language, vs[i].node) && calculates(language, vs[j].node));
        }
        if exists|j: int| 0 <= j < vs.len() && calculates(language, #[trigger] vs[j].node) {
            let j = choose|j: int| 0 <= j < vs.len() && calculates(language, #[trigger] vs[j].node);
            if j < last {
                assert(calculates(language, rest[j].node));
            }
        }
        if exists|i: int, j: int|
            0 <= i < j < vs.len() && calculates(language, #[trigger] vs[i].node) && calculates(
                language,
                #[trigger] vs[j].node,
            ) {
            let (i, j) = choose|i: int, j: int|
                0 <= i < j < vs.len() && calculates(language, #[trigger] vs[i].node) && calculates(
                    language,
                    #[trigger] vs[j].node,
                );
            assert(calculates(language, rest[i].node));
            if j < last {
                assert(calculates(language, rest[j].node));
            }
        }
    }
}

proof fn lemma_worth(language: Language, n: ast::NodeView, lines: Seq<u32>)
    ensures
        is_worth_a_look(language, n, lines) <==> (is_arithmetic(language, n) && operators_of(
            language,
            n,
        ) >= 2 && reaches(n, lines)),
{
    lemma_operators(language, ast::preorder(n));
    assert(is_arithmetic(language, n) == calculates(language, n));
}

proof fn lemma_first_calculation(
    language: Language,
    vs: Seq<VisitView>,
    lines: Seq<u32>,
    k: int,
)
    requires
        0 <= k < vs.len(),
        is_worth_a_look(language, vs[k].node, lines),
        forall|j: int| 0 <= j < k ==> !is_worth_a_look(language, #[trigger] vs[j].node, lines),
    ensures
        first_calculation(language, vs, lines) matches Some(h) && h.start
            == vs[k].node.start_line && h.end == vs[k].node.end_line,
    decreases k,
{
    lemma_worth(language, vs[0].node, lines);
    if k > 0 {
        assert(!is_worth_a_look(language, vs[0].node, lines));
        let rest = vs.drop_first();
        assert forall|j: int| 0 <= j < k - 1 implies !is_worth_a_look(
            language,
            #[trigger] rest[j].node,
            lines,
        ) by {
            assert(!is_worth_a_look(language, vs[j + 1].node, lines));
        }
        lemma_first_calculation(language, rest, lines, k - 1);
    }
}

proof fn lemma_no_calculation(language: Language, vs: Seq<VisitView>, lines: Seq<u32>)
    requires
        forall|j: int|
            0 <= j < vs.len() ==> !is_worth_a_look(language, #[trigger] vs[j].node, lines),
    ensures
        first_calculation(language, vs, lines) is None,
    decreases vs.len(),
{
    if vs.len() > 0 {
        lemma_worth(language, vs[0].node, lines);
        let rest = vs.drop_first();
        assert forall|j: int| 0 <= j < rest.len() implies !is_worth_a_look(
            language,
            #[trigger] rest[j].node,
            lines,
        ) by {
            assert(!is_worth_a_look(language, vs[j + 1].node, lines));
        }
        lemma_no_calculation(language, rest, lines);
    }
}

proof fn lemma_first_call(content: Seq<char>, lines: Seq<u32>, k: int)
    requires
        0 <= k <= lines.len(),
        k < lines.len() ==> calls_on(content, lines[k]),
        forall|j: int| 0 <= j < k ==> !calls_on(content, #[trigger] lines[j]),
        forall|j: int| 0 <= j < lines.len() ==> #[trigger] lines[j] > 0,
    ensures
        k < lines.len() ==> (first_call(text::lines_of(content), lines) matches Some(h) && h.start
            == lines[k] && h.end == lines[k]),
        k == lines.len() ==> first_call(text::lines_of(content), lines) is None,
    decreases lines.len(),
{
    if lines.len() > 0 && k > 0 {
        assert(!calls_on(content, lines[0]));
        let rest = lines.drop_first();
        assert forall|j: int| 0 <= j < k - 1 implies !calls_on(content, #[trigger] rest[j]) by {
            assert(!calls_on(content, lines[j + 1]));
        }
        lemma_first_call(content, rest, k - 1);
    }
}

/// No node of the tree of a text calculates twice or more on one of the lines.
pub open spec fn nothing_calculates(
    language: Language,
    content: Seq<char>,
    lines: Seq<u32>,
) -> bool {
    ast::syntax_of(language, content) matches Some(t) ==> forall|j: int|
        0 <= j < ast::preorder(t).len() ==> !is_worth_a_look(
            language,
            #[trigger] ast::preorder(t)[j].node,
            lines,
        )
}

/// Neither a calculation nor a call of a mathematical function is on one of the
/// lines of a text.
pub open spec fn nothing_numerical(
    language: Language,
    content: Option<Seq<char>>,
    lines: Seq<u32>,
) -> bool {
    content matches Some(c) ==> nothing_calculates(language, c, lines) && forall|j: int|
        0 <= j < lines.len() ==> !calls_on(c, #[trigger] lines[j])
}

proof fn lemma_nothing_numerical(language: Language, content: Option<Seq<char>>, lines: Seq<u32>)
    requires
        nothing_numerical(language, content, lines),
        forall|j: int| 0 <= j < lines.len() ==> #[trigger] lines[j] > 0,
    ensures
        calculation_in(language, content, lines) is None,
{
    match content {
        Some(c) => {
            match ast::syntax_of(language, c) {
                Some(t) => lemma_no_calculation(language, ast::preorder(t), lines),
                None => {},
            }
            lemma_first_call(c, lines, lines.len() as int);
        },
        None => {},
    }
}

/// The finding says that the lines from `start` to `end` of a side are to be
/// reviewed for what they calculate.
pub open spec fn is_on(verdict: Option<FindingView>, start: u32, end: u32, side: Side) -> bool {
    verdict matches Some(f) && f.level == Level::Review && f.category == Category::NumericalCalc
        && f.focus_lines == Some(FocusLines { start, end, side })
}

/// Where an expression of the new file with two operators or more has an added
/// line, the first of them is to be reviewed, over all of its lines.
pub proof fn law_calculations_are_found(
    file: FileDiffView,
    hunk: HunkView,
    language: Language,
    content: Seq<char>,
    tree: ast::NodeView,
    k: int,
)
    requires
        file.language == Some(language),
        file.new_content == Some(content),
        ast::syntax_of(language, content) == Some(tree),
        0 <= k < ast::preorder(tree).len(),
        is_worth_a_look(language, ast::preorder(tree)[k].node, hunk.added_lines),
        forall|j: int|
            0 <= j < k ==> !is_worth_a_look(
                language,
                #[trigger] ast::preorder(tree)[j].node,
                hunk.added_lines,
            ),
    ensures
        is_on(
            calc_verdict(file, hunk),
            ast::preorder(tree)[k].node.start_line,
            ast::preorder(tree)[k].node.end_line,
            Side::New,
        ),
{
    lemma_first_calculation(language, ast::preorder(tree), hunk.added_lines, k);
}

/// Where there is no such expression, but an added line calls a mathematical
/// function, the first such line is to be reviewed.
pub proof fn law_calls_are_found(
    file: FileDiffView,
    hunk: HunkView,
    language: Language,
    content: Seq<char>,
    k: int,
)
    requires
        file.language == Some(language),
        file.new_content == Some(content),
        nothing_calculates(language, content, hunk.added_lines),
        forall|j: int| 0 <= j < hunk.added_lines.len() ==> #[trigger] hunk.added_lines[j] > 0,
        0 <= k < hunk.added_lines.len(),
        calls_on(content, hunk.added_lines[k]),
        forall|j: int| 0 <= j < k ==> !calls_on(content, #[trigger] hunk.added_lines[j]),
    ensures
        is_on(calc_verdict(file, hunk), hunk.added_lines[k], hunk.added_lines[k], Side::New),
{
    match ast::syntax_of(language, content) {
        Some(t) => lemma_no_calculation(language, ast::preorder(t), hunk.added_lines),
        None => {},
    }
    lemma_first_call(content, hunk.added_lines, k);
}

/// Where nothing is calculated on the added lines, the first expression of the
/// old file with two operators or more that had a removed line is to be reviewed.
pub proof fn law_removed_calculations_are_found(
    file: FileDiffView,
    hunk: HunkView,
    language: Language,
    content: Seq<char>,
    tree: ast::NodeView,
    k: int,
)
    requires
        file.language == Some(language),
        nothing_numerical(language, file.new_content, hunk.added_lines),
        forall|j: int| 0 <= j < hunk.added_lines.len() ==> #[trigger] hunk.added_lines[j] > 0,
        file.old_content == Some(content),
        ast::syntax_of(language, content) == Some(tree),
        0 <= k < ast::preorder(tree).len(),
        is_worth_a_look(language, ast::preorder(tree)[k].node, hunk.removed_lines),
        forall|j: int|
            0 <= j < k ==> !is_worth_a_look(
                language,
                #[trigger] ast::preorder(tree)[j].node,
                hunk.removed_lines,
            ),
    ensures
        is_on(
            calc_verdict(file, hunk),
            ast::preorder(tree)[k].node.start_line,
            ast::preorder(tree)[k].node.end_line,
            Side::Old,
        ),
{
    lemma_nothing_numerical(language, file.new_content, hunk.added_lines);
    lemma_first_calculation(language, ast::preorder(tree), hunk.removed_lines, k);
}

/// Where there is no such expression either, the first removed line that called
/// a mathematical function is to be reviewed.
pub proof fn law_removed_calls_are_found(
    file: FileDiffView,
    hunk: HunkView,
    language: Language,
    content: Seq<char>,
    k: int,
)
    requires
        file.language == Some(language),
        nothing_numerical(language, file.new_content, hunk.added_lines),
        forall|j: int| 0 <= j < hunk.added_lines.len() ==> #[trigger] hunk.added_lines[j] > 0,
        file.old_content == Some(content),
        nothing_calculates(language, content, hunk.removed_lines),
        forall|j: int| 0 <= j < hunk.removed_lines.len() ==> #[trigger] hunk.removed_lines[j] > 0,
        0 <= k < hunk.removed_lines.len(),
        calls_on(content, hunk.removed_lines[k]),
        forall|j: int| 0 <= j < k ==> !calls_on(content, #[trigger] hunk.removed_lines[j]),
    ensures
        is_on(calc_verdict(file, hunk), hunk.removed_lines[k], hunk.removed_lines[k], Side::Old),
{
    lemma_nothing_numerical(language, file.new_content, hunk.added_lines);
    match ast::syntax_of(language, content) {
        Some(t) => lemma_no_calculation(language, ast::preorder(t), hunk.removed_lines),
        None => {},
    }
    lemma_first_call(content, hunk.removed_lines, k);
}

/// Where nothing is calculated on a changed line, the rule says nothing.
pub proof fn law_nothing_numerical(file: FileDiffView, hunk: HunkView, language: Language)
    requires
        file.language == Some(language),
        nothing_numerical(language, file.new_content, hunk.added_lines),
        nothing_numerical(language, file.old_content, hunk.removed_lines),
        forall|j: int| 0 <= j < hunk.added_lines.len() ==> #[trigger] hunk.added_lines[j] > 0,
        forall|j: int| 0 <= j < hunk.removed_lines.len() ==> #[trigger] hunk.removed_lines[j] > 0,
    ensures
        calc_verdict(file, hunk) is None,
{
    lemma_nothing_numerical(language, file.new_content, hunk.added_lines);
    lemma_nothing_numerical(language, file.old_content, hunk.removed_lines);
}

// --- what a calculation is called ----------------------------------------

/// Tells the nodes that calculate.
pub open spec fn calculation_test(language: Language) -> spec_fn(VisitView) -> bool {
    |v: VisitView| calculates(language, v.node)
}

proof fn lemma_operators_counted(language: Language, vs: Seq<VisitView>)
    ensures
        arithmetic_in(language, vs) == vs.filter(calculation_test(language)).len(),
    decreases vs.len(),
{
    reveal(Seq::filter);
    if vs.len() > 0 {
        lemma_operators_counted(language, vs.drop_last());
        assert(is_arithmetic(language, vs.last().node) == calculates(language, vs.last().node));
        assert(calculation_test(language)(vs.last()) == calculates(language, vs.last().node));
    }
}

/// A calculation is called by how many nodes of its expression calculate.
pub proof fn law_calculations_are_named(
    language: Language,
    vs: Seq<VisitView>,
    lines: Seq<u32>,
    k: int,
)
    requires
        0 <= k < vs.len(),
        is_worth_a_look(language, vs[k].node, lines),
        forall|j: int| 0 <= j < k ==> !is_worth_a_look(language, #[trigger] vs[j].node, lines),
    ensures
        first_calculation(language, vs, lines) matches Some(h) && h.what
            == "arithmetic expression ("@ + text::dec(
            ast::preorder(vs[k].node).filter(calculation_test(language)).len(),
        ) + " operators)"@,
    decreases k,
{
    lemma_worth(language, vs[0].node, lines);
    lemma_operators_counted(language, ast::preorder(vs[k].node));
    if k > 0 {
        assert(!is_worth_a_look(language, vs[0].node, lines));
        let rest = vs.drop_first();
        assert forall|j: int| 0 <= j < k - 1 implies !is_worth_a_look(
            language,
            #[trigger] rest[j].node,
            lines,
        ) by {
            assert(!is_worth_a_look(language, vs[j + 1].node, lines));
        }
        law_calculations_are_named(language, rest, lines, k - 1);
    }
}

/// A call is called by a module that its line names.
pub proof fn law_calls_are_named(line: Seq<char>)
    ensures
        namespace_of(line) is Some <==> names_a_module(line),
        namespace_of(line) == Some("numpy.* call"@) ==> text::contains(line, "numpy."@),
        namespace_of(line) == Some("scipy.* call"@) ==> text::contains(line, "scipy."@),
        namespace_of(line) == Some("torch.* call"@) ==> text::contains(line, "torch."@),
        namespace_of(line) == Some("num_traits::* call"@) ==> text::contains(line, "num_traits::"@),
        namespace_of(line) == Some("libm::* call"@) ==> text::contains(line, "libm::"@),
        namespace_of(line) == Some("Math.* call"@) ==> text::contains(line, "Math."@),
        namespace_of(line) == Some("math.* call"@) ==> text::contains(line, "math."@),
        namespace_of(line) == Some("np.* call"@) ==> text::contains(line, "np."@),
        namespace_of(line) == Some("f64::* call"@) ==> text::contains(line, "f64::"@),
        namespace_of(line) == Some("f32::* call"@) ==> text::contains(line, "f32::"@),
        text::contains(line, "numpy."@) ==> namespace_of(line) == Some("numpy.* call"@),
{
    reveal_strlit("numpy.* call");
    reveal_strlit("scipy.* call");
    reveal_strlit("torch.* call");
    reveal_strlit("num_traits::* call");
    reveal_strlit("libm::* call");
    reveal_strlit("Math.* call");
    reveal_strlit("math.* call");
    reveal_strlit("np.* call");
    reveal_strlit("f64::* call");
    reveal_strlit("f32::* call");
    assert("numpy.* call"@.len() == 12 && "numpy.* call"@[0] == 'n');
    assert("scipy.* call"@.len() == 12 && "scipy.* call"@[0] == 's');
    assert("torch.* call"@.len() == 12 && "torch.* call"@[0] == 't');
    assert("num_traits::* call"@.len() == 18);
    assert("libm::* call"@.len() == 12 && "libm::* call"@[0] == 'l');
    assert("Math.* call"@.len() == 11 && "Math.* call"@[0] == 'M');
    assert("math.* call"@.len() == 11 && "math.* call"@[0] == 'm');
    assert("np.* call"@.len() == 9);
    assert("f64::* call"@.len() == 11 && "f64::* call"@[0] == 'f' && "f64::* call"@[1] == '6');
    assert("f32::* call"@.len() == 11 && "f32::* call"@[0] == 'f' && "f32::* call"@[1] == '3');
}

} // verus!
