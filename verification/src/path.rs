//! File paths with `/` as the separator, compared part by part.
//!
//! Two spellings of a path that differ only in repeated separators, in a
//! trailing separator or in `.` segments inside it name the same parts.
use vstd::prelude::*;
use vstd::slice::slice_subrange;

use crate::text;

verus! {

/// One part of a path, as a value of the specification.
pub enum PartView {
    Root,
    Current,
    Parent,
    Name(Seq<char>),
}

/// One part of a path.
pub enum Part {
    /// The separator that an absolute path begins with.
    Root,
    /// A `.` at the beginning of a relative path.
    Current,
    /// A `..` segment.
    Parent,
    /// Any other segment.
    Name(Vec<char>),
}

impl View for Part {
    type V = PartView;

    open spec fn view(&self) -> PartView {
        match self {
            Part::Root => PartView::Root,
            Part::Current => PartView::Current,
            Part::Parent => PartView::Parent,
            Part::Name(n) => PartView::Name(n@),
        }
    }
}

/// What the segment at position `i` of a path adds to its parts.
pub open spec fn segment_part(i: int, segment: Seq<char>) -> Seq<PartView> {
    if segment.len() == 0 {
        Seq::empty()
    } else if segment == "."@ {
        if i == 0 {
            seq![PartView::Current]
        } else {
            Seq::empty()
        }
    } else if segment == ".."@ {
        seq![PartView::Parent]
    } else {
        seq![PartView::Name(segment)]
    }
}

pub open spec fn segment_parts(segments: Seq<Seq<char>>) -> Seq<PartView>
    decreases segments.len(),
{
    if segments.len() == 0 {
        Seq::empty()
    } else {
        segment_parts(segments.drop_last()) + segment_part(
            segments.len() - 1,
            segments.last(),
        )
    }
}

/// The parts of a path.
pub open spec fn parts_of(path: Seq<char>) -> Seq<PartView> {
    let root = if path.len() > 0 && path[0] == '/' {
        seq![PartView::Root]
    } else {
        Seq::empty()
    };
    root + segment_parts(text::split(path, '/'))
}

/// The parts of a path, in order.
pub fn parts(path: &str) -> (r: Vec<Part>)
    ensures
        text::views(r@) == parts_of(path@),
{
    let cs: Vec<char> = text::chars(path);
    let mut out: Vec<Part> = Vec::new();
    if cs.len() > 0 && cs[0] == '/' {
        out.push(Part::Root);
    }
    let ghost root = text::views(out@);
    assert(root =~= if path@.len() > 0 && path@[0] == '/' {
        seq![PartView::Root]
    } else {
        Seq::empty()
    });
    let segments: Vec<Vec<char>> = text::split_at_each(&cs, '/');
    let ghost segs = text::views(segments@);
    let current: Vec<char> = text::chars(".");
    let parent: Vec<char> = text::chars("..");
    let mut i: usize = 0;
    while i < segments.len()
        invariant
            i <= segments.len(),
            segs == text::views(segments@),
            current@ == "."@,
            parent@ == ".."@,
            text::views(out@) == root + segment_parts(segs.take(i as int)),
        decreases segments.len() - i,
    {
        let ghost before = out@;
        let segment: &Vec<char> = &segments[i];
        assert(segs.take(i + 1).drop_last() == segs.take(i as int));
        assert(segs[i as int] == segment@);
        if segment.len() == 0 {
        } else if text::same(segment, &current) {
            if i == 0 {
                out.push(Part::Current);
                proof {
                    text::lemma_views_push(before, Part::Current);
                }
            }
        } else if text::same(segment, &parent) {
            out.push(Part::Parent);
            proof {
                text::lemma_views_push(before, Part::Parent);
            }
        } else {
            let name = Part::Name(segment.clone());
            assert(name@ == PartView::Name(segment@));
            out.push(name);
            proof {
                text::lemma_views_push(before, name);
            }
        }
        i = i + 1;
        assert(text::views(out@) =~= text::views(before) + segment_part(i - 1, segment@));
    }
    assert(segs.take(segs.len() as int) == segs);
    out
}

/// Whether two paths have the same parts.
pub fn same(a: &str, b: &str) -> (r: bool)
    ensures
        r == (parts_of(a@) == parts_of(b@)),
{
    let xs: Vec<Part> = parts(a);
    let ys: Vec<Part> = parts(b);
    assert(parts_of(a@).len() == xs@.len());
    assert(parts_of(b@).len() == ys@.len());
    if xs.len() != ys.len() {
        return false;
    }
    let mut i: usize = 0;
    while i < xs.len()
        invariant
            i <= xs.len() == ys.len(),
            parts_of(a@) == text::views(xs@),
            parts_of(b@) == text::views(ys@),
            forall|k: int| 0 <= k < i ==> (#[trigger] xs@[k])@ == ys@[k]@,
        decreases xs.len() - i,
    {
        let equal: bool = match (&xs[i], &ys[i]) {
            (Part::Root, Part::Root) => true,
            (Part::Current, Part::Current) => true,
            (Part::Parent, Part::Parent) => true,
            (Part::Name(m), Part::Name(n)) => text::same(m, n),
            _ => false,
        };
        if !equal {
            assert(parts_of(a@)[i as int] != parts_of(b@)[i as int]);
            return false;
        }
        i = i + 1;
    }
    assert(parts_of(a@) =~= parts_of(b@));
    true
}

/// Where a part stands among parts of other kinds.
pub open spec fn part_rank(p: PartView) -> int {
    match p {
        PartView::Root => 0,
        PartView::Current => 1,
        PartView::Parent => 2,
        PartView::Name(_) => 3,
    }
}

/// One part comes before another: by kind, names in the order of characters.
pub open spec fn part_precedes(a: PartView, b: PartView) -> bool {
    match (a, b) {
        (PartView::Name(m), PartView::Name(n)) => text::precedes(m, n),
        _ => part_rank(a) < part_rank(b),
    }
}

/// One path comes before another: part by part.
pub open spec fn precedes(a: Seq<PartView>, b: Seq<PartView>) -> bool
    decreases a.len(),
{
    if b.len() == 0 {
        false
    } else if a.len() == 0 {
        true
    } else if a[0] != b[0] {
        part_precedes(a[0], b[0])
    } else {
        precedes(a.drop_first(), b.drop_first())
    }
}

proof fn lemma_part_total(a: PartView, b: PartView)
    ensures
        part_precedes(a, b) || part_precedes(b, a) || a == b,
        !(part_precedes(a, b) && part_precedes(b, a)),
        !part_precedes(a, a),
{
    match (a, b) {
        (PartView::Name(m), PartView::Name(n)) => {
            text::lemma_precedes_total(m, n);
            text::lemma_precedes_total(m, m);
        },
        (PartView::Name(m), _) => {
            text::lemma_precedes_total(m, m);
        },
        _ => {},
    }
}

proof fn lemma_part_transitive(a: PartView, b: PartView, c: PartView)
    requires
        part_precedes(a, b),
        part_precedes(b, c),
    ensures
        part_precedes(a, c),
{
    match (a, b, c) {
        (PartView::Name(m), PartView::Name(n), PartView::Name(o)) => {
            text::lemma_precedes_transitive(m, n, o);
        },
        _ => {},
    }
}

pub proof fn lemma_precedes_total(a: Seq<PartView>, b: Seq<PartView>)
    ensures
        precedes(a, b) || precedes(b, a) || a == b,
        !(precedes(a, b) && precedes(b, a)),
    decreases a.len(),
{
    if a.len() > 0 && b.len() > 0 {
        lemma_part_total(a[0], b[0]);
        lemma_precedes_total(a.drop_first(), b.drop_first());
        if a[0] == b[0] && a.drop_first() == b.drop_first() {
            assert(a =~= seq![a[0]] + a.drop_first());
            assert(b =~= seq![b[0]] + b.drop_first());
        }
    } else if a.len() == 0 && b.len() == 0 {
        assert(a =~= b);
    }
}

pub proof fn lemma_precedes_transitive(
    a: Seq<PartView>,
    b: Seq<PartView>,
    c: Seq<PartView>,
)
    requires
        precedes(a, b),
        precedes(b, c),
    ensures
        precedes(a, c),
    decreases a.len(),
{
    if a.len() > 0 {
        if a[0] == b[0] && b[0] == c[0] {
            lemma_precedes_transitive(a.drop_first(), b.drop_first(), c.drop_first());
        } else if a[0] != b[0] && b[0] != c[0] {
            lemma_part_transitive(a[0], b[0], c[0]);
            lemma_part_total(a[0], b[0]);
            lemma_part_total(b[0], c[0]);
        }
    }
}

fn part_comes_before(a: &Part, b: &Part) -> (r: bool)
    ensures
        r == part_precedes(a@, b@),
{
    match (a, b) {
        (Part::Name(m), Part::Name(n)) => text::comes_before(m, n),
        (Part::Root, Part::Root) => false,
        (Part::Root, _) => true,
        (Part::Current, Part::Parent) => true,
        (Part::Current, Part::Name(_)) => true,
        (Part::Parent, Part::Name(_)) => true,
        _ => false,
    }
}

/// Whether one path comes before another.
pub fn comes_before(a: &str, b: &str) -> (r: bool)
    ensures
        r == precedes(parts_of(a@), parts_of(b@)),
{
    let xs: Vec<Part> = parts(a);
    let ys: Vec<Part> = parts(b);
    let ghost ps = text::views(xs@);
    let ghost qs = text::views(ys@);
    let mut i: usize = 0;
    assert(ps.skip(0) == ps && qs.skip(0) == qs);
    while i < xs.len() && i < ys.len()
        invariant
            i <= xs.len(),
            i <= ys.len(),
            ps == text::views(xs@),
            qs == text::views(ys@),
            ps == parts_of(a@),
            qs == parts_of(b@),
            precedes(ps, qs) == precedes(ps.skip(i as int), qs.skip(i as int)),
        decreases xs.len() - i,
    {
        let ghost p = ps.skip(i as int);
        let ghost q = qs.skip(i as int);
        proof {
            assert(p[0] == xs@[i as int]@);
            assert(q[0] == ys@[i as int]@);
            lemma_part_total(p[0], q[0]);
            lemma_part_total(q[0], p[0]);
        }
        if part_comes_before(&xs[i], &ys[i]) {
            return true;
        }
        if part_comes_before(&ys[i], &xs[i]) {
            return false;
        }
        assert(p.drop_first() == ps.skip(i + 1));
        assert(q.drop_first() == qs.skip(i + 1));
        i = i + 1;
    }
    i < ys.len()
}

/// The last segment of a path that names a file or directory.
pub open spec fn name_of(path: Seq<char>) -> Option<Seq<char>> {
    let parts = parts_of(path);
    if parts.len() > 0 {
        match parts.last() {
            PartView::Name(n) => Some(n),
            _ => None,
        }
    } else {
        None
    }
}

/// The last segment of a path that names a file or directory.
pub fn file_name(path: &str) -> (r: Option<Vec<char>>)
    ensures
        match r {
            Some(n) => name_of(path@) == Some(n@),
            None => name_of(path@) is None,
        },
{
    let mut ps: Vec<Part> = parts(path);
    let ghost all = ps@;
    match ps.pop() {
        Some(Part::Name(n)) => {
            assert(parts_of(path@).last() == all.last()@);
            Some(n)
        },
        Some(p) => {
            assert(parts_of(path@).last() == all.last()@);
            None
        },
        None => None,
    }
}

/// What stands behind the last dot of the file name. A dot at its beginning
/// does not count.
pub open spec fn extension_of(path: Seq<char>) -> Option<Seq<char>> {
    match name_of(path) {
        Some(n) => {
            if exists|d: int| 0 < d && text::last_at(n, seq!['.'], d) {
                let d = choose|d: int| 0 < d && text::last_at(n, seq!['.'], d);
                Some(n.skip(d + 1))
            } else {
                None
            }
        },
        None => None,
    }
}

proof fn lemma_dot(n: Seq<char>, d: int)
    ensures
        text::occurs_at(n, seq!['.'], d) <==> 0 <= d < n.len() && n[d] == '.',
{
    if 0 <= d < n.len() {
        if n[d] == '.' {
            assert(n.subrange(d, d + 1) =~= seq!['.']);
        } else if text::occurs_at(n, seq!['.'], d) {
            assert(n.subrange(d, d + 1)[0] == '.');
        }
    }
}

/// The extension of the file that a path names.
pub fn extension(path: &str) -> (r: Option<Vec<char>>)
    ensures
        match r {
            Some(e) => extension_of(path@) == Some(e@),
            None => extension_of(path@) is None,
        },
{
    let n: Vec<char> = match file_name(path) {
        Some(n) => n,
        None => return None,
    };
    let ghost dot = seq!['.'];
    proof {
        assert forall|d: int| #[trigger]
            text::occurs_at(n@, dot, d) <==> 0 <= d < n@.len() && n@[d] == '.' by {
            lemma_dot(n@, d);
        }
    }
    match text::rposition(&n, '.') {
        Some(d) => {
            let len: usize = n.len();
            proof {
                assert(text::last_at(n@, dot, d as int));
                assert forall|c: int| text::last_at(n@, dot, c) implies c == d by {
                    assert(text::occurs_at(n@, dot, c));
                    assert(text::occurs_at(n@, dot, d as int));
                }
            }
            if d == 0 {
                assert(extension_of(path@) is None);
                return None;
            }
            assert(n@.subrange(d + 1, n@.len() as int) == n@.skip(d + 1));
            proof {
                let ext = n@.skip(d + 1);
                if ext.contains('.') {
                    let k = ext.index_of('.');
                    assert(n@[d + 1 + k] == '.');
                    assert(text::occurs_at(n@, dot, d + 1 + k));
                }
                assert(n@ =~= n@.take(d as int) + seq!['.'] + ext);
                law_extension(path@, n@.take(d as int), ext);
            }
            assert(extension_of(path@) == Some(n@.skip(d + 1)));
            Some(vstd::slice::slice_to_vec(slice_subrange(&n, d + 1, len)))
        },
        None => {
            assert forall|d: int| !text::last_at(n@, dot, d) by {
                if text::last_at(n@, dot, d) {
                    assert(text::occurs_at(n@, dot, d));
                    assert(n@.contains('.'));
                }
            }
            assert(extension_of(path@) is None);
            None
        },
    }
}

// --- how paths are taken apart -------------------------------------------

proof fn lemma_last_segment(dir: Seq<char>, last: Seq<char>)
    requires
        !last.contains('/'),
    ensures
        parts_of(dir + seq!['/'] + last) == (if dir.len() == 0 {
            seq![PartView::Root]
        } else {
            parts_of(dir)
        }) + segment_part(1, last),
        segment_part(1, last) == segment_part(text::split(dir, '/').len() as int, last),
{
    let path = dir + seq!['/'] + last;
    let segments = text::split(dir, '/');
    text::law_split(dir, '/', last);
    text::law_split(last, '/', last);
    assert(text::split(path, '/') =~= segments.push(last));
    assert(segments.push(last).drop_last() =~= segments);
    if dir.len() == 0 {
        text::law_split(dir, '/', last);
        assert(segments =~= seq![dir]);
        assert(segments.drop_last() =~= Seq::<Seq<char>>::empty());
        assert(segment_parts(segments.drop_last()) =~= Seq::<PartView>::empty());
        assert(segment_parts(segments) =~= Seq::<PartView>::empty());
        assert(path[0] == '/');
    } else {
        assert(path[0] == dir[0]);
    }
    assert(parts_of(path) =~= (if dir.len() == 0 {
        seq![PartView::Root]
    } else {
        parts_of(dir)
    }) + segment_part(1, last));
}

/// A name behind a directory adds itself to the parts of the directory; nothing
/// and `.` add no part; `..` adds itself. A path may begin at the root.
pub proof fn law_parts(dir: Seq<char>, name: Seq<char>)
    requires
        name.len() > 0,
        !name.contains('/'),
        name != "."@,
        name != ".."@,
    ensures
        parts_of(Seq::<char>::empty()) == Seq::<PartView>::empty(),
        parts_of(name) == seq![PartView::Name(name)],
        parts_of(seq!['/'] + name) == seq![PartView::Root, PartView::Name(name)],
        dir.len() > 0 ==> parts_of(dir + seq!['/'] + name) == parts_of(dir).push(
            PartView::Name(name),
        ),
        dir.len() > 0 ==> parts_of(dir + seq!['/']) == parts_of(dir),
        dir.len() > 0 ==> parts_of(dir + seq!['/', '.']) == parts_of(dir),
        dir.len() > 0 ==> parts_of(dir + seq!['/', '.', '.']) == parts_of(dir).push(
            PartView::Parent,
        ),
        name_of(name) == Some(name),
        name_of(dir + seq!['/'] + name) == Some(name),
{
    reveal_strlit(".");
    reveal_strlit("..");
    let none = Seq::<char>::empty();
    text::law_split(none, '/', none);
    assert(text::split(none, '/') =~= seq![none]);
    assert(seq![none].drop_last() =~= Seq::<Seq<char>>::empty());
    assert(segment_parts(seq![none].drop_last()) =~= Seq::<PartView>::empty());
    assert(segment_parts(seq![none]) =~= Seq::<PartView>::empty());
    assert(parts_of(none) =~= Seq::<PartView>::empty());
    text::law_split(name, '/', none);
    assert(seq![name].drop_last() =~= Seq::<Seq<char>>::empty());
    assert(segment_parts(seq![name].drop_last()) =~= Seq::<PartView>::empty());
    assert(segment_parts(seq![name]) =~= seq![PartView::Name(name)]);
    assert(name[0] != '/') by {
        assert(name.contains(name[0]));
    }
    assert(parts_of(name) =~= seq![PartView::Name(name)]);
    lemma_last_segment(none, name);
    assert(none + seq!['/'] + name =~= seq!['/'] + name);
    assert(parts_of(seq!['/'] + name) =~= seq![PartView::Root, PartView::Name(name)]);
    lemma_last_segment(dir, name);
    lemma_last_segment(dir, none);
    assert(dir + seq!['/'] + none =~= dir + seq!['/']);
    lemma_last_segment(dir, "."@);
    assert(dir + seq!['/'] + "."@ =~= dir + seq!['/', '.']);
    lemma_last_segment(dir, ".."@);
    assert(dir + seq!['/'] + ".."@ =~= dir + seq!['/', '.', '.']);
    assert(!("."@ == ".."@)) by {
        assert("."@.len() == 1 && ".."@.len() == 2);
    }
    if dir.len() > 0 {
        assert(parts_of(dir + seq!['/'] + name) =~= parts_of(dir).push(PartView::Name(name)));
        assert(parts_of(dir + seq!['/']) =~= parts_of(dir));
        assert(parts_of(dir + seq!['/', '.']) =~= parts_of(dir));
        assert(parts_of(dir + seq!['/', '.', '.']) =~= parts_of(dir).push(PartView::Parent));
    }
}

/// The extension of a file is what stands behind the last dot of its name; a
/// name without a dot, or with one at its beginning alone, has none.
pub proof fn law_extension(path: Seq<char>, stem: Seq<char>, extension: Seq<char>)
    requires
        !extension.contains('.'),
    ensures
        stem.len() > 0 && name_of(path) == Some(stem + seq!['.'] + extension) ==> extension_of(path)
            == Some(extension),
        name_of(path) == Some(extension) ==> extension_of(path) is None,
        name_of(path) == Some(seq!['.'] + extension) ==> extension_of(path) is None,
        name_of(path) is None ==> extension_of(path) is None,
{
    let dot = seq!['.'];
    match name_of(path) {
        Some(n) => {
            assert forall|d: int| #[trigger]
                text::occurs_at(n, dot, d) <==> 0 <= d < n.len() && n[d] == '.' by {
                lemma_dot(n, d);
            }
            if stem.len() > 0 && n == stem + seq!['.'] + extension {
                let d = stem.len() as int;
                assert(n[d] == '.');
                assert forall|j: int| d < j implies !text::occurs_at(n, dot, j) by {
                    if text::occurs_at(n, dot, j) {
                        assert(n[j] == extension[j - d - 1]);
                        assert(extension.contains('.'));
                    }
                }
                assert(text::last_at(n, dot, d));
                assert forall|c: int| text::last_at(n, dot, c) implies c == d by {
                    assert(text::occurs_at(n, dot, c));
                    assert(text::occurs_at(n, dot, d));
                }
                assert(n.skip(d + 1) =~= extension);
            }
            if n == extension {
                assert forall|d: int| 0 < d implies !text::last_at(n, dot, d) by {
                    if text::last_at(n, dot, d) {
                        assert(text::occurs_at(n, dot, d));
                        assert(extension.contains(n[d]));
                    }
                }
            }
            if n == dot + extension {
                assert forall|d: int| 0 < d implies !text::last_at(n, dot, d) by {
                    if text::last_at(n, dot, d) {
                        assert(text::occurs_at(n, dot, d));
                        assert(n[d] == extension[d - 1]);
                        assert(extension.contains('.'));
                    }
                }
            }
        },
        None => {},
    }
}

/// Paths are ordered by the first part in which they differ, names as texts are;
/// a directory comes before what is in it.
pub proof fn law_precedes(
    p: Seq<PartView>,
    m: Seq<char>,
    a: Seq<PartView>,
    n: Seq<char>,
    b: Seq<PartView>,
)
    ensures
        m != n ==> precedes(p + seq![PartView::Name(m)] + a, p + seq![PartView::Name(n)] + b)
            == text::precedes(m, n),
        precedes(p, p + seq![PartView::Name(n)] + b),
        !precedes(p, p),
    decreases p.len(),
{
    let x = p + seq![PartView::Name(m)] + a;
    let y = p + seq![PartView::Name(n)] + b;
    if p.len() == 0 {
        assert(x[0] == PartView::Name(m));
        assert(y[0] == PartView::Name(n));
    } else {
        law_precedes(p.drop_first(), m, a, n, b);
        assert(x.drop_first() =~= p.drop_first() + seq![PartView::Name(m)] + a);
        assert(y.drop_first() =~= p.drop_first() + seq![PartView::Name(n)] + b);
        assert(x[0] == p[0] && y[0] == p[0]);
    }
}

} // verus!
