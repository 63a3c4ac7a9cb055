//! Stable sorting: the model and its laws.
use vstd::prelude::*;

use crate::text;

verus! {

/// The sequence with `x` put in behind every element that is not greater, as
/// far back as that goes.
pub open spec fn insert_by<A>(s: Seq<A>, x: A, le: spec_fn(A, A) -> bool) -> Seq<A>
    decreases s.len(),
{
    if s.len() == 0 || le(s.last(), x) {
        s.push(x)
    } else {
        insert_by(s.drop_last(), x, le).push(s.last())
    }
}

/// The elements in the order `le`; those that are equal in it keep their order.
pub open spec fn stable_sort<A>(s: Seq<A>, le: spec_fn(A, A) -> bool) -> Seq<A>
    decreases s.len(),
{
    if s.len() == 0 {
        Seq::empty()
    } else {
        insert_by(stable_sort(s.drop_last(), le), s.last(), le)
    }
}

pub proof fn lemma_insert_at<A>(s: Seq<A>, x: A, le: spec_fn(A, A) -> bool, p: int)
    requires
        0 <= p <= s.len(),
        p > 0 ==> le(s[p - 1], x),
        forall|k: int| p <= k < s.len() ==> !le(#[trigger] s[k], x),
    ensures
        insert_by(s, x, le) == s.insert(p, x),
    decreases s.len(),
{
    if p < s.len() {
        assert(!le(s.last(), x));
        lemma_insert_at(s.drop_last(), x, le, p);
        assert(s.drop_last().insert(p, x).push(s.last()) =~= s.insert(p, x));
    } else {
        assert(s.push(x) =~= s.insert(p, x));
    }
}

/// Every two elements can be compared, and comparison is transitive.
pub open spec fn total_preorder<A>(le: spec_fn(A, A) -> bool) -> bool {
    &&& forall|a: A, b: A| #[trigger] le(a, b) || le(b, a)
    &&& forall|a: A, b: A, c: A| #[trigger] le(a, b) && #[trigger] le(b, c) ==> le(a, c)
}

/// No element stands behind one that is greater.
pub open spec fn is_sorted<A>(s: Seq<A>, le: spec_fn(A, A) -> bool) -> bool {
    forall|i: int, j: int| 0 <= i < j < s.len() ==> le(#[trigger] s[i], #[trigger] s[j])
}

proof fn lemma_insert_sorted<A>(s: Seq<A>, x: A, le: spec_fn(A, A) -> bool)
    requires
        total_preorder(le),
        is_sorted(s, le),
    ensures
        is_sorted(insert_by(s, x, le), le),
        insert_by(s, x, le).len() == s.len() + 1,
        forall|i: int|
            0 <= i <= s.len() ==> #[trigger] insert_by(s, x, le)[i] == x || s.contains(
                insert_by(s, x, le)[i],
            ),
    decreases s.len(),
{
    let r = insert_by(s, x, le);
    if s.len() == 0 || le(s.last(), x) {
        assert forall|i: int, j: int| 0 <= i < j < r.len() implies le(
            #[trigger] r[i],
            #[trigger] r[j],
        ) by {
            if j == s.len() {
                if i < s.len() - 1 {
                    assert(le(s[i], s.last()));
                }
            } else {
                assert(le(s[i], s[j]));
            }
        }
        assert forall|i: int| 0 <= i <= s.len() implies #[trigger] r[i] == x || s.contains(
            r[i],
        ) by {
            if i < s.len() {
                assert(r[i] == s[i]);
            }
        }
    } else {
        let shorter = s.drop_last();
        assert(is_sorted(shorter, le)) by {
            assert forall|i: int, j: int| 0 <= i < j < shorter.len() implies le(
                #[trigger] shorter[i],
                #[trigger] shorter[j],
            ) by {
                assert(le(s[i], s[j]));
            }
        }
        lemma_insert_sorted(shorter, x, le);
        let t = insert_by(shorter, x, le);
        assert(le(x, s.last()));
        assert forall|i: int| 0 <= i < t.len() implies le(#[trigger] t[i], s.last()) by {
            if t[i] != x {
                let k = choose|k: int| 0 <= k < shorter.len() && shorter[k] == t[i];
                assert(le(s[k], s[s.len() - 1]));
            }
        }
        assert forall|i: int, j: int| 0 <= i < j < r.len() implies le(
            #[trigger] r[i],
            #[trigger] r[j],
        ) by {
            if j < t.len() {
                assert(le(t[i], t[j]));
            } else {
                assert(le(t[i], s.last()));
            }
        }
        assert forall|i: int| 0 <= i <= s.len() implies #[trigger] r[i] == x || s.contains(
            r[i],
        ) by {
            if i < t.len() {
                assert(r[i] == t[i]);
                if t[i] != x {
                    let k = choose|k: int| 0 <= k < shorter.len() && shorter[k] == t[i];
                    assert(s[k] == r[i]);
                }
            } else {
                assert(s[s.len() - 1] == r[i]);
            }
        }
    }
}

/// What is sorted is sorted.
pub proof fn law_sorted<A>(s: Seq<A>, le: spec_fn(A, A) -> bool)
    requires
        total_preorder(le),
    ensures
        is_sorted(stable_sort(s, le), le),
    decreases s.len(),
{
    if s.len() > 0 {
        law_sorted(s.drop_last(), le);
        lemma_insert_sorted(stable_sort(s.drop_last(), le), s.last(), le);
    }
}

proof fn lemma_insert_multiset<A>(s: Seq<A>, x: A, le: spec_fn(A, A) -> bool)
    ensures
        insert_by(s, x, le).to_multiset() == s.to_multiset().insert(x),
    decreases s.len(),
{
    broadcast use vstd::seq_lib::group_to_multiset_ensures;

    if s.len() > 0 && !le(s.last(), x) {
        lemma_insert_multiset(s.drop_last(), x, le);
        assert(s.drop_last().push(s.last()) =~= s);
        assert(insert_by(s, x, le).to_multiset() =~= s.to_multiset().insert(x));
    }
}

/// Sorting neither loses nor adds an element.
pub proof fn law_permutation<A>(s: Seq<A>, le: spec_fn(A, A) -> bool)
    ensures
        stable_sort(s, le).to_multiset() == s.to_multiset(),
        stable_sort(s, le).len() == s.len(),
    decreases s.len(),
{
    broadcast use vstd::seq_lib::group_to_multiset_ensures;

    if s.len() > 0 {
        law_permutation(s.drop_last(), le);
        lemma_insert_multiset(stable_sort(s.drop_last(), le), s.last(), le);
        assert(s.drop_last().push(s.last()) =~= s);
    } else {
        assert(s =~= Seq::<A>::empty());
    }
    stable_sort(s, le).to_multiset_ensures();
    s.to_multiset_ensures();
}

/// The elements that are equal to `x` in the order, as they stand.
pub open spec fn equals_of<A>(s: Seq<A>, x: A, le: spec_fn(A, A) -> bool) -> Seq<A>
    decreases s.len(),
{
    if s.len() == 0 {
        Seq::empty()
    } else if le(s.last(), x) && le(x, s.last()) {
        equals_of(s.drop_last(), x, le).push(s.last())
    } else {
        equals_of(s.drop_last(), x, le)
    }
}

proof fn lemma_insert_equals<A>(s: Seq<A>, y: A, x: A, le: spec_fn(A, A) -> bool)
    requires
        total_preorder(le),
    ensures
        equals_of(insert_by(s, y, le), x, le) == equals_of(s.push(y), x, le),
    decreases s.len(),
{
    assert(s.push(y).drop_last() =~= s);
    if s.len() > 0 && !le(s.last(), y) {
        lemma_insert_equals(s.drop_last(), y, x, le);
        let shorter = s.drop_last();
        assert(insert_by(s, y, le).drop_last() =~= insert_by(shorter, y, le));
        let t = insert_by(shorter, y, le);
        assert(insert_by(s, y, le) == t.push(s.last()));
        assert(t.push(s.last()).last() == s.last());
        assert(shorter.push(y).drop_last() =~= shorter);
        assert(shorter.push(y).last() == y);
        assert(s.push(y).last() == y);
        let e = equals_of(shorter, x, le);
        let y_in = le(y, x) && le(x, y);
        let last_in = le(s.last(), x) && le(x, s.last());
        assert(!(y_in && last_in)) by {
            if y_in && last_in {
                assert(le(s.last(), x) && le(x, y));
                assert(le(s.last(), y));
            }
        }
        assert(equals_of(t, x, le) == if y_in {
            e.push(y)
        } else {
            e
        });
        assert(equals_of(s, x, le) == if last_in {
            e.push(s.last())
        } else {
            e
        });
    }
}

/// Elements that are equal in the order keep their order.
pub proof fn law_stable<A>(s: Seq<A>, x: A, le: spec_fn(A, A) -> bool)
    requires
        total_preorder(le),
    ensures
        equals_of(stable_sort(s, le), x, le) == equals_of(s, x, le),
    decreases s.len(),
{
    if s.len() > 0 {
        let shorter = stable_sort(s.drop_last(), le);
        law_stable(s.drop_last(), x, le);
        lemma_insert_equals(shorter, s.last(), x, le);
        assert(shorter.push(s.last()).drop_last() =~= shorter);
    }
}

/// What is sorted already stays as it is.
pub proof fn law_sorted_stays<A>(s: Seq<A>, le: spec_fn(A, A) -> bool)
    requires
        is_sorted(s, le),
    ensures
        stable_sort(s, le) == s,
    decreases s.len(),
{
    if s.len() > 0 {
        let shorter = s.drop_last();
        assert forall|i: int, j: int| 0 <= i < j < shorter.len() implies le(
            #[trigger] shorter[i],
            #[trigger] shorter[j],
        ) by {
            assert(le(s[i], s[j]));
        }
        law_sorted_stays(shorter, le);
        if shorter.len() > 0 {
            assert(le(s[s.len() - 2], s[s.len() - 1]));
        }
        assert(shorter.push(s.last()) =~= s);
    } else {
        assert(stable_sort(s, le) =~= s);
    }
}

/// A type with an order to sort by.
pub trait Sortable: Sized {
    /// The element may stand in front of the other one.
    spec fn le(&self, other: &Self) -> bool;

    /// Whether the element may stand in front of the other one.
    fn at_most(&self, other: &Self) -> (r: bool)
        ensures
            r == self.le(other),
    ;
}

/// The order of a type, as a function.
pub open spec fn natural<T: Sortable>() -> spec_fn(T, T) -> bool {
    |a: T, b: T| a.le(&b)
}

/// Sorts the elements; those that are equal in the order keep their order.
pub fn sort<T: Sortable>(elements: Vec<T>) -> (r: Vec<T>)
    ensures
        r@ == stable_sort(elements@, natural::<T>()),
{
    let ghost all = elements@;
    let ghost le = natural::<T>();
    let mut rest: Vec<T> = elements;
    let mut out: Vec<T> = Vec::new();
    let ghost mut done: int = 0;
    while rest.len() > 0
        invariant
            0 <= done <= all.len(),
            le == natural::<T>(),
            rest@ == all.skip(done),
            out@ == stable_sort(all.take(done), le),
        decreases rest.len(),
    {
        let x: T = rest.remove(0);
        let mut at: usize = out.len();
        while at > 0 && !out[at - 1].at_most(&x)
            invariant
                at <= out.len(),
                le == natural::<T>(),
                forall|k: int| at <= k < out@.len() ==> !le(#[trigger] out@[k], x),
            decreases at,
        {
            at = at - 1;
        }
        proof {
            lemma_insert_at(out@, x, le, at as int);
            assert(all.take(done + 1).drop_last() == all.take(done));
            assert(all.take(done + 1).last() == x);
            assert(all.skip(done + 1) == all.skip(done).remove(0));
            done = done + 1;
        }
        out.insert(at, x);
    }
    assert(all.take(done) == all);
    out
}

/// Sorting commutes with a mapping that keeps the order.
pub proof fn lemma_sort_map<A, B>(
    s: Seq<A>,
    f: spec_fn(A) -> B,
    le: spec_fn(A, A) -> bool,
    le2: spec_fn(B, B) -> bool,
)
    requires
        forall|a: A, b: A| #[trigger] le(a, b) == le2(f(a), f(b)),
    ensures
        stable_sort(s, le).map_values(f) == stable_sort(s.map_values(f), le2),
    decreases s.len(),
{
    if s.len() == 0 {
        assert(stable_sort(s, le).map_values(f) =~= Seq::<B>::empty());
    } else {
        lemma_sort_map(s.drop_last(), f, le, le2);
        lemma_insert_map(stable_sort(s.drop_last(), le), s.last(), f, le, le2);
        assert(s.map_values(f).drop_last() =~= s.drop_last().map_values(f));
    }
}

proof fn lemma_insert_map<A, B>(
    s: Seq<A>,
    x: A,
    f: spec_fn(A) -> B,
    le: spec_fn(A, A) -> bool,
    le2: spec_fn(B, B) -> bool,
)
    requires
        forall|a: A, b: A| #[trigger] le(a, b) == le2(f(a), f(b)),
    ensures
        insert_by(s, x, le).map_values(f) == insert_by(s.map_values(f), f(x), le2),
    decreases s.len(),
{
    if s.len() == 0 || le(s.last(), x) {
        assert(s.push(x).map_values(f) =~= s.map_values(f).push(f(x)));
    } else {
        lemma_insert_map(s.drop_last(), x, f, le, le2);
        assert(s.map_values(f).drop_last() =~= s.drop_last().map_values(f));
        assert(insert_by(s.drop_last(), x, le).push(s.last()).map_values(f) =~= insert_by(
            s.drop_last(),
            x,
            le,
        ).map_values(f).push(f(s.last())));
    }
}


// --- sorted lists of texts -----------------------------------------------

/// The order of texts.
pub open spec fn alphabetical() -> spec_fn(Seq<char>, Seq<char>) -> bool {
    |a: Seq<char>, b: Seq<char>| !text::precedes(b, a)
}

impl Sortable for String {
    open spec fn le(&self, other: &Self) -> bool {
        !text::precedes(other@, self@)
    }

    fn at_most(&self, other: &Self) -> (r: bool) {
        !text::comes_before(&text::chars(other.as_str()), &text::chars(self.as_str()))
    }
}

/// The elements without those that are equal to the one before.
pub open spec fn without_repeats<A>(s: Seq<A>) -> Seq<A>
    decreases s.len(),
{
    if s.len() == 0 {
        Seq::empty()
    } else {
        let r = without_repeats(s.drop_last());
        if r.len() > 0 && r.last() == s.last() {
            r
        } else {
            r.push(s.last())
        }
    }
}

/// Each of the texts once, in order.
pub open spec fn sorted_distinct(s: Seq<Seq<char>>) -> Seq<Seq<char>> {
    without_repeats(stable_sort(s, alphabetical()))
}

/// Sorts the texts and keeps each once.
pub fn sort_distinct(v: Vec<String>) -> (r: Vec<String>)
    ensures
        text::views(r@) == sorted_distinct(text::views(v@)),
{
    let ghost given = v@;
    let sorted: Vec<String> = sort(v);
    let ghost all = text::views(sorted@);
    proof {
        let f = |x: String| x@;
        lemma_sort_map(given, f, natural::<String>(), alphabetical());
        assert(given.map_values(f) =~= text::views(given));
        assert(sorted@.map_values(f) =~= all);
    }
    let mut out: Vec<String> = Vec::new();
    let mut i: usize = 0;
    while i < sorted.len()
        invariant
            i <= sorted.len(),
            all == text::views(sorted@),
            text::views(out@) == without_repeats(all.take(i as int)),
        decreases sorted.len() - i,
    {
        let ghost before = out@;
        proof {
            assert(all.take(i + 1).drop_last() == all.take(i as int));
            assert(all.take(i + 1).last() == sorted@[i as int]@);
            if before.len() > 0 {
                assert(text::views(before).last() == before.last()@);
            }
        }
        if out.len() == 0 || !text::str_same(out[out.len() - 1].as_str(), sorted[i].as_str()) {
            let x: String = sorted[i].clone();
            out.push(x);
            proof {
                text::lemma_views_push(before, x);
            }
        }
        i = i + 1;
    }
    assert(all.take(i as int) == all);
    out
}

/// The order of texts is total.
pub proof fn lemma_alphabetical()
    ensures
        total_preorder(alphabetical()),
{
    let le = alphabetical();
    assert forall|a: Seq<char>, b: Seq<char>| #[trigger] le(a, b) || le(b, a) by {
        text::lemma_precedes_total(a, b);
    }
    assert forall|a: Seq<char>, b: Seq<char>, c: Seq<char>| #[trigger]
        le(a, b) && #[trigger] le(b, c) implies le(a, c) by {
        text::lemma_precedes_total(a, b);
        text::lemma_precedes_total(b, c);
        text::lemma_precedes_total(a, c);
        if text::precedes(c, a) {
            if a != b && b != c {
                text::lemma_precedes_transitive(a, b, c);
            }
        }
    }
}

proof fn lemma_without_repeats(s: Seq<Seq<char>>)
    requires
        is_sorted(s, alphabetical()),
    ensures
        forall|i: int, j: int|
            0 <= i < j < without_repeats(s).len() ==> text::precedes(
                #[trigger] without_repeats(s)[i],
                #[trigger] without_repeats(s)[j],
            ),
        forall|x: Seq<char>| without_repeats(s).contains(x) <==> s.contains(x),
        s.len() > 0 ==> without_repeats(s).len() > 0 && without_repeats(s).last() == s.last(),
    decreases s.len(),
{
    let le = alphabetical();
    if s.len() > 0 {
        let shorter = s.drop_last();
        assert forall|i: int, j: int| 0 <= i < j < shorter.len() implies le(
            #[trigger] shorter[i],
            #[trigger] shorter[j],
        ) by {
            assert(le(s[i], s[j]));
        }
        lemma_without_repeats(shorter);
        let r = without_repeats(shorter);
        let whole = without_repeats(s);
        assert forall|x: Seq<char>| whole.contains(x) <==> s.contains(x) by {
            assert(shorter.push(s.last()) =~= s);
            if s.contains(x) {
                let k = s.index_of(x);
                if k < shorter.len() {
                    assert(shorter[k] == x);
                    assert(shorter.contains(x));
                    assert(r.contains(x));
                    let m = r.index_of(x);
                    assert(whole[m] == x);
                } else {
                    assert(whole.last() == x);
                    assert(whole[whole.len() - 1] == x);
                }
            }
            if whole.contains(x) {
                let k = whole.index_of(x);
                if k < r.len() {
                    assert(r[k] == x);
                    assert(shorter.contains(x));
                    assert(s[shorter.index_of(x)] == x);
                } else {
                    assert(s[s.len() - 1] == x);
                }
            }
        }
        assert forall|i: int, j: int| 0 <= i < j < whole.len() implies text::precedes(
            #[trigger] whole[i],
            #[trigger] whole[j],
        ) by {
            if j < r.len() {
                assert(text::precedes(r[i], r[j]));
            } else {
                assert(r.contains(r.last()));
                assert(shorter.len() > 0);
                assert(le(s[s.len() - 2], s[s.len() - 1]));
                text::lemma_precedes_total(r.last(), s.last());
                assert(text::precedes(r.last(), s.last()));
                if i < r.len() - 1 {
                    assert(text::precedes(r[i], r[r.len() - 1]));
                    text::lemma_precedes_transitive(r[i], r.last(), s.last());
                }
            }
        }
    }
}

/// The list has every text once, each before those that come after it in the
/// order of texts, and no other text.
pub proof fn law_sorted_distinct(s: Seq<Seq<char>>)
    ensures
        forall|i: int, j: int|
            0 <= i < j < sorted_distinct(s).len() ==> text::precedes(
                #[trigger] sorted_distinct(s)[i],
                #[trigger] sorted_distinct(s)[j],
            ),
        forall|x: Seq<char>| sorted_distinct(s).contains(x) <==> s.contains(x),
{
    lemma_alphabetical();
    let sorted = stable_sort(s, alphabetical());
    law_sorted(s, alphabetical());
    law_permutation(s, alphabetical());
    lemma_without_repeats(sorted);
    assert forall|x: Seq<char>| sorted.contains(x) <==> s.contains(x) by {
        sorted.to_multiset_ensures();
        s.to_multiset_ensures();
        assert(sorted.contains(x) <==> sorted.to_multiset().count(x) > 0);
        assert(s.contains(x) <==> s.to_multiset().count(x) > 0);
    }
}

} // verus!
